pub mod laws;
pub mod magic;
pub mod node;
pub mod overlay;
pub mod overlayfs;
