//! Mounting the content of installed modules over the live partitions of a
//! device, without touching the partitions themselves.
//!
//! Two ways of mounting are planned here: one overlay mount per partition,
//! stacking what the modules hold for it, and the magic mount, which binds
//! single files and rebuilds directories on a tmpfs where an overlay cannot
//! be had. This library decides; it makes no mount and reads no file. The
//! caller looks at the device, hands over what it found, and carries out
//! what comes back.

pub mod engine;
pub mod conf;
pub mod defs;
pub mod mount;
pub mod paths;
pub mod scanner;
pub mod text;
pub mod try_umount;
pub mod utils;
