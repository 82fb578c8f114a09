pub mod xattr;
