//! A mounted image that is let go of again when its holder is done.

use crate::text::owned;
use vstd::prelude::*;

verus! {

/// An image mounted at `target`. Whoever holds it hands it back with
/// `release`, which says whether the target is to be unmounted.
pub struct AutoMountExt4 {
    target: String,
    auto_umount: bool,
}

impl AutoMountExt4 {
    pub closed spec fn target(&self) -> Seq<char> {
        self.target@
    }

    pub closed spec fn auto_umount(&self) -> bool {
        self.auto_umount
    }

    /// Takes hold of an image once it is mounted; nothing where the mount
    /// failed.
    pub fn try_new(target: &str, auto_umount: bool, mounted: bool) -> (r: Option<Self>)
        ensures
            r is Some <==> mounted,
            r matches Some(g) ==> g.target() == target@ && g.auto_umount() == auto_umount,
    {
        if mounted {
            Some(AutoMountExt4 { target: owned(target), auto_umount })
        } else {
            None
        }
    }

    /// The target to unmount, detached.
    pub fn umount(&self) -> (r: String)
        ensures
            r@ == self.target(),
    {
        self.target.clone()
    }

    /// Gives the image up: the target to unmount, where the holder asked
    /// for that.
    pub fn release(self) -> (r: Option<String>)
        ensures
            r is Some <==> self.auto_umount(),
            r matches Some(t) ==> t@ == self.target(),
    {
        if self.auto_umount {
            Some(self.target)
        } else {
            None
        }
    }
}

} // verus!
