//! The storage that module content is staged in: which backend is tried in
//! which order, and the sizes that go with it.

use crate::text::owned;
use vstd::prelude::*;

verus! {

/// The staged module content: where it is mounted, and on what.
pub struct StorageHandle {
    pub mount_point: String,
    /// `tmpfs`, `ext4` or `erofs`.
    pub mode: String,
}

/// A kind of storage.
#[derive(PartialEq, Eq, Clone, Copy, Debug, Structural)]
pub enum Backend {
    Erofs,
    Tmpfs,
    Ext4,
}

impl Backend {
    pub open spec fn spec_name(self) -> Seq<char> {
        match self {
            Backend::Erofs => "erofs"@,
            Backend::Tmpfs => "tmpfs"@,
            Backend::Ext4 => "ext4"@,
        }
    }

    /// The mode tag of the backend.
    pub fn name(self) -> (r: String)
        ensures
            r@ == self.spec_name(),
    {
        match self {
            Backend::Erofs => owned("erofs"),
            Backend::Tmpfs => owned("tmpfs"),
            Backend::Ext4 => owned("ext4"),
        }
    }
}

/// The backends that are tried, in order: a read-only image where it is
/// asked for and the kernel has it, a tmpfs unless the image is forced,
/// and the ext4 image last, always.
pub open spec fn candidates(force_ext4: bool, use_erofs: bool, erofs_supported: bool) -> Seq<
    Backend,
> {
    (if use_erofs && erofs_supported {
        seq![Backend::Erofs]
    } else {
        Seq::empty()
    }) + (if !force_ext4 {
        seq![Backend::Tmpfs]
    } else {
        Seq::empty()
    }) + seq![Backend::Ext4]
}

/// What the setup of the storage does next.
pub enum SetupStep {
    /// Try to bring this backend up.
    Try(Backend),
    /// The storage is up.
    Ready(StorageHandle),
    /// The last backend failed as well.
    Failed,
}

/// Index of the first attempt that went through, or the number of
/// attempts.
pub open spec fn first_success(outcomes: Seq<bool>) -> int
    decreases outcomes.len(),
{
    if outcomes.len() == 0 {
        0
    } else {
        let p = first_success(outcomes.drop_last());
        if p < outcomes.len() - 1 {
            p
        } else if outcomes.last() {
            outcomes.len() - 1
        } else {
            outcomes.len() as int
        }
    }
}

proof fn lemma_first_success_prefix(outcomes: Seq<bool>, n: int)
    requires
        0 <= n <= outcomes.len(),
        first_success(outcomes.subrange(0, n)) < n,
    ensures
        first_success(outcomes) == first_success(outcomes.subrange(0, n)),
    decreases outcomes.len() - n,
{
    if n < outcomes.len() {
        let next = outcomes.subrange(0, n + 1);
        assert(next.drop_last() =~= outcomes.subrange(0, n));
        lemma_first_success_prefix(outcomes, n + 1);
    } else {
        assert(outcomes.subrange(0, n) =~= outcomes);
    }
}

/// Sets the storage up, one backend at a time. `outcomes` says how the
/// attempts so far went, in the order of the candidates. The first backend
/// that came up is the storage; while none did, the next candidate is
/// tried; when the last one failed, the setup has failed.
pub fn setup(
    mnt_base: &str,
    force_ext4: bool,
    use_erofs: bool,
    erofs_supported: bool,
    outcomes: &Vec<bool>,
) -> (r: SetupStep)
    ensures
        ({
            let c = candidates(force_ext4, use_erofs, erofs_supported);
            let p = first_success(outcomes@);
            match r {
                SetupStep::Ready(h) => p < outcomes.len() && p < c.len() && h.mount_point@
                    == mnt_base@ && h.mode@ == c[p].spec_name(),
                SetupStep::Try(b) => p == outcomes.len() && p < c.len() && b == c[p],
                SetupStep::Failed => p >= c.len(),
            }
        }),
{
    let mut c: Vec<Backend> = Vec::new();
    if use_erofs && erofs_supported {
        c.push(Backend::Erofs);
    }
    if !force_ext4 {
        c.push(Backend::Tmpfs);
    }
    c.push(Backend::Ext4);
    assert(c@ =~= candidates(force_ext4, use_erofs, erofs_supported));
    let mut i: usize = 0;
    assert(outcomes@.subrange(0, 0) =~= Seq::<bool>::empty());
    while i < outcomes.len()
        invariant
            i <= outcomes.len(),
            first_success(outcomes@.subrange(0, i as int)) == i,
            c@ == candidates(force_ext4, use_erofs, erofs_supported),
        decreases outcomes.len() - i,
    {
        proof {
            let next = outcomes@.subrange(0, i + 1);
            assert(next.drop_last() =~= outcomes@.subrange(0, i as int));
            assert(next.last() == outcomes[i as int]);
        }
        if outcomes[i] {
            proof {
                lemma_first_success_prefix(outcomes@, i + 1);
            }
            if i < c.len() {
                return SetupStep::Ready(
                    StorageHandle { mount_point: owned(mnt_base), mode: c[i].name() },
                );
            } else {
                return SetupStep::Failed;
            }
        }
        i = i + 1;
    }
    assert(outcomes@.subrange(0, outcomes.len() as int) =~= outcomes@);
    if i < c.len() {
        SetupStep::Try(c[i])
    } else {
        SetupStep::Failed
    }
}

/// What becomes of a tmpfs that was tried as storage.
#[derive(PartialEq, Eq, Clone, Copy, Debug, Structural)]
pub enum TmpfsVerdict {
    /// It is mounted and takes the attributes that overlays need.
    Use,
    /// It is mounted but cannot hold those attributes: unmount it.
    Discard,
    /// It could not be mounted.
    Unavailable,
}

/// Judges a tmpfs as storage: it serves only where it came up and holds
/// extended attributes.
pub fn try_setup_tmpfs(mounted: bool, xattr_supported: bool) -> (r: TmpfsVerdict)
    ensures
        r == (if !mounted {
            TmpfsVerdict::Unavailable
        } else if xattr_supported {
            TmpfsVerdict::Use
        } else {
            TmpfsVerdict::Discard
        }),
{
    if !mounted {
        TmpfsVerdict::Unavailable
    } else if xattr_supported {
        TmpfsVerdict::Use
    } else {
        TmpfsVerdict::Discard
    }
}

/// Room that an image gets beyond the files it holds.
pub const IMAGE_OVERHEAD: u64 = 67108864;

/// Image sizes are whole multiples of this.
pub const IMAGE_GRANULARITY: u64 = 5242880;

/// The size of an image for `total_size` bytes of files: the overhead is
/// added and the sum rounded up to the granularity.
pub open spec fn spec_image_size(total_size: int) -> int {
    ((total_size + IMAGE_OVERHEAD + IMAGE_GRANULARITY - 1) / (IMAGE_GRANULARITY as int))
        * IMAGE_GRANULARITY
}

/// The size of the image to create, or nothing where it does not fit in 64
/// bits.
pub fn image_size(total_size: u64) -> (r: Option<u64>)
    ensures
        match r {
            Some(n) => n == spec_image_size(total_size as int),
            None => spec_image_size(total_size as int) > u64::MAX,
        },
{
    let padded: u128 = total_size as u128 + IMAGE_OVERHEAD as u128 + IMAGE_GRANULARITY as u128 - 1;
    let units: u128 = padded / (IMAGE_GRANULARITY as u128);
    assert(units * 5242880 <= padded) by (nonlinear_arith)
        requires
            units == padded / 5242880,
    ;
    let size: u128 = units * (IMAGE_GRANULARITY as u128);
    if size > u64::MAX as u128 {
        None
    } else {
        Some(size as u64)
    }
}

/// How full a filesystem is: total bytes, used bytes, and the used share
/// in percent, rounded down. All three are zero for an empty filesystem,
/// and where the counts make no sense: more free blocks than blocks, or a
/// size beyond 64 bits.
pub open spec fn usage(blocks: int, bfree: int, frsize: int) -> (int, int, int) {
    let total = blocks * frsize;
    let used = total - bfree * frsize;
    if total <= 0 || total > u64::MAX || bfree > blocks {
        (0, 0, 0)
    } else {
        (total, used, used * 100 / total)
    }
}

/// The usage of a filesystem from its block counts.
pub fn get_usage(blocks: u64, bfree: u64, frsize: u64) -> (r: (u64, u64, u8))
    ensures
        (r.0 as int, r.1 as int, r.2 as int) == usage(blocks as int, bfree as int, frsize as int),
        r.1 <= r.0,
        r.2 <= 100,
{
    assert(blocks * frsize <= 0xffff_ffff_ffff_ffff * 0xffff_ffff_ffff_ffff) by (nonlinear_arith)
        requires
            blocks <= 0xffff_ffff_ffff_ffff,
            frsize <= 0xffff_ffff_ffff_ffff,
    ;
    let wide: u128 = (blocks as u128) * (frsize as u128);
    if wide == 0 || wide > u64::MAX as u128 || bfree > blocks {
        return (0, 0, 0);
    }
    assert(bfree * frsize <= blocks * frsize) by (nonlinear_arith)
        requires
            bfree <= blocks,
    ;
    let total: u64 = blocks * frsize;
    let free: u64 = bfree * frsize;
    let used: u64 = total - free;
    let scaled: u128 = used as u128 * 100;
    let percent: u128 = scaled / (total as u128);
    assert(percent <= 100) by (nonlinear_arith)
        requires
            percent == scaled / (total as u128),
            scaled == used * 100,
            used <= total,
            total > 0,
    ;
    (total, used, percent as u8)
}

} // verus!
