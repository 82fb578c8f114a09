//! Security labels and overlay attributes: which label a file gets, which
//! attributes are carried over, and whether the kernel keeps attributes on
//! a tmpfs.

use crate::text::{
    ends_with, has_infix, has_substring, index_from, is_prefix, is_suffix, lines, owned,
    spec_lines, spec_trim, split_once, starts_with, trim, trim_char, trimmed_of, views,
};
use vstd::prelude::*;

verus! {

pub const SELINUX_XATTR: &'static str = "security.selinux";

pub const OVERLAY_OPAQUE_XATTR: &'static str = "trusted.overlay.opaque";

pub const CONTEXT_SYSTEM: &'static str = "u:object_r:system_file:s0";

pub const CONTEXT_VENDOR: &'static str = "u:object_r:vendor_file:s0";

pub const CONTEXT_HAL: &'static str = "u:object_r:same_process_hal_file:s0";

pub const CONTEXT_ROOTFS: &'static str = "u:object_r:rootfs:s0";

pub const CONTEXT_UNLABELED: &'static str = "u:object_r:unlabeled:s0";

pub open spec fn opt_chars(s: Option<String>) -> Option<Seq<char>> {
    match s {
        Some(p) => Some(p@),
        None => None,
    }
}

/// The label held in the raw value of the label attribute: the value
/// without the NUL characters at its ends. Nothing where the attribute
/// could not be read.
pub fn lgetfilecon(raw: Option<&str>) -> (r: Option<String>)
    ensures
        match (raw, r) {
            (Some(v), Some(c)) => c@ == trimmed_of(v@, '\0'),
            (None, None) => true,
            _ => false,
        },
{
    match raw {
        Some(v) => Some(trim_char(v, '\0')),
        None => None,
    }
}

/// The label guessed for a projected path. Below `/vendor` and `/odm` a
/// library gets the label of same-process HALs — a path through a `lib`
/// or `lib64` directory, or one ending in `.so` — and anything else the
/// vendor label. Everywhere else it is the system label.
pub open spec fn spec_guess_context(path: Seq<char>) -> Seq<char> {
    if is_prefix("/vendor"@, path) || is_prefix("/odm"@, path) {
        if has_infix(path, "/lib/"@) || has_infix(path, "/lib64/"@) || is_suffix(".so"@, path) {
            CONTEXT_HAL@
        } else {
            CONTEXT_VENDOR@
        }
    } else {
        CONTEXT_SYSTEM@
    }
}

/// Guesses the label for a projected path.
pub fn guess_context_by_path(path: &str) -> (r: String)
    ensures
        r@ == spec_guess_context(path@),
{
    if starts_with(path, "/vendor") || starts_with(path, "/odm") {
        if has_substring(path, "/lib/") || has_substring(path, "/lib64/") || ends_with(
            path,
            ".so",
        ) {
            owned(CONTEXT_HAL)
        } else {
            owned(CONTEXT_VENDOR)
        }
    } else {
        owned(CONTEXT_SYSTEM)
    }
}

/// The label that a copied file gets: that of the file it was copied from,
/// but the system label where that file has none or the one of the root
/// filesystem.
pub open spec fn copied_context(source: Option<Seq<char>>) -> Seq<char> {
    match source {
        Some(ctx) => if has_infix(ctx, CONTEXT_ROOTFS@) {
            CONTEXT_SYSTEM@
        } else {
            ctx
        },
        None => CONTEXT_SYSTEM@,
    }
}

/// Whether an attribute is carried over with the others: it belongs to the
/// overlay and is not the opaque marker, which is carried on its own.
pub open spec fn carried(name: Seq<char>) -> bool {
    is_prefix("trusted.overlay."@, name) && name != OVERLAY_OPAQUE_XATTR@
}

/// The carried attributes among the first `k` names.
pub open spec fn carried_names(names: Seq<Seq<char>>, k: int) -> Seq<Seq<char>>
    decreases k,
{
    if k <= 0 || k > names.len() {
        Seq::empty()
    } else if carried(names[k - 1]) {
        carried_names(names, k - 1).push(names[k - 1])
    } else {
        carried_names(names, k - 1)
    }
}

/// What is copied from one file to another.
pub struct XattrCopy {
    /// The label that the copy gets.
    pub context: String,
    /// The value of the opaque marker, where the source file has it.
    pub opaque: Option<Vec<u8>>,
    /// The other overlay attributes to copy, by name.
    pub names: Vec<String>,
}

/// Decides what is copied from a file with this label, this opaque marker
/// and these attribute names.
pub fn copy_extended_attributes(
    source_context: Option<String>,
    opaque: Option<Vec<u8>>,
    names: &Vec<String>,
) -> (r: XattrCopy)
    ensures
        r.context@ == copied_context(opt_chars(source_context)),
        r.opaque == opaque,
        views(r.names@) == carried_names(views(names@), names.len() as int),
{
    let context = match source_context {
        Some(ctx) => if has_substring(ctx.as_str(), CONTEXT_ROOTFS) {
            owned(CONTEXT_SYSTEM)
        } else {
            ctx
        },
        None => owned(CONTEXT_SYSTEM),
    };
    let marker = owned(OVERLAY_OPAQUE_XATTR);
    let mut kept: Vec<String> = Vec::new();
    let mut i: usize = 0;
    assert(views(kept@) =~= Seq::<Seq<char>>::empty());
    while i < names.len()
        invariant
            i <= names.len(),
            marker@ == OVERLAY_OPAQUE_XATTR@,
            views(kept@) == carried_names(views(names@), i as int),
        decreases names.len() - i,
    {
        assert(views(names@)[i as int] == names[i as int]@);
        if starts_with(names[i].as_str(), "trusted.overlay.") && !(names[i] == marker) {
            let ghost before = views(kept@);
            kept.push(names[i].clone());
            assert(views(kept@) =~= before.push(names[i as int]@));
        }
        i = i + 1;
    }
    XattrCopy { context, opaque, names: kept }
}

/// What is known of a staged file and of the live path it stands for.
pub struct ContextFacts {
    /// The file's name.
    pub name: Option<String>,
    /// The label of the directory that holds the file.
    pub parent_ctx: Option<String>,
    /// The file's own label.
    pub current_ctx: Option<String>,
    /// The live path that the file stands for.
    pub system_path: String,
    pub system_exists: bool,
    /// The label of the live path.
    pub system_ctx: Option<String>,
    /// Whether the directory of the live path exists.
    pub system_parent_exists: bool,
    /// The label of that directory.
    pub system_parent_ctx: Option<String>,
}

/// A label that says something: not empty, not the one of the root
/// filesystem, not the one of unlabeled files.
pub open spec fn meaningful(ctx: Seq<char>) -> bool {
    ctx.len() > 0 && ctx != CONTEXT_ROOTFS@ && ctx != CONTEXT_UNLABELED@
}

/// The label to give a staged file, or nothing where it keeps the label it
/// has. The two directories of a writable layer take the label of the
/// directory that holds them. A file with a meaningful label keeps it.
/// Otherwise the file takes the label of the live path, the system label
/// standing in for the one of the root filesystem; where the live path is
/// missing, the label of its directory, unless a library below a vendor
/// directory asks for the HAL label; and the guessed label in the end.
pub open spec fn chosen_context(f: ContextFacts) -> Option<Seq<char>> {
    let staging = f.name matches Some(n) && (n@ == "upperdir"@ || n@ == "workdir"@);
    if staging && f.parent_ctx is Some {
        Some(f.parent_ctx->0@)
    } else if f.current_ctx matches Some(c) && meaningful(c@) {
        None
    } else if f.system_exists && f.system_ctx is Some {
        Some(
            if f.system_ctx->0@ == CONTEXT_ROOTFS@ {
                CONTEXT_SYSTEM@
            } else {
                f.system_ctx->0@
            },
        )
    } else if !f.system_exists && f.system_parent_exists && (f.system_parent_ctx matches Some(p)
        && p@ != CONTEXT_ROOTFS@) {
        Some(
            if spec_guess_context(f.system_path@) == CONTEXT_HAL@ && f.system_parent_ctx->0@
                == CONTEXT_VENDOR@ {
                CONTEXT_HAL@
            } else {
                f.system_parent_ctx->0@
            },
        )
    } else {
        Some(spec_guess_context(f.system_path@))
    }
}

/// Chooses the label for a staged file.
pub fn apply_system_context(facts: &ContextFacts) -> (r: Option<String>)
    ensures
        opt_chars(r) == chosen_context(*facts),
{
    let upper = owned("upperdir");
    let work = owned("workdir");
    let rootfs = owned(CONTEXT_ROOTFS);
    let unlabeled = owned(CONTEXT_UNLABELED);
    let vendor = owned(CONTEXT_VENDOR);
    let hal = owned(CONTEXT_HAL);
    let staging = match &facts.name {
        Some(n) => *n == upper || *n == work,
        None => false,
    };
    if staging {
        match &facts.parent_ctx {
            Some(ctx) => {
                return Some(ctx.clone());
            },
            None => {},
        }
    }
    match &facts.current_ctx {
        Some(c) => {
            if !c.as_str().is_empty() && !(*c == rootfs) && !(*c == unlabeled) {
                return None;
            }
        },
        None => {},
    }
    if facts.system_exists {
        match &facts.system_ctx {
            Some(sys) => {
                if *sys == rootfs {
                    return Some(owned(CONTEXT_SYSTEM));
                } else {
                    return Some(sys.clone());
                }
            },
            None => {},
        }
    } else if facts.system_parent_exists {
        match &facts.system_parent_ctx {
            Some(p) => {
                if !(*p == rootfs) {
                    let guessed = guess_context_by_path(facts.system_path.as_str());
                    if guessed == hal && *p == vendor {
                        return Some(hal);
                    }
                    return Some(p.clone());
                }
            },
            None => {},
        }
    }
    Some(guess_context_by_path(facts.system_path.as_str()))
}

/// Whether the lines from number `from` on switch attributes on tmpfs on:
/// a line that is no comment and sets `CONFIG_TMPFS_XATTR` to `y`, white
/// space around either left aside.
pub open spec fn enables_from(lines: Seq<Seq<char>>, from: int) -> bool
    decreases lines.len() - from,
{
    if from < 0 || from >= lines.len() {
        false
    } else {
        let line = lines[from];
        let i = index_from(line, '=', 0);
        let hit = !is_prefix(seq!['#'], line) && i < line.len() && spec_trim(line.subrange(0, i))
            == "CONFIG_TMPFS_XATTR"@ && spec_trim(line.subrange(i + 1, line.len() as int)) == "y"@;
        hit || enables_from(lines, from + 1)
    }
}

/// Whether a kernel configuration keeps extended attributes on tmpfs.
pub fn is_overlay_xattr_supported(config: &str) -> (r: bool)
    ensures
        r == enables_from(spec_lines(config@), 0),
{
    let all = lines(config);
    let key = owned("CONFIG_TMPFS_XATTR");
    let yes = owned("y");
    proof {
        reveal_strlit("#");
        assert("#"@ =~= seq!['#']);
    }
    let mut i: usize = 0;
    while i < all.len()
        invariant
            i <= all.len(),
            "#"@ == seq!['#'],
            key@ == "CONFIG_TMPFS_XATTR"@,
            yes@ == "y"@,
            views(all@) == spec_lines(config@),
            enables_from(views(all@), i as int) == enables_from(spec_lines(config@), 0),
        decreases all.len() - i,
    {
        assert(views(all@)[i as int] == all[i as int]@);
        let line = &all[i];
        if !starts_with(line.as_str(), "#") {
            match split_once(line.as_str(), '=') {
                Some((k, v)) => {
                    if trim(k.as_str()) == key && trim(v.as_str()) == yes {
                        return true;
                    }
                },
                None => {},
            }
        }
        i = i + 1;
    }
    false
}

} // verus!
