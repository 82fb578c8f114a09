//! Names and places that the rest of the library agrees on.

use crate::text::{owned, views};
use vstd::prelude::*;

verus! {

pub const FALLBACK_CONTENT_DIR: &'static str = "/data/adb/meta-hybrid/img_mnt/";

pub const BASE_DIR: &'static str = "/data/adb/meta-hybrid/";

pub const RUN_DIR: &'static str = "/data/adb/meta-hybrid/run/";

pub const STATE_FILE: &'static str = "/data/adb/meta-hybrid/run/daemon_state.json";

pub const DAEMON_LOG_FILE: &'static str = "/data/adb/meta-hybrid/daemon.log";

pub const MODULES_DIR: &'static str = "/data/adb/modules/";

pub const DISABLE_FILE_NAME: &'static str = "disable";

pub const REMOVE_FILE_NAME: &'static str = "remove";

pub const SKIP_MOUNT_FILE_NAME: &'static str = "skip_mount";

pub const OVERLAY_SOURCE: &'static str = "KSU";

pub const KSU_OVERLAY_SOURCE: &'static str = "KSU";

pub const SYSTEM_RW_DIR: &'static str = "/data/adb/meta-hybrid/rw";

pub const MODULE_PROP_FILE: &'static str = "/data/adb/modules/meta-hybrid/module.prop";

pub const REPLACE_DIR_FILE_NAME: &'static str = ".replace";

pub const REPLACE_DIR_XATTR: &'static str = "trusted.overlay.opaque";

/// The partitions that every plan covers.
pub open spec fn builtin_partitions() -> Seq<Seq<char>> {
    seq!["system"@, "vendor"@, "product"@, "system_ext"@, "odm"@, "oem"@]
}

/// The partitions that every plan covers, in their fixed order.
pub fn builtin_partition_names() -> (r: Vec<String>)
    ensures
        views(r@) == builtin_partitions(),
{
    let mut r: Vec<String> = Vec::new();
    r.push(owned("system"));
    r.push(owned("vendor"));
    r.push(owned("product"));
    r.push(owned("system_ext"));
    r.push(owned("odm"));
    r.push(owned("oem"));
    assert(views(r@) =~= builtin_partitions());
    r
}

} // verus!
