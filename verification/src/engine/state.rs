//! What a run leaves on record.

use vstd::prelude::*;

verus! {

pub struct RuntimeState {
    pub timestamp: u64,
    pub pid: u32,
    pub storage_mode: String,
    pub mount_point: String,
    pub overlay_modules: Vec<String>,
    pub magic_modules: Vec<String>,
    pub active_mounts: Vec<String>,
    pub storage_total: u64,
    pub storage_used: u64,
    pub storage_percent: u8,
    pub zygisksu_enforce: bool,
}

impl Default for RuntimeState {
    fn default() -> (r: Self)
        ensures
            r.timestamp == 0,
            r.pid == 0,
            r.storage_mode@.len() == 0,
            r.mount_point@.len() == 0,
            r.overlay_modules@.len() == 0,
            r.magic_modules@.len() == 0,
            r.active_mounts@.len() == 0,
            r.storage_total == 0,
            r.storage_used == 0,
            r.storage_percent == 0,
            !r.zygisksu_enforce,
    {
        RuntimeState {
            timestamp: 0,
            pid: 0,
            storage_mode: String::new(),
            mount_point: String::new(),
            overlay_modules: Vec::new(),
            magic_modules: Vec::new(),
            active_mounts: Vec::new(),
            storage_total: 0,
            storage_used: 0,
            storage_percent: 0,
            zygisksu_enforce: false,
        }
    }
}

impl RuntimeState {
    /// The record of a run. The time, the process and the enforcement flag
    /// are read by the caller; the usage comes as total, used and percent.
    pub fn new(
        timestamp: u64,
        pid: u32,
        storage_mode: String,
        mount_point: String,
        overlay_modules: Vec<String>,
        magic_modules: Vec<String>,
        active_mounts: Vec<String>,
        storage_info: (u64, u64, u8),
        zygisksu_enforce: bool,
    ) -> (r: Self)
        ensures
            r.timestamp == timestamp,
            r.pid == pid,
            r.storage_mode == storage_mode,
            r.mount_point == mount_point,
            r.overlay_modules == overlay_modules,
            r.magic_modules == magic_modules,
            r.active_mounts == active_mounts,
            r.storage_total == storage_info.0,
            r.storage_used == storage_info.1,
            r.storage_percent == storage_info.2,
            r.zygisksu_enforce == zygisksu_enforce,
    {
        RuntimeState {
            timestamp,
            pid,
            storage_mode,
            mount_point,
            overlay_modules,
            magic_modules,
            active_mounts,
            storage_total: storage_info.0,
            storage_used: storage_info.1,
            storage_percent: storage_info.2,
            zygisksu_enforce,
        }
    }
}

} // verus!
