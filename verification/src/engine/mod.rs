//! The engine: a run goes from storage to inventory to plan to execution
//! to the final record, one stage after the other. The type of the engine
//! says which stage it is in, so a stage cannot be skipped.

pub mod conflicts;
pub mod executor;
pub mod inventory;
pub mod laws;
pub mod planner;
pub mod state;
pub mod storage;
pub mod winnow;

use crate::conf::config::Config;
use crate::engine::executor::{disjoint, goes_magic, plan_consistent, stays_overlay};
use crate::engine::executor::ExecutionResult;
use crate::engine::inventory::{module_models, Module};
use crate::engine::planner::{
    content_models, planned, probe_models, spec_target_partitions, ModuleContent, MountPlan,
    PlanError, TargetProbe,
};
use crate::engine::state::RuntimeState;
use crate::engine::storage::StorageHandle;
use crate::text::{owned, strictly_sorted, views};
use vstd::prelude::*;

verus! {

/// Nothing is set up yet.
pub struct Init;

/// The storage is up.
pub struct StorageReady {
    pub handle: StorageHandle,
}

/// The modules are known and their content is staged.
pub struct ModulesReady {
    pub handle: StorageHandle,
    pub modules: Vec<Module>,
}

/// The plan is made.
pub struct Planned {
    pub handle: StorageHandle,
    pub modules: Vec<Module>,
    pub plan: MountPlan,
}

/// The plan was carried out.
pub struct Executed {
    pub handle: StorageHandle,
    pub modules: Vec<Module>,
    pub plan: MountPlan,
    pub result: ExecutionResult,
}

pub struct OryzaEngine<S> {
    pub config: Config,
    pub state: S,
}

/// What the last stage hands back.
pub struct FinalReport {
    /// The record to write.
    pub state: RuntimeState,
    /// Whether the traces of the image were purged.
    pub nuke_active: bool,
    pub overlay_count: usize,
    pub magic_count: usize,
}

impl OryzaEngine<Init> {
    pub fn new(config: Config) -> (r: Self)
        ensures
            r.config == config,
    {
        OryzaEngine { config, state: Init }
    }

    /// Takes the storage that was set up.
    pub fn init_storage(self, handle: StorageHandle) -> (r: OryzaEngine<StorageReady>)
        ensures
            r.config == self.config,
            r.state.handle == handle,
    {
        OryzaEngine { config: self.config, state: StorageReady { handle } }
    }
}

impl OryzaEngine<StorageReady> {
    /// Takes the modules that were found and staged.
    pub fn scan_and_sync(self, modules: Vec<Module>) -> (r: OryzaEngine<ModulesReady>)
        ensures
            r.config == self.config,
            r.state.handle == self.state.handle,
            r.state.modules == modules,
    {
        OryzaEngine {
            config: self.config,
            state: ModulesReady { handle: self.state.handle, modules },
        }
    }
}

impl OryzaEngine<ModulesReady> {
    /// Makes the plan from what the storage holds for each module and what
    /// the live partitions resolve to.
    pub fn generate_plan(self, contents: &Vec<ModuleContent>, probes: &Vec<TargetProbe>) -> (r:
        Result<OryzaEngine<Planned>, PlanError>)
        ensures
            r is Err <==> contents.len() != self.state.modules.len(),
            r matches Ok(e) ==> {
                &&& e.config == self.config
                &&& e.state.handle == self.state.handle
                &&& e.state.modules == self.state.modules
                &&& planned(
                    e.state.plan,
                    spec_target_partitions(views(self.config.partitions@)),
                    module_models(self.state.modules@),
                    content_models(contents@),
                    self.state.handle.mount_point@,
                    probe_models(probes@),
                    self.config.mountsource@,
                )
            },
    {
        let plan = planner::generate(
            &self.config,
            &self.state.modules,
            self.state.handle.mount_point.as_str(),
            contents,
            probes,
        );
        match plan {
            Ok(plan) => Ok(
                OryzaEngine {
                    config: self.config,
                    state: Planned {
                        handle: self.state.handle,
                        modules: self.state.modules,
                        plan,
                    },
                },
            ),
            Err(e) => Err(e),
        }
    }
}

impl OryzaEngine<Planned> {
    /// Records how carrying out the plan went: which overlay mounts
    /// failed, and whether the magic mount went through.
    pub fn execute(self, failed: &Vec<bool>, magic_ok: bool) -> (r: OryzaEngine<Executed>)
        ensures
            r.config == self.config,
            r.state.handle == self.state.handle,
            r.state.modules == self.state.modules,
            r.state.plan == self.state.plan,
            strictly_sorted(views(r.state.result.overlay_module_ids@)),
            strictly_sorted(views(r.state.result.magic_module_ids@)),
            forall|t: Seq<char>|
                #[trigger] views(r.state.result.overlay_module_ids@).contains(t) <==> stays_overlay(
                    self.state.plan,
                    failed@,
                    t,
                ),
            forall|t: Seq<char>|
                #[trigger] views(r.state.result.magic_module_ids@).contains(t) <==> (magic_ok
                    && goes_magic(
                    self.state.plan,
                    failed@,
                    t,
                )),
            plan_consistent(self.state.plan) ==> disjoint(
                views(r.state.result.overlay_module_ids@),
                views(r.state.result.magic_module_ids@),
            ),
    {
        let result = executor::execute(&self.state.plan, failed, magic_ok);
        OryzaEngine {
            config: self.config,
            state: Executed {
                handle: self.state.handle,
                modules: self.state.modules,
                plan: self.state.plan,
                result,
            },
        }
    }
}

impl OryzaEngine<Executed> {
    /// Whether the traces of the storage image are to be purged: only an
    /// ext4 image leaves any, and only where the configuration asks.
    pub open spec fn spec_wants_nuke(&self) -> bool {
        self.state.handle.mode@ == "ext4"@ && self.config.enable_nuke
    }

    /// Whether the traces of the storage image are to be purged.
    pub fn wants_nuke(&self) -> (r: bool)
        ensures
            r == self.spec_wants_nuke(),
    {
        let ext4 = owned("ext4");
        self.state.handle.mode == ext4 && self.config.enable_nuke
    }

    /// Closes the run and makes its record. `nuke_ok` says whether the
    /// purge went through, where one was wanted; the time, the process and
    /// the enforcement flag are what the caller read, and the usage is that
    /// of the storage.
    pub fn finalize(
        self,
        nuke_ok: bool,
        timestamp: u64,
        pid: u32,
        zygisksu_enforce: bool,
        storage_stats: (u64, u64, u8),
    ) -> (r: FinalReport)
        ensures
            r.nuke_active == (self.spec_wants_nuke() && nuke_ok),
            r.overlay_count == self.state.result.overlay_module_ids@.len(),
            r.magic_count == self.state.result.magic_module_ids@.len(),
            r.state.timestamp == timestamp,
            r.state.pid == pid,
            r.state.zygisksu_enforce == zygisksu_enforce,
            r.state.storage_mode == self.state.handle.mode,
            r.state.mount_point == self.state.handle.mount_point,
            r.state.overlay_modules == self.state.result.overlay_module_ids,
            r.state.magic_modules == self.state.result.magic_module_ids,
            r.state.storage_total == storage_stats.0,
            r.state.storage_used == storage_stats.1,
            r.state.storage_percent == storage_stats.2,
            r.state.active_mounts@.len() == self.state.plan.overlay_ops@.len(),
            forall|i: int|
                0 <= i < self.state.plan.overlay_ops@.len() ==> (#[trigger] r.state.active_mounts[i])@
                    == self.state.plan.overlay_ops[i].partition_name@,
    {
        let nuke_active = self.wants_nuke() && nuke_ok;
        let mut active_mounts: Vec<String> = Vec::new();
        let mut i: usize = 0;
        while i < self.state.plan.overlay_ops.len()
            invariant
                i <= self.state.plan.overlay_ops.len(),
                active_mounts.len() == i,
                forall|k: int|
                    0 <= k < i ==> (#[trigger] active_mounts[k])@
                        == self.state.plan.overlay_ops[k].partition_name@,
            decreases self.state.plan.overlay_ops.len() - i,
        {
            active_mounts.push(self.state.plan.overlay_ops[i].partition_name.clone());
            i = i + 1;
        }
        let overlay_count = self.state.result.overlay_module_ids.len();
        let magic_count = self.state.result.magic_module_ids.len();
        let state = RuntimeState::new(
            timestamp,
            pid,
            self.state.handle.mode,
            self.state.handle.mount_point,
            self.state.result.overlay_module_ids,
            self.state.result.magic_module_ids,
            active_mounts,
            storage_stats,
            zygisksu_enforce,
        );
        FinalReport { state, nuke_active, overlay_count, magic_count }
    }
}

} // verus!
