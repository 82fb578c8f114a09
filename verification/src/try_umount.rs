//! The unmount queue: the paths whose mounts a kernel helper is to take
//! away again after boot, each one queued once.

use crate::text::{byte_len, byte_len_capped, contains_string, owned, views};
use vstd::prelude::*;

verus! {

/// Longest path, in bytes, that the second helper takes, end marker
/// included.
pub const SUSFS_MAX_LEN_PATHNAME: usize = 256;

/// The queue of paths to unmount later.
pub struct UmountSink {
    /// Whether the kernel helper is there. Without it nothing is queued.
    pub enabled: bool,
    /// The queued paths, in the order they came.
    pub queue: Vec<String>,
}

impl UmountSink {
    /// No path is queued twice.
    pub open spec fn well_formed(&self) -> bool {
        views(self.queue@).no_duplicates()
    }

    /// An empty queue.
    pub fn new(enabled: bool) -> (r: Self)
        ensures
            r.enabled == enabled,
            r.queue@.len() == 0,
            r.well_formed(),
    {
        UmountSink { enabled, queue: Vec::new() }
    }
}

/// Queues `target` for a later unmount, unless the helper is missing or
/// the path is queued already. Says whether the path was added.
pub fn send_unmountable(sink: &mut UmountSink, target: &str) -> (added: bool)
    ensures
        old(sink).well_formed() ==> final(sink).well_formed(),
        final(sink).enabled == old(sink).enabled,
        added == (old(sink).enabled && !views(old(sink).queue@).contains(target@)),
        views(final(sink).queue@) == (if added {
            views(old(sink).queue@).push(target@)
        } else {
            views(old(sink).queue@)
        }),
{
    if !sink.enabled {
        return false;
    }
    let path = owned(target);
    if contains_string(&sink.queue, &path) {
        return false;
    }
    let ghost before = views(sink.queue@);
    sink.queue.push(path);
    proof {
        assert(views(sink.queue@) =~= before.push(target@));
        if old(sink).well_formed() {
            lemma_push_fresh(before, target@);
        }
    }
    true
}

/// A list without repeats stays so when something new is added.
proof fn lemma_push_fresh(before: Seq<Seq<char>>, x: Seq<char>)
    requires
        before.no_duplicates(),
        !before.contains(x),
    ensures
        before.push(x).no_duplicates(),
{
    let after = before.push(x);
    assert forall|i: int, j: int|
        0 <= i < after.len() && 0 <= j < after.len() && i != j implies after[i] != after[j] by {
        if i < before.len() && j < before.len() {
            assert(before[i] != before[j]);
        } else if i < before.len() {
            assert(before.contains(before[i]));
        } else if j < before.len() {
            assert(before.contains(before[j]));
        }
    }
}

/// What the commit of the queue does next.
#[derive(PartialEq, Eq, Clone, Copy, Debug, Structural)]
pub enum CommitStep {
    /// Ask the helper to unmount the queued paths with these flags.
    Try { flags: u32 },
    /// Nothing more to do.
    Done,
}

/// What the commit does after the attempts made so far, each `true` where
/// it went through: a plain unmount first, then, once, a detaching one if
/// the first failed. Without the helper there is nothing to do.
pub open spec fn commit_step(enabled: bool, attempts: Seq<bool>) -> CommitStep {
    if !enabled {
        CommitStep::Done
    } else if attempts.len() == 0 {
        CommitStep::Try { flags: 0 }
    } else if attempts.len() == 1 && !attempts[0] {
        CommitStep::Try { flags: 2 }
    } else {
        CommitStep::Done
    }
}

/// The next step of committing the queue, given how the attempts so far
/// went.
pub fn commit(sink: &UmountSink, attempts: &Vec<bool>) -> (r: CommitStep)
    ensures
        r == commit_step(sink.enabled, attempts@),
{
    if !sink.enabled {
        CommitStep::Done
    } else if attempts.len() == 0 {
        CommitStep::Try { flags: 0 }
    } else if attempts.len() == 1 && !attempts[0] {
        CommitStep::Try { flags: 2 }
    } else {
        CommitStep::Done
    }
}

/// The path whose traces the helper is to purge: `target`, where the
/// helper is there.
pub fn ksu_nuke_sysfs(sink: &UmountSink, target: &str) -> (r: Option<String>)
    ensures
        r is Some <==> sink.enabled,
        r matches Some(t) ==> t@ == target@,
{
    if sink.enabled {
        Some(owned(target))
    } else {
        None
    }
}

/// Whether the second helper can take the path: with its end marker it
/// has to fit in 256 bytes.
pub fn susfs_path_fits(path: &String) -> (r: bool)
    ensures
        r == (byte_len(path@) < SUSFS_MAX_LEN_PATHNAME),
{
    byte_len_capped(path, SUSFS_MAX_LEN_PATHNAME) < SUSFS_MAX_LEN_PATHNAME
}

} // verus!
