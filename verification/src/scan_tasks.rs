//! The directories that are still to be looked through, shared by several workers.

use crate::arith;
use crate::scan;
use crate::scan::{DirectoryScanContext, RootScanContext};
use crate::search_roots::EligibleSearchRoot;
use crate::text;
use std::collections::VecDeque;
use vstd::prelude::*;

verus! {

/// A search folder with the keys of the directories in it that belong to others.
#[derive(Debug, PartialEq, Eq)]
pub struct ScanFolder {
    pub context: RootScanContext,
    pub exclusions: Vec<String>,
}

/// A directory that is to be looked through, with the number of its search folder.
#[derive(Debug, PartialEq, Eq)]
pub struct ScanTask {
    pub directory: DirectoryScanContext,
    pub folder: usize,
}

/// What a worker does next.
#[derive(Debug, PartialEq, Eq)]
pub enum ScanStep {
    /// Look through a directory.
    Scan(ScanTask),
    /// Wait until another worker is done with its directory.
    Wait,
    /// Stop.
    Stop,
}

/// The directories to look through and how many workers are busy.
#[derive(Debug, PartialEq, Eq)]
pub struct ScanTaskQueue {
    pub tasks: VecDeque<ScanTask>,
    pub active_workers: usize,
}

impl ScanTaskQueue {
    /// A queue with nothing in it.
    pub fn new() -> (r: ScanTaskQueue)
        ensures
            r.tasks@.len() == 0,
            r.active_workers == 0,
    {
        ScanTaskQueue { tasks: VecDeque::new(), active_workers: 0 }
    }

    /// What a worker does next. While the search is wanted, it stops only when nothing
    /// is left to do and nobody is busy who could still find more.
    pub fn take_scan_task(&mut self, is_active: bool) -> (r: ScanStep)
        ensures
            match r {
                ScanStep::Scan(task) => is_active && old(self).tasks@.len() > 0 && task == old(self).tasks@[0] && final(self).tasks@ == old(self).tasks@.skip(1)
                    && final(self).active_workers == arith::min_int(
                    old(self).active_workers + 1,
                    usize::MAX as int,
                ),
                ScanStep::Wait => is_active && old(self).tasks@.len() == 0 && old(self).active_workers > 0 && *final(self) == *old(self),
                ScanStep::Stop => (!is_active || old(self).tasks@.len() == 0 && old(self).active_workers == 0) && *final(self) == *old(self),
            },
            is_active && old(self).tasks@.len() > 0 ==> r is Scan,
            is_active && old(self).active_workers > 0 ==> !(r is Stop),
            !is_active ==> r is Stop,
    {
        if !is_active {
            return ScanStep::Stop;
        }
        if self.tasks.len() > 0 {
            match self.tasks.pop_front() {
                Some(task) => {
                    self.active_workers = self.active_workers.saturating_add(1);
                    proof {
                        assert(self.tasks@ =~= old(self).tasks@.skip(1));
                    }
                    return ScanStep::Scan(task);
                },
                None => {},
            }
        }
        if self.active_workers == 0 {
            ScanStep::Stop
        } else {
            ScanStep::Wait
        }
    }

    /// A worker is done with its directory.
    pub fn finish_scan_task(&mut self)
        ensures
            final(self).tasks == old(self).tasks,
            final(self).active_workers == arith::max_int(old(self).active_workers - 1, 0),
    {
        if self.active_workers > 0 {
            self.active_workers = self.active_workers - 1;
        }
    }

    /// A directory was found.
    pub fn enqueue_scan_task(&mut self, task: ScanTask)
        ensures
            final(self).tasks@ == old(self).tasks@.push(task),
            final(self).active_workers == old(self).active_workers,
    {
        self.tasks.push_back(task);
    }
}

/// The folder that an eligible search folder is looked through as.
pub open spec fn is_folder_of(folder: ScanFolder, eligible: EligibleSearchRoot, working_directory: Seq<char>) -> bool {
    &&& folder.context.root == eligible.effective_root
    &&& folder.context.well_formed(working_directory)
    &&& folder.exclusions == eligible.exclusions
}

/// A task that looks through a directory of a folder.
pub open spec fn looks_through_directory(
    task: ScanTask,
    path: Seq<char>,
    depth: usize,
    context: RootScanContext,
    folder: usize,
) -> bool {
    &&& task.folder == folder
    &&& task.directory.path@ == path
    &&& task.directory.depth == depth
    &&& task.directory.subtitle@ == scan::shown_directory(path, context.root)
    &&& task.directory.folded_parent@ == text::searchable(path)
}

/// The folder of an eligible search folder and the task to begin with.
pub fn first_task(eligible: EligibleSearchRoot, folder: usize, working_directory: &str) -> (r: (
    ScanFolder,
    ScanTask,
))
    ensures
        is_folder_of(r.0, eligible, working_directory@),
        looks_through_directory(
            r.1,
            eligible.path@,
            eligible.effective_depth,
            r.0.context,
            folder,
        ),
{
    let depth: usize = eligible.effective_depth;
    let context = RootScanContext::new(eligible.effective_root, working_directory);
    let directory = DirectoryScanContext::new(eligible.path.as_str(), depth, &context);
    (
        ScanFolder { context, exclusions: eligible.exclusions },
        ScanTask { directory, folder },
    )
}

/// The tasks that the directories in a directory make: one for each where the search
/// goes deeper, else none.
pub fn child_tasks(task: &ScanTask, context: &RootScanContext, children: &[String]) -> (r: Vec<ScanTask>)
    requires
        context.root_name@ == scan::folder_name(context.root),
    ensures
        r@.len() == (if scan::goes_deeper(context.root, task.directory.depth) {
            children@.len()
        } else {
            0
        }),
        forall|i: int|
            0 <= i < r@.len() ==> looks_through_directory(
                #[trigger] r@[i],
                children@[i]@,
                arith::min_int(task.directory.depth + 1, usize::MAX as int) as usize,
                *context,
                task.folder,
            ),
{
    let mut out: Vec<ScanTask> = Vec::new();
    if !scan::may_descend(&context.root, task.directory.depth) {
        return out;
    }
    let depth: usize = task.directory.depth.saturating_add(1);
    let mut i: usize = 0;
    while i < children.len()
        invariant
            context.root_name@ == scan::folder_name(context.root),
            i <= children.len(),
            out@.len() == i,
            depth == arith::min_int(task.directory.depth + 1, usize::MAX as int),
            forall|k: int|
                0 <= k < i ==> looks_through_directory(
                    #[trigger] out@[k],
                    children@[k]@,
                    depth,
                    *context,
                    task.folder,
                ),
        decreases children.len() - i,
    {
        let directory = DirectoryScanContext::new(children[i].as_str(), depth, context);
        out.push(ScanTask { directory, folder: task.folder });
        i += 1;
    }
    out
}

/// A directory that is queued from one that is looked through is within the greatest
/// depth of the search folder as well.
pub proof fn lemma_tasks_stay_in_depth(task: ScanTask, context: RootScanContext)
    requires
        scan::looks_through(context.root, task.directory.depth),
        scan::goes_deeper(context.root, task.directory.depth),
        task.directory.depth < usize::MAX,
    ensures
        scan::looks_through(context.root, (task.directory.depth + 1) as usize),
{
}

/// The name of the way in which folders are looked through.
pub fn live_scan_strategy(live_root_count: usize, worker_count: usize) -> (r: &'static str)
    ensures
        r@ == (if live_root_count == 0 {
            "none"@
        } else if worker_count <= 1 {
            "sequential"@
        } else {
            "parallel-task-queue"@
        }),
{
    if live_root_count == 0 {
        "none"
    } else if worker_count <= 1 {
        "sequential"
    } else {
        "parallel-task-queue"
    }
}

} // verus!
