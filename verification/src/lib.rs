//! Logical "stack" traces of nested, framed computations.
//!
//! Each framed computation has a [`Frame`](frame::Frame) at its
//! [`Location`](location::Location). When a frame is first activated it is
//! attached to a [`Forest`](frame::Forest): below the frame active at that
//! moment, or as the root of a new task. Task dumps draw each task as a tree
//! of locations, consecutive identical subtrees drawn once with their count.
use vstd::prelude::*;

pub mod frame;
pub mod location;
pub mod tasks;
pub mod text;
pub mod traced;

use frame::{backtrace_locations, frame_locations, Forest};
use location::{location_views, Location};
use tasks::{
    dump_tasks, lemma_drawn_all, lemma_dump_closed, subframes_readable, task_texts, TaskDump,
};
use text::join_lines;

verus! {

/// Produces a human-readable tree of task states, as seen from the
/// activation `active` of the calling thread, the tasks in the order in
/// which the task set yields them, each on its own lines.
///
/// If `wait_for_running_tasks` is `true`, this routine will display only the
/// top-level location of currently-running tasks and a note that they are
/// "POLLING". Otherwise it waits for currently-running tasks to become idle,
/// one at a time: it draws the tasks in turn and stops at the first that is
/// running, handing back the dump so far (`Err`). The caller waits until
/// that task is idle and resumes the dump with [`TaskDump::advance`].
pub fn taskdump_tree(forest: &Forest, wait_for_running_tasks: bool, active: Option<usize>) -> (r:
    Result<String, TaskDump>)
    requires
        forest.wf(),
        active matches Some(a) ==> forest@.frames.contains_key(a),
    ensures
        match r {
            Ok(text) => exists|ids: Seq<usize>|
                {
                    &&& ids.no_duplicates()
                    &&& ids.to_set() == forest@.tasks
                    &&& text@ == join_lines(task_texts(forest, ids, active))
                    &&& !wait_for_running_tasks ==> forall|k: int|
                        0 <= k < ids.len() ==> subframes_readable(forest, #[trigger] ids[k], active)
                },
            Err(d) => {
                &&& !wait_for_running_tasks
                &&& d.order().no_duplicates()
                &&& d.order().to_set() == forest@.tasks
                &&& d.handled() < d.order().len()
                &&& d.drawn() == task_texts(forest, d.order().subrange(0, d.handled() as int), active)
                &&& forall|k: int|
                    0 <= k < d.handled() ==> subframes_readable(forest, #[trigger] d.order()[k], active)
                &&& !subframes_readable(forest, d.order()[d.handled() as int], active)
            },
        },
        r matches Ok(text) ==> (forest@.tasks == Set::<usize>::empty() ==> text@.len() == 0) && (
        text@.len() == 0 || text@.last() != '\n'),
{
    if wait_for_running_tasks {
        let ids = forest.task_ids();
        proof {
            assert forall|k: int| 0 <= k < ids@.len() implies forest@.tasks.contains(#[trigger] ids@[k]) by {
                assert(ids@.to_set().contains(ids@[k]));
            }
            lemma_dump_closed(forest, ids@, active);
            if ids@.len() > 0 {
                assert(ids@.to_set().contains(ids@[0]));
            }
        }
        Ok(dump_tasks(forest, &ids, active))
    } else {
        let mut d = TaskDump::new(forest);
        let busy = d.advance(forest, true, active);
        proof {
            let ids = d.order();
            assert forall|k: int| 0 <= k < ids.len() implies forest@.tasks.contains(#[trigger] ids[k]) by {
                assert(ids.to_set().contains(ids[k]));
            }
            let part = ids.subrange(0, d.handled() as int);
            assert forall|k: int| 0 <= k < part.len() implies forest@.tasks.contains(#[trigger] part[k]) by {
                assert(part[k] == ids[k]);
            }
            lemma_drawn_all(forest, part, active);
            assert(d.drawn() =~= task_texts(forest, part, active));
            assert forall|k: int| 0 <= k < d.handled() implies subframes_readable(forest, #[trigger] ids[k], active) by {
                assert(forest@.tasks.contains(ids[k]));
            }
        }
        match busy {
            None => {
                proof {
                    let ids = d.order();
                    assert(ids.subrange(0, ids.len() as int) =~= ids);
                    lemma_dump_closed(forest, ids, active);
                    if ids.len() > 0 {
                        assert(ids.to_set().contains(ids[0]));
                    }
                }
                Ok(d.finish())
            },
            Some(_) => Err(d),
        }
    }
}

/// Produces a backtrace starting at the active frame (if any): its location,
/// then those of its ancestors, up to the root of its task.
pub fn backtrace(forest: &Forest, active: Option<usize>) -> (b: Option<Vec<Location>>)
    requires
        forest.wf(),
        active matches Some(a) ==> forest@.frames.contains_key(a),
    ensures
        match active {
            None => b is None,
            Some(a) => b matches Some(v) && location_views(v@) == frame_locations(
                forest@,
                forest.ancestors_of(a),
            ),
        },
{
    match active {
        Some(a) => Some(backtrace_locations(forest, a)),
        None => None,
    }
}

} // verus!
