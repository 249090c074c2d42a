//! The registry of tasks: the root frames of the forest, kept in a
//! concurrent hash set as the frames come and go.
use vstd::prelude::*;

use core::hash::BuildHasherDefault;
use dashmap::DashSet;
use rustc_hash::FxHasher;

use crate::frame::{
    closed_line, lemma_join_closed, lemma_task_lines_closed, task_lines, Forest, Frame,
};
use crate::location::Location;
use crate::text::{join_lines, join_with_newlines, string_views};

verus! {

#[verifier::external_type_specification]
#[verifier::external_body]
#[verifier::reject_recursive_types(K)]
#[verifier::reject_recursive_types(S)]
pub struct ExDashSet<K, S>(DashSet<K, S>);

#[verifier::external_type_specification]
#[verifier::external_body]
#[verifier::reject_recursive_types(H)]
pub struct ExBuildHasherDefault<H>(BuildHasherDefault<H>);

#[verifier::external_type_specification]
#[verifier::external_body]
pub struct ExFxHasher(FxHasher);

/// The set of task identifiers (the slots of root frames).
pub type TaskSet = DashSet<usize, BuildHasherDefault<FxHasher>>;

/// The identifiers that a task set holds.
pub uninterp spec fn task_set_members(set: DashSet<usize, BuildHasherDefault<FxHasher>>) -> Set<
    usize,
>;

/// `DashSet::default`: a new set holds nothing.
#[verifier::external_body]
pub(crate) fn new_task_set() -> (set: TaskSet)
    ensures
        task_set_members(set) == Set::<usize>::empty(),
{
    DashSet::default()
}

/// `DashSet::insert`: adds `id`; the result tells whether `id` was absent before.
#[verifier::external_body]
pub(crate) fn task_set_insert(set: &mut TaskSet, id: usize) -> (fresh: bool)
    ensures
        task_set_members(*final(set)) == task_set_members(*old(set)).insert(id),
        fresh == !task_set_members(*old(set)).contains(id),
{
    set.insert(id)
}

/// `DashSet::remove`: takes `id` out; the result is `Some(id)` exactly when it was there.
#[verifier::external_body]
pub(crate) fn task_set_remove(set: &mut TaskSet, id: usize) -> (removed: Option<usize>)
    ensures
        task_set_members(*final(set)) == task_set_members(*old(set)).remove(id),
        removed == (if task_set_members(*old(set)).contains(id) {
            Some(id)
        } else {
            None::<usize>
        }),
{
    set.remove(&id)
}

/// `DashSet::iter`: every member once, in the order in which the set's
/// shards are walked (which nothing here states).
#[verifier::external_body]
pub(crate) fn task_set_ids(set: &TaskSet) -> (ids: Vec<usize>)
    ensures
        ids@.to_set() == task_set_members(*set),
        ids@.no_duplicates(),
{
    set.iter().map(|entry| *entry).collect()
}

/// Registers the root frame in slot `id` as a task; tells whether it was new.
pub(crate) fn register(set: &mut TaskSet, id: usize) -> (unique: bool)
    ensures
        task_set_members(*final(set)) == task_set_members(*old(set)).insert(id),
        unique == !task_set_members(*old(set)).contains(id),
{
    task_set_insert(set, id)
}

/// Removes the root frame in slot `id` from the tasks.
pub(crate) fn deregister(set: &mut TaskSet, id: usize)
    ensures
        task_set_members(*final(set)) == task_set_members(*old(set)).remove(id),
        forall|x: usize|
            #[trigger] task_set_members(*final(set)).contains(x) <==> task_set_members(
                *old(set),
            ).contains(x) && x != id,
        !task_set_members(*old(set)).contains(id) ==> task_set_members(*final(set))
            == task_set_members(*old(set)),
{
    let _ = task_set_remove(set, id);
    assert(!task_set_members(*old(set)).contains(id) ==> task_set_members(*old(set)).remove(id) =~= task_set_members(*old(set)));
}

} // verus!

verus! {

/// The task whose frame tree is drawn from the current activation `active`:
/// the root of the active frame, if any.
pub open spec fn current_task(forest: &Forest, active: Option<usize>) -> Option<usize> {
    match active {
        Some(a) => Some(forest.ancestors_of(a).last()),
        None => None,
    }
}

/// Whether the subframes of the task `id` can be read from the current
/// activation: its lock is free, or it is the current task, whose lock is
/// held by the reader itself.
pub open spec fn subframes_readable(forest: &Forest, id: usize, active: Option<usize>) -> bool {
    !forest@.frames[id].locked || current_task(forest, active) == Some(id)
}

/// The subframes of a task can be read from an activation exactly when the
/// task's lock is free or the active frame lies in the task's own tree (its
/// chain of ancestors reaches the task): a task being polled elsewhere
/// cannot be read.
pub proof fn lemma_readable_exactly(forest: &Forest, id: usize, active: Option<usize>)
    requires
        forest.wf(),
        forest@.tasks.contains(id),
        active matches Some(a) ==> forest@.frames.contains_key(a),
    ensures
        subframes_readable(forest, id, active) <==> (!forest@.frames[id].locked || (active matches Some(
            a,
        ) && forest.ancestors_of(a).contains(id))),
{
    forest.lemma_view();
    if let Some(a) = active {
        forest.lemma_ancestors(a);
        let anc = forest.ancestors_of(a);
        if anc.contains(id) {
            let k = choose|k: int| 0 <= k < anc.len() && anc[k] == id;
            if k < anc.len() - 1 {
                assert(forest@.frames[anc[k]].parent == Some(anc[k + 1]));
                assert(false);
            }
        }
        assert(anc.contains(anc[anc.len() - 1]));
    }
}

/// The text of the task `id` as drawn from the current activation `active`.
pub open spec fn task_text(forest: &Forest, id: usize, active: Option<usize>) -> Seq<char> {
    join_lines(task_lines(forest.tree(id), subframes_readable(forest, id, active)))
}

/// The texts of the tasks `ids`, in that order.
pub open spec fn task_texts(forest: &Forest, ids: Seq<usize>, active: Option<usize>) -> Seq<Seq<char>> {
    Seq::new(ids.len(), |k: int| task_text(forest, ids[k], active))
}

/// The texts of tasks joined on their own lines: nothing when there is no
/// task, and otherwise no newline at the end.
pub proof fn lemma_dump_closed(forest: &Forest, ids: Seq<usize>, active: Option<usize>)
    ensures
        ids.len() == 0 ==> join_lines(task_texts(forest, ids, active)) == Seq::<char>::empty(),
        ids.len() > 0 ==> closed_line(join_lines(task_texts(forest, ids, active))),
{
    let texts = task_texts(forest, ids, active);
    assert forall|k: int| 0 <= k < texts.len() implies closed_line(#[trigger] texts[k]) by {
        let ls = task_lines(forest.tree(ids[k]), subframes_readable(forest, ids[k], active));
        lemma_task_lines_closed(forest.tree(ids[k]), subframes_readable(forest, ids[k], active));
        lemma_join_closed(ls);
    }
    lemma_join_closed(texts);
}

/// A top-level framed computation: the root frame of a tree.
pub struct Task(usize);

impl Task {
    /// The slot of the root frame of the task.
    pub closed spec fn id(self) -> usize {
        self.0
    }

    /// The slot of the root frame of the task.
    pub fn root_slot(&self) -> (s: usize)
        ensures
            s == self.id(),
    {
        self.0
    }

    /// The location of the task.
    pub fn location(&self, forest: &Forest) -> (l: Location)
        requires
            forest.wf(),
            forest@.tasks.contains(self.id()),
        ensures
            l@ == forest@.frames[self.id()].location,
    {
        proof {
            forest.lemma_view();
        }
        forest.location(self.0)
    }

    /// Pretty-prints the task as a tree, as seen from the activation
    /// `active` of the calling thread.
    ///
    /// When the task is being polled elsewhere, its subframes cannot be read:
    /// if `block_until_idle` is `false`, the output notes that the task is
    /// being polled and does not descend into its subframes; if it is
    /// `true`, the result is `None`, and the caller waits until the task is
    /// idle and asks again.
    pub fn pretty_tree(&self, forest: &Forest, block_until_idle: bool, active: Option<usize>) -> (s:
        Option<String>)
        requires
            forest.wf(),
            forest@.tasks.contains(self.id()),
            active matches Some(a) ==> forest@.frames.contains_key(a),
        ensures
            match s {
                Some(text) => !(block_until_idle && !subframes_readable(forest, self.id(), active))
                    && text@ == task_text(forest, self.id(), active),
                None => block_until_idle && !subframes_readable(forest, self.id(), active),
            },
    {
        proof {
            forest.lemma_view();
        }
        let current_task = match active {
            Some(a) => Some(Frame::root(forest, a)),
            None => None,
        };
        let readable = match Frame::mutex(forest, self.0) {
            Some(lock) => !lock.held || current_task == Some(self.0),
            None => true,
        };
        if !readable && block_until_idle {
            None
        } else {
            Some(Frame::fmt(forest, self.0, readable))
        }
    }

    /// Renders the task without waiting for it (see [`Task::pretty_tree`]).
    pub fn to_string(&self, forest: &Forest, active: Option<usize>) -> (s: String)
        requires
            forest.wf(),
            forest@.tasks.contains(self.id()),
            active matches Some(a) ==> forest@.frames.contains_key(a),
        ensures
            s@ == task_text(forest, self.id(), active),
    {
        match self.pretty_tree(forest, false, active) {
            Some(s) => s,
            None => unreached(),
        }
    }
}

/// The tasks of the forest, each once, in the order in which the task set
/// yields them.
pub fn tasks(forest: &Forest) -> (ts: Vec<Task>)
    requires
        forest.wf(),
    ensures
        ts@.len() == forest@.tasks.len(),
        Seq::new(ts@.len(), |k: int| ts@[k].id()).to_set() == forest@.tasks,
        Seq::new(ts@.len(), |k: int| ts@[k].id()).no_duplicates(),
{
    let ids = forest.task_ids();
    let mut ts: Vec<Task> = Vec::new();
    let mut k: usize = 0;
    while k < ids.len()
        invariant
            k <= ids@.len(),
            ts@.len() == k,
            forall|j: int| 0 <= j < k ==> #[trigger] ts@[j].id() == ids@[j],
        decreases ids.len() - k,
    {
        ts.push(Task(ids[k]));
        k = k + 1;
    }
    proof {
        assert(Seq::new(ts@.len(), |k: int| ts@[k].id()) =~= ids@);
        ids@.unique_seq_to_set();
    }
    ts
}

/// Renders the tasks `ids`, in that order, each as seen from the activation
/// `active`, one after the other on their own lines, without waiting for
/// any: a task being polled elsewhere is drawn with a note that it is being
/// polled.
pub fn dump_tasks(forest: &Forest, ids: &Vec<usize>, active: Option<usize>) -> (s: String)
    requires
        forest.wf(),
        forall|k: int| 0 <= k < ids@.len() ==> forest@.tasks.contains(#[trigger] ids@[k]),
        active matches Some(a) ==> forest@.frames.contains_key(a),
    ensures
        s@ == join_lines(task_texts(forest, ids@, active)),
{
    let mut texts: Vec<String> = Vec::new();
    let mut k: usize = 0;
    while k < ids.len()
        invariant
            forest.wf(),
            forall|j: int| 0 <= j < ids@.len() ==> forest@.tasks.contains(#[trigger] ids@[j]),
            active matches Some(a) ==> forest@.frames.contains_key(a),
            k <= ids@.len(),
            string_views(texts@) == task_texts(forest, ids@.subrange(0, k as int), active),
        decreases ids.len() - k,
    {
        let task = Task(ids[k]);
        let text = task.to_string(forest, active);
        let ghost before = string_views(texts@);
        texts.push(text);
        proof {
            assert(string_views(texts@) =~= before.push(task_text(forest, ids@[k as int], active)));
            assert(task_texts(forest, ids@.subrange(0, k + 1), active) =~= task_texts(
                forest,
                ids@.subrange(0, k as int),
                active,
            ).push(task_text(forest, ids@[k as int], active)));
        }
        k = k + 1;
    }
    proof {
        assert(ids@.subrange(0, ids@.len() as int) =~= ids@);
    }
    join_with_newlines(&texts)
}

/// The texts of those of `ids` that are tasks of the forest, in that order:
/// a task that has gone away in the meantime is left out.
pub open spec fn drawn_texts(forest: &Forest, ids: Seq<usize>, active: Option<usize>) -> Seq<
    Seq<char>,
>
    decreases ids.len(),
{
    if ids.len() == 0 {
        Seq::empty()
    } else {
        drawn_texts(forest, ids.drop_last(), active) + (if forest@.tasks.contains(ids.last()) {
            seq![task_text(forest, ids.last(), active)]
        } else {
            Seq::empty()
        })
    }
}

/// When every one of `ids` is a task, each is drawn.
pub proof fn lemma_drawn_all(forest: &Forest, ids: Seq<usize>, active: Option<usize>)
    requires
        forall|k: int| 0 <= k < ids.len() ==> forest@.tasks.contains(#[trigger] ids[k]),
    ensures
        drawn_texts(forest, ids, active) == task_texts(forest, ids, active),
    decreases ids.len(),
{
    if ids.len() > 0 {
        let front = ids.drop_last();
        assert forall|k: int| 0 <= k < front.len() implies forest@.tasks.contains(#[trigger] front[k]) by {
            assert(front[k] == ids[k]);
        }
        lemma_drawn_all(forest, front, active);
        assert(forest@.tasks.contains(ids[ids.len() - 1]));
        assert(task_texts(forest, ids, active) =~= task_texts(forest, front, active).push(
            task_text(forest, ids.last(), active),
        ));
    }
}

proof fn lemma_drawn_split(forest: &Forest, ids: Seq<usize>, a: int, b: int, active: Option<usize>)
    requires
        0 <= a <= b < ids.len(),
    ensures
        drawn_texts(forest, ids.subrange(a, b + 1), active) == drawn_texts(forest, ids.subrange(a, b), active)
            + (if forest@.tasks.contains(ids[b]) {
            seq![task_text(forest, ids[b], active)]
        } else {
            Seq::empty()
        }),
{
    assert(ids.subrange(a, b + 1).drop_last() =~= ids.subrange(a, b));
}

/// A task dump that waits for busy tasks one at a time: the tasks to draw,
/// in order, how many of them have been handled, and the texts drawn so far.
#[derive(Debug)]
pub struct TaskDump {
    ids: Vec<usize>,
    next: usize,
    texts: Vec<String>,
}

impl TaskDump {
    /// The tasks to draw, in order.
    pub closed spec fn order(self) -> Seq<usize> {
        self.ids@
    }

    /// How many of them have been handled.
    pub closed spec fn handled(self) -> nat {
        self.next as nat
    }

    /// The texts drawn so far.
    pub closed spec fn drawn(self) -> Seq<Seq<char>> {
        string_views(self.texts@)
    }

    /// Starts a dump of the tasks of the forest, in the order in which the
    /// task set yields them.
    pub fn new(forest: &Forest) -> (d: Self)
        requires
            forest.wf(),
        ensures
            d.order().no_duplicates(),
            d.order().to_set() == forest@.tasks,
            d.handled() == 0,
            d.drawn() == Seq::<Seq<char>>::empty(),
    {
        let d = TaskDump { ids: forest.task_ids(), next: 0, texts: Vec::new() };
        assert(d.drawn() =~= Seq::<Seq<char>>::empty());
        d
    }

    /// Draws the tasks from where the dump stopped, each as seen from the
    /// activation `active`, leaving out those that have gone away.
    ///
    /// With `block_until_idle`, it stops at the first task whose subframes
    /// cannot be read (it is being polled elsewhere) and returns its slot:
    /// the caller waits until that task is idle and calls again. Without it,
    /// such a task is drawn with a note that it is being polled. `None`
    /// means every task has been handled.
    pub fn advance(&mut self, forest: &Forest, block_until_idle: bool, active: Option<usize>) -> (busy:
        Option<usize>)
        requires
            forest.wf(),
            active matches Some(a) ==> forest@.frames.contains_key(a),
            old(self).handled() <= old(self).order().len(),
        ensures
            final(self).order() == old(self).order(),
            old(self).handled() <= final(self).handled() <= final(self).order().len(),
            final(self).drawn() == old(self).drawn() + drawn_texts(
                forest,
                old(self).order().subrange(old(self).handled() as int, final(self).handled() as int),
                active,
            ),
            block_until_idle ==> forall|k: int|
                old(self).handled() <= k < final(self).handled() && forest@.tasks.contains(
                    #[trigger] final(self).order()[k],
                ) ==> subframes_readable(forest, final(self).order()[k], active),
            match busy {
                None => final(self).handled() == final(self).order().len(),
                Some(b) => {
                    &&& block_until_idle
                    &&& final(self).handled() < final(self).order().len()
                    &&& final(self).order()[final(self).handled() as int] == b
                    &&& forest@.tasks.contains(b)
                    &&& !subframes_readable(forest, b, active)
                },
            },
    {
        let ghost start = self.next as int;
        let ghost drawn0 = string_views(self.texts@);
        assert(self.ids@.subrange(start, start) =~= Seq::<usize>::empty());
        assert(drawn0 + drawn_texts(forest, self.ids@.subrange(start, start), active) =~= drawn0);
        while self.next < self.ids.len()
            invariant
                forest.wf(),
                active matches Some(a) ==> forest@.frames.contains_key(a),
                self.ids@ == old(self).ids@,
                start == old(self).next,
                drawn0 == string_views(old(self).texts@),
                0 <= start <= self.next <= self.ids@.len(),
                string_views(self.texts@) == drawn0 + drawn_texts(
                    forest,
                    self.ids@.subrange(start, self.next as int),
                    active,
                ),
                block_until_idle ==> forall|k: int|
                    start <= k < self.next && forest@.tasks.contains(#[trigger] self.ids@[k])
                        ==> subframes_readable(forest, self.ids@[k], active),
            decreases self.ids.len() - self.next,
        {
            let id = self.ids[self.next];
            let ghost before = string_views(self.texts@);
            proof {
                lemma_drawn_split(forest, self.ids@, start, self.next as int, active);
            }
            if forest.is_task(id) {
                let task = Task(id);
                match task.pretty_tree(forest, block_until_idle, active) {
                    Some(text) => {
                        self.texts.push(text);
                        proof {
                            assert(string_views(self.texts@) =~= before.push(
                                task_text(forest, id, active),
                            ));
                        }
                    },
                    None => {
                        return Some(id);
                    },
                }
            } else {
                assert(before + Seq::<Seq<char>>::empty() =~= before);
            }
            self.next = self.next + 1;
        }
        None
    }

    /// The texts drawn so far, one after the other on their own lines.
    pub fn finish(&self) -> (s: String)
        ensures
            s@ == join_lines(self.drawn()),
    {
        join_with_newlines(&self.texts)
    }
}

/// A handle to the set of tasks.
pub struct Tasks(());

impl Tasks {
    /// Grab a handle to the set of tasks.
    pub fn new() -> Self {
        Self(())
    }

    /// Renders every task, without waiting for any, one after the other in
    /// the order in which the task set yields them.
    pub fn to_string(&self, forest: &Forest, active: Option<usize>) -> (s: String)
        requires
            forest.wf(),
            active matches Some(a) ==> forest@.frames.contains_key(a),
        ensures
            exists|ids: Seq<usize>|
                ids.no_duplicates() && ids.to_set() == forest@.tasks && s@ == join_lines(
                    task_texts(forest, ids, active),
                ),
    {
        let ids = forest.task_ids();
        proof {
            assert forall|k: int| 0 <= k < ids@.len() implies forest@.tasks.contains(#[trigger] ids@[k]) by {
                assert(ids@.to_set().contains(ids@[k]));
            }
        }
        dump_tasks(forest, &ids, active)
    }
}

} // verus!
