//! Frames and the forest they form.
//!
//! Every framed computation has a [`Frame`]. The first time a frame is
//! activated it is attached to the forest: below the frame that is active at
//! that moment, or as the root of a new task when none is. The forest keeps,
//! for every attached frame, its location, its parent (or, for a root, the
//! lock held while its task is being polled) and its children, the most
//! recently attached first.
use vstd::prelude::*;

use crate::location::{location_text, location_views, Location, LocationView};
use crate::text::{decimal, join_lines, join_with_newlines, push_decimal, string_views};
use crate::tasks::{deregister, new_task_set, register, task_set_ids, task_set_members, TaskSet};

verus! {

/// The lock on a task's frame tree, held while the task is being polled.
#[derive(Clone, Copy)]
pub struct TaskLock {
    pub held: bool,
}

/// The kind of a frame of the forest: the root of its tree, or a node below
/// its parent.
pub enum Kind {
    /// The frame is the root node in its tree.
    Root {
        /// Held while the task of this root is being polled.
        mutex: TaskLock,
    },
    /// The frame is *not* the root node of its tree.
    Node {
        /// The slot of the parent of this frame.
        parent: usize,
    },
}

impl Kind {
    /// Produces a new [`Kind::Root`], unlocked.
    pub fn root() -> (k: Self)
        ensures
            k == (Kind::Root { mutex: TaskLock { held: false } }),
    {
        Kind::Root { mutex: TaskLock { held: false } }
    }

    /// Produces a new [`Kind::Node`] below `parent`.
    pub fn node(parent: usize) -> (k: Self)
        ensures
            k == (Kind::Node { parent }),
    {
        Kind::Node { parent }
    }
}

/// A frame attached to the forest.
pub struct Node {
    location: Location,
    kind: Kind,
    children: Vec<usize>,
}

/// What an attached frame holds, as mathematical values.
#[verifier::ext_equal]
pub struct FrameView {
    pub location: LocationView,
    /// `None` for the root of a task.
    pub parent: Option<usize>,
    /// Whether the task lock of a root is held (always `false` below a root).
    pub locked: bool,
    /// The slots of the children, the most recently attached first.
    pub children: Seq<usize>,
}

/// The forest as mathematical values: the attached frames by slot, and the
/// registered tasks.
#[verifier::ext_equal]
pub struct ForestView {
    pub frames: Map<usize, FrameView>,
    pub tasks: Set<usize>,
}

impl ForestView {
    /// The forest after a frame at the vacant slot `id` is attached below
    /// `parent`, or as a new task when `parent` is `None`.
    pub open spec fn attached(self, id: usize, location: LocationView, parent: Option<usize>) -> ForestView {
        let fresh = FrameView { location, parent, locked: false, children: Seq::empty() };
        match parent {
            None => ForestView { frames: self.frames.insert(id, fresh), tasks: self.tasks.insert(id) },
            Some(p) => ForestView {
                frames: self.frames.insert(id, fresh).insert(
                    p,
                    FrameView {
                        location: self.frames[p].location,
                        parent: self.frames[p].parent,
                        locked: self.frames[p].locked,
                        children: seq![id] + self.frames[p].children,
                    },
                ),
                tasks: self.tasks,
            },
        }
    }

    /// The forest with the task lock of `id` set to `held`.
    pub open spec fn with_lock(self, id: usize, held: bool) -> ForestView {
        ForestView {
            frames: self.frames.insert(
                id,
                FrameView {
                    location: self.frames[id].location,
                    parent: self.frames[id].parent,
                    locked: held,
                    children: self.frames[id].children,
                },
            ),
            tasks: self.tasks,
        }
    }

    /// The forest after the childless frame `id` is detached: taken from its
    /// parent's children, or, for a root, from the tasks.
    pub open spec fn detached(self, id: usize) -> ForestView {
        match self.frames[id].parent {
            None => ForestView { frames: self.frames.remove(id), tasks: self.tasks.remove(id) },
            Some(p) => {
                let cs = self.frames[p].children;
                let k = choose|k: int| 0 <= k < cs.len() && cs[k] == id;
                ForestView {
                    frames: self.frames.remove(id).insert(
                        p,
                        FrameView {
                            location: self.frames[p].location,
                            parent: self.frames[p].parent,
                            locked: self.frames[p].locked,
                            children: cs.remove(k),
                        },
                    ),
                    tasks: self.tasks,
                }
            },
        }
    }
}

/// All attached frames, by slot, and the set of tasks (the slots of roots).
pub struct Forest {
    slots: Vec<Option<Node>>,
    vacant: Vec<usize>,
    tasks: TaskSet,
    depth: Ghost<Seq<nat>>,
    height: Ghost<nat>,
}

impl Forest {
    /// Whether slot `i` holds an attached frame.
    pub closed spec fn live(self, i: int) -> bool {
        0 <= i < self.slots@.len() && self.slots@[i] is Some
    }

    spec fn node(self, i: int) -> Node {
        self.slots@[i]->0
    }

    spec fn frame_view(self, i: int) -> FrameView {
        let n = self.node(i);
        FrameView {
            location: n.location@,
            parent: match n.kind {
                Kind::Root { .. } => None,
                Kind::Node { parent } => Some(parent),
            },
            locked: match n.kind {
                Kind::Root { mutex } => mutex.held,
                Kind::Node { .. } => false,
            },
            children: n.children@,
        }
    }

    /// The distance of an attached frame from the root of its tree.
    pub closed spec fn depth_of(self, i: int) -> nat {
        self.depth@[i]
    }

    spec fn frame_ok(self, i: int) -> bool {
        let n = self.node(i);
        &&& match n.kind {
            Kind::Root { .. } => self.depth@[i] == 0 && task_set_members(self.tasks).contains(
                i as usize,
            ),
            Kind::Node { parent } => {
                &&& self.live(parent as int)
                &&& self.node(parent as int).children@.contains(i as usize)
                &&& self.depth@[i] == self.depth@[parent as int] + 1
            },
        }
        &&& self.depth@[i] < self.height@
        &&& n.children@.no_duplicates()
        &&& forall|k: int|
            0 <= k < n.children@.len() ==> {
                &&& self.live(#[trigger] n.children@[k] as int)
                &&& self.node(n.children@[k] as int).kind == (Kind::Node { parent: i as usize })
            }
    }

    spec fn vacant_ok(self) -> bool {
        &&& self.vacant@.no_duplicates()
        &&& forall|k: int|
            0 <= k < self.vacant@.len() ==> #[trigger] self.vacant@[k] < self.slots@.len()
                && self.slots@[self.vacant@[k] as int] is None
        &&& forall|i: int|
            0 <= i < self.slots@.len() && #[trigger] self.slots@[i] is None
                ==> self.vacant@.contains(i as usize)
    }

    spec fn vacant_ok_except(self, id: usize) -> bool {
        &&& id < self.slots@.len()
        &&& self.slots@[id as int] is None
        &&& !self.vacant@.contains(id)
        &&& self.vacant@.no_duplicates()
        &&& forall|k: int|
            0 <= k < self.vacant@.len() ==> #[trigger] self.vacant@[k] < self.slots@.len()
                && self.slots@[self.vacant@[k] as int] is None
        &&& forall|i: int|
            0 <= i < self.slots@.len() && #[trigger] self.slots@[i] is None && i != id
                ==> self.vacant@.contains(i as usize)
    }

    spec fn frames_ok(self) -> bool {
        &&& self.depth@.len() == self.slots@.len()
        &&& forall|i: int| #[trigger] self.live(i) ==> self.frame_ok(i)
        &&& forall|x: usize|
            #[trigger] task_set_members(self.tasks).contains(x) ==> self.live(x as int)
                && self.node(x as int).kind is Root
    }

    /// The forest is well formed: parents and children agree, the tasks are
    /// exactly the roots, and every frame lies at a finite depth.
    pub closed spec fn wf(self) -> bool {
        &&& self.frames_ok()
        &&& self.vacant_ok()
    }
}

impl View for Forest {
    type V = ForestView;

    closed spec fn view(&self) -> ForestView {
        ForestView {
            frames: Map::new(|i: usize| self.live(i as int), |i: usize| self.frame_view(i as int)),
            tasks: task_set_members(self.tasks),
        }
    }
}

/// The index at which `x` stands in `v`.
fn position(v: &Vec<usize>, x: usize) -> (k: usize)
    requires
        v@.contains(x),
    ensures
        k < v@.len(),
        v@[k as int] == x,
        forall|j: int| 0 <= j < k ==> v@[j] != x,
{
    let mut k: usize = 0;
    while k < v.len()
        invariant
            k <= v@.len(),
            v@.contains(x),
            forall|j: int| 0 <= j < k ==> v@[j] != x,
        decreases v.len() - k,
    {
        if v[k] == x {
            return k;
        }
        k = k + 1;
    }
    proof {
        let j = choose|j: int| 0 <= j < v@.len() && v@[j] == x;
        assert(false);
    }
    0
}

/// The task of a root frame is being polled, and its lock is held.
#[derive(Debug)]
pub struct TaskBusy;

impl Forest {
    /// An empty forest, with no tasks.
    pub fn new() -> (f: Self)
        ensures
            f.wf(),
            f@.frames == Map::<usize, FrameView>::empty(),
            f@.tasks == Set::<usize>::empty(),
    {
        let f = Forest {
            slots: Vec::new(),
            vacant: Vec::new(),
            tasks: new_task_set(),
            depth: Ghost(Seq::empty()),
            height: Ghost(0),
        };
        assert(f@.frames =~= Map::<usize, FrameView>::empty());
        f
    }

    /// Facts that the well-formedness of the forest gives about its view.
    pub proof fn lemma_view(self)
        requires
            self.wf(),
        ensures
            forall|x: usize| #[trigger] self@.tasks.contains(x) <==> self@.frames.contains_key(x)
                && self@.frames[x].parent is None,
            forall|x: usize| #[trigger]
                self@.frames.contains_key(x) && self@.frames[x].parent is Some ==> {
                    let p = self@.frames[x].parent->0;
                    &&& self@.frames.contains_key(p)
                    &&& self@.frames[p].children.contains(x)
                },
            forall|x: usize| #[trigger]
                self@.frames.contains_key(x) ==> {
                    &&& self@.frames[x].children.no_duplicates()
                    &&& forall|k: int|
                        0 <= k < self@.frames[x].children.len() ==> {
                            &&& self@.frames.contains_key(#[trigger] self@.frames[x].children[k])
                            &&& self@.frames[self@.frames[x].children[k]].parent == Some(x)
                        }
                },
            forall|x: usize| #[trigger]
                self@.frames.contains_key(x) && self@.frames[x].parent is Some
                    ==> !self@.frames[x].locked,
    {
        assert forall|x: usize| #[trigger] self@.tasks.contains(x) <==> self@.frames.contains_key(x)
            && self@.frames[x].parent is None by {
            if self@.frames.contains_key(x) && self@.frames[x].parent is None {
                assert(self.frame_ok(x as int));
            }
        }
        assert forall|x: usize| #[trigger] self@.frames.contains_key(x) implies {
            &&& self@.frames[x].children.no_duplicates()
            &&& forall|k: int|
                0 <= k < self@.frames[x].children.len() ==> {
                    &&& self@.frames.contains_key(#[trigger] self@.frames[x].children[k])
                    &&& self@.frames[self@.frames[x].children[k]].parent == Some(x)
                }
        } by {
            assert(self.frame_ok(x as int));
            assert forall|k: int| 0 <= k < self@.frames[x].children.len() implies {
                &&& self@.frames.contains_key(#[trigger] self@.frames[x].children[k])
                &&& self@.frames[self@.frames[x].children[k]].parent == Some(x)
            } by {
                assert(self.live(self.node(x as int).children@[k] as int));
            }
        }
        assert forall|x: usize| #[trigger]
            self@.frames.contains_key(x) && self@.frames[x].parent is Some implies {
                let p = self@.frames[x].parent->0;
                &&& self@.frames.contains_key(p)
                &&& self@.frames[p].children.contains(x)
            } by {
            assert(self.frame_ok(x as int));
        }
    }

    /// Takes a vacant slot out of the list of vacant slots, making one if
    /// there is none.
    fn take_vacant(&mut self) -> (id: usize)
        requires
            old(self).wf(),
        ensures
            final(self).frames_ok(),
            final(self).vacant_ok_except(id),
            final(self)@ == old(self)@,
            final(self).height == old(self).height,
            final(self).tasks == old(self).tasks,
            forall|i: int| #[trigger] old(self).live(i) ==> final(self).slots@[i] == old(self).slots@[i] && final(self).depth@[i] == old(self).depth@[i],
            forall|i: int| #[trigger] final(self).live(i) ==> old(self).live(i),
    {
        let ghost old_self = *self;
        match self.vacant.pop() {
            Some(id) => {
                proof {
                    assert(old_self.vacant@[old_self.vacant@.len() - 1] == id);
                    assert(self.vacant@ =~= old_self.vacant@.drop_last());
                    assert forall|i: int|
                        0 <= i < self.slots@.len() && #[trigger] self.slots@[i] is None && i != id
                        implies self.vacant@.contains(i as usize) by {
                        assert(self.slots@.len() == self.slots.len());
                        let iu = i as usize;
                        assert(iu as int == i);
                        assert(old_self.slots@[i] is None);
                        assert(old_self.vacant@.contains(iu));
                        let k = choose|k: int| 0 <= k < old_self.vacant@.len() && old_self.vacant@[k] == iu;
                        assert(old_self.vacant@[k] == iu);
                        assert(k != old_self.vacant@.len() - 1);
                        assert(self.vacant@[k] == iu);
                    }
                    assert forall|k: int| 0 <= k < self.vacant@.len() implies #[trigger] self.vacant@[k] != id by {
                        assert(old_self.vacant@[k] == self.vacant@[k]);
                    }
                    assert(self.vacant@.no_duplicates()) by {
                        assert forall|a: int, b: int| 0 <= a < self.vacant@.len() && 0 <= b < self.vacant@.len() && a != b
                            implies self.vacant@[a] != self.vacant@[b] by {
                            assert(old_self.vacant@[a] == self.vacant@[a]);
                            assert(old_self.vacant@[b] == self.vacant@[b]);
                        }
                    }
                    assert forall|k: int| 0 <= k < self.vacant@.len() implies #[trigger] self.vacant@[k] < self.slots@.len()
                        && self.slots@[self.vacant@[k] as int] is None by {
                        assert(old_self.vacant@[k] == self.vacant@[k]);
                    }
                    assert(self.live(id as int) == false);
                    assert forall|i: int| #[trigger] self.live(i) implies self.frame_ok(i) by {
                        assert(old_self.live(i));
                        assert(old_self.frame_ok(i));
                    }
                    assert(self@.frames =~= old_self@.frames);
                }
                id
            },
            None => {
                let id = self.slots.len();
                self.slots.push(None);
                self.depth = Ghost(self.depth@.push(0));
                proof {
                    assert forall|i: int| #[trigger] self.live(i) implies old_self.live(i) && self.frame_ok(i) by {
                        assert(self.slots@[i] == old_self.slots@[i]);
                        assert(old_self.live(i));
                        assert(old_self.frame_ok(i));
                        let n = self.node(i);
                        match n.kind {
                            Kind::Root { .. } => {},
                            Kind::Node { parent } => {
                                assert(old_self.live(parent as int));
                            },
                        }
                        assert forall|k: int| 0 <= k < n.children@.len() implies {
                            &&& self.live(#[trigger] n.children@[k] as int)
                            &&& self.node(n.children@[k] as int).kind == (Kind::Node { parent: i as usize })
                        } by {
                            assert(old_self.live(n.children@[k] as int));
                        }
                    }
                    assert forall|x: usize| #[trigger] task_set_members(self.tasks).contains(x) implies self.live(x as int)
                        && self.node(x as int).kind is Root by {
                        assert(old_self.live(x as int));
                    }
                    assert forall|i: int|
                        0 <= i < self.slots@.len() && #[trigger] self.slots@[i] is None && i != id
                        implies self.vacant@.contains(i as usize) by {
                        assert(old_self.slots@[i] is None);
                    }
                    assert forall|k: int| 0 <= k < self.vacant@.len() implies #[trigger] self.vacant@[k] < self.slots@.len()
                        && self.slots@[self.vacant@[k] as int] is None by {
                        assert(old_self.slots@[old_self.vacant@[k] as int] is None);
                    }
                    assert(!self.vacant@.contains(id)) by {
                        if self.vacant@.contains(id) {
                            let k = choose|k: int| 0 <= k < self.vacant@.len() && self.vacant@[k] == id;
                            assert(old_self.vacant@[k] < old_self.slots@.len());
                        }
                    }
                    assert(self@.frames =~= old_self@.frames);
                }
                id
            },
        }
    }

    /// Attaches a frame at `location` in the vacant slot `id`: below `parent`,
    /// as its most recent child, or as the root of a new task.
    #[verifier::spinoff_prover]
    fn attach(&mut self, id: usize, location: Location, parent: Option<usize>)
        requires
            old(self).frames_ok(),
            old(self).vacant_ok_except(id),
            parent matches Some(p) ==> old(self).live(p as int),
        ensures
            final(self).wf(),
            final(self)@ == old(self)@.attached(id, location@, parent),
    {
        let ghost old_self = *self;
        assert(!old_self.live(id as int));
        match parent {
            None => {
                self.slots[id] = Some(Node { location, kind: Kind::root(), children: Vec::new() });
                self.depth = Ghost(self.depth@.update(id as int, 0));
                self.height = Ghost(if self.height@ == 0 { 1 } else { self.height@ });
                let _ = register(&mut self.tasks, id);
                proof {
                    assert(self.live(id as int));
                    assert forall|i: int| #[trigger] self.live(i) implies self.frame_ok(i) by {
                        if i != id {
                            assert(old_self.live(i));
                            assert(old_self.frame_ok(i));
                            let n = self.node(i);
                            assert(n == old_self.node(i));
                            match n.kind {
                                Kind::Root { .. } => {},
                                Kind::Node { parent } => {
                                    assert(old_self.live(parent as int));
                                    assert(parent != id);
                                },
                            }
                            assert forall|k: int| 0 <= k < n.children@.len() implies {
                                &&& self.live(#[trigger] n.children@[k] as int)
                                &&& self.node(n.children@[k] as int).kind == (Kind::Node { parent: i as usize })
                            } by {
                                assert(old_self.live(n.children@[k] as int));
                            }
                        }
                    }
                    assert forall|x: usize| #[trigger] task_set_members(self.tasks).contains(x) implies self.live(x as int)
                        && self.node(x as int).kind is Root by {
                        if x != id {
                            assert(old_self.live(x as int));
                        }
                    }
                    self.lemma_vacant_filled(old_self, id);
                    assert(self@.frames =~= old_self@.attached(id, location@, parent).frames);
                }
            },
            Some(p) => {
                let mut parent_node = self.slots[p].take().unwrap();
                parent_node.children.insert(0, id);
                self.slots[p] = Some(parent_node);
                self.slots[id] = Some(Node { location, kind: Kind::node(p), children: Vec::new() });
                let ghost d = self.depth@[p as int] + 1;
                self.depth = Ghost(self.depth@.update(id as int, d));
                self.height = Ghost(if self.height@ <= d { d + 1 } else { self.height@ });
                proof {
                    assert(p != id);
                    assert(self.node(p as int).children@ =~= seq![id] + old_self.node(p as int).children@);
                    assert(!old_self.node(p as int).children@.contains(id)) by {
                        assert(old_self.frame_ok(p as int));
                        if old_self.node(p as int).children@.contains(id) {
                            let k = choose|k: int| 0 <= k < old_self.node(p as int).children@.len() && old_self.node(p as int).children@[k] == id;
                            assert(old_self.live(old_self.node(p as int).children@[k] as int));
                        }
                    }
                    assert forall|i: int| #[trigger] self.live(i) implies self.frame_ok(i) by {
                        if i == id {
                            assert(self.node(p as int).children@[0] == id);
                        } else {
                            assert(old_self.live(i));
                            assert(old_self.frame_ok(i));
                            let n = self.node(i);
                            let on = old_self.node(i);
                            assert(n.kind == on.kind);
                            match n.kind {
                                Kind::Root { .. } => {},
                                Kind::Node { parent } => {
                                    assert(old_self.live(parent as int));
                                    assert(parent != id);
                                    if parent == p {
                                        let k = choose|k: int| 0 <= k < old_self.node(p as int).children@.len() && old_self.node(p as int).children@[k] == i as usize;
                                        assert(self.node(p as int).children@[k + 1] == i as usize);
                                    }
                                },
                            }
                            if i == p {
                                assert forall|k: int| 0 <= k < n.children@.len() implies {
                                    &&& self.live(#[trigger] n.children@[k] as int)
                                    &&& self.node(n.children@[k] as int).kind == (Kind::Node { parent: i as usize })
                                } by {
                                    if k > 0 {
                                        assert(n.children@[k] == on.children@[k - 1]);
                                        assert(old_self.live(on.children@[k - 1] as int));
                                    }
                                }
                                assert(n.children@.no_duplicates()) by {
                                    assert forall|a: int, b: int| 0 <= a < n.children@.len() && 0 <= b < n.children@.len() && a != b
                                        implies n.children@[a] != n.children@[b] by {
                                        if a > 0 && b > 0 {
                                            assert(n.children@[a] == on.children@[a - 1]);
                                            assert(n.children@[b] == on.children@[b - 1]);
                                        } else if a == 0 {
                                            assert(n.children@[b] == on.children@[b - 1]);
                                        } else {
                                            assert(n.children@[a] == on.children@[a - 1]);
                                        }
                                    }
                                }
                            } else {
                                assert(n == on);
                                assert forall|k: int| 0 <= k < n.children@.len() implies {
                                    &&& self.live(#[trigger] n.children@[k] as int)
                                    &&& self.node(n.children@[k] as int).kind == (Kind::Node { parent: i as usize })
                                } by {
                                    assert(old_self.live(n.children@[k] as int));
                                }
                            }
                        }
                    }
                    assert forall|x: usize| #[trigger] task_set_members(self.tasks).contains(x) implies self.live(x as int)
                        && self.node(x as int).kind is Root by {
                        assert(old_self.live(x as int));
                    }
                    self.lemma_vacant_filled(old_self, id);
                    assert(self@.frames =~= old_self@.attached(id, location@, parent).frames);
                }
            },
        }
    }

    proof fn lemma_vacant_filled(self, before: Self, id: usize)
        requires
            before.vacant_ok_except(id),
            self.vacant == before.vacant,
            self.slots@.len() == before.slots@.len(),
            self.slots@[id as int] is Some,
            forall|i: int| 0 <= i < self.slots@.len() && i != id ==> (#[trigger] self.slots@[i] is None <==> before.slots@[i] is None),
        ensures
            self.vacant_ok(),
    {
        assert forall|k: int| 0 <= k < self.vacant@.len() implies #[trigger] self.vacant@[k] < self.slots@.len()
            && self.slots@[self.vacant@[k] as int] is None by {
            assert(before.slots@[before.vacant@[k] as int] is None);
            assert(self.vacant@[k] != id);
        }
        assert forall|i: int| 0 <= i < self.slots@.len() && #[trigger] self.slots@[i] is None
            implies self.vacant@.contains(i as usize) by {
            assert(before.slots@[i] is None);
        }
    }

    /// Sets the task lock of the root `id` to `held`.
    fn set_lock(&mut self, id: usize, held: bool)
        requires
            old(self).wf(),
            old(self)@.frames.contains_key(id),
            old(self)@.frames[id].parent is None,
        ensures
            final(self).wf(),
            final(self)@ == old(self)@.with_lock(id, held),
    {
        let ghost old_self = *self;
        let mut n = self.slots[id].take().unwrap();
        n.kind = Kind::Root { mutex: TaskLock { held } };
        self.slots[id] = Some(n);
        proof {
            assert(old_self.live(id as int));
            assert forall|i: int| #[trigger] self.live(i) implies self.frame_ok(i) by {
                assert(old_self.live(i));
                assert(old_self.frame_ok(i));
                let n = self.node(i);
                match n.kind {
                    Kind::Root { .. } => {},
                    Kind::Node { parent } => {
                        assert(old_self.live(parent as int));
                    },
                }
                assert forall|k: int| 0 <= k < n.children@.len() implies {
                    &&& self.live(#[trigger] n.children@[k] as int)
                    &&& self.node(n.children@[k] as int).kind == (Kind::Node { parent: i as usize })
                } by {
                    assert(old_self.live(n.children@[k] as int));
                    assert(old_self.frame_ok(n.children@[k] as int));
                }
            }
            assert forall|x: usize| #[trigger] task_set_members(self.tasks).contains(x) implies self.live(x as int)
                && self.node(x as int).kind is Root by {
                assert(old_self.live(x as int));
            }
            assert forall|i: int| 0 <= i < self.slots@.len() && #[trigger] self.slots@[i] is None
                implies self.vacant@.contains(i as usize) by {
                assert(old_self.slots@[i] is None);
            }
            assert(self@.frames =~= old_self@.with_lock(id, held).frames);
        }
    }

    /// Detaches the childless frame `id`: takes it from its parent's
    /// children, or, for a root, from the tasks; its slot becomes vacant.
    #[verifier::spinoff_prover]
    #[verifier::rlimit(40)]
    fn detach(&mut self, id: usize)
        requires
            old(self).wf(),
            old(self)@.frames.contains_key(id),
            old(self)@.frames[id].children.len() == 0,
        ensures
            final(self).wf(),
            final(self)@ == old(self)@.detached(id),
    {
        let ghost old_self = *self;
        proof {
            assert(old_self.live(id as int));
            assert(old_self.frame_ok(id as int));
        }
        let n = self.slots[id].take().unwrap();
        match n.kind {
            Kind::Root { .. } => {
                deregister(&mut self.tasks, id);
            },
            Kind::Node { parent } => {
                let mut parent_node = self.slots[parent].take().unwrap();
                let k = position(&parent_node.children, id);
                parent_node.children.remove(k);
                self.slots[parent] = Some(parent_node);
                proof {
                    let cs = old_self.node(parent as int).children@;
                    let kk = choose|kk: int| 0 <= kk < cs.len() && cs[kk] == id;
                    assert(old_self.frame_ok(parent as int));
                    assert(kk == k);
                }
            },
        }
        self.vacant.push(id);
        proof {
            assert forall|i: int| #[trigger] self.live(i) implies self.frame_ok(i) by {
                assert(old_self.live(i));
                assert(old_self.frame_ok(i));
                assert(i != id);
                assert(old_self.slots@.len() == old_self.slots.len());
                assert((i as usize) as int == i);
                assert(self.node(i).kind == old_self.node(i).kind);
                let n = self.node(i);
                let on = old_self.node(i);
                assert(n.kind == on.kind);
                match n.kind {
                    Kind::Root { .. } => {},
                    Kind::Node { parent } => {
                        assert(old_self.live(parent as int));
                        if parent == id {
                            assert(old_self.node(id as int).children@.contains(i as usize));
                        }
                        match old_self.node(id as int).kind {
                            Kind::Root { .. } => {},
                            Kind::Node { parent: q } => {
                                if parent == q {
                                    let cs = old_self.node(q as int).children@;
                                    let k = choose|k: int| 0 <= k < cs.len() && cs[k] == i as usize;
                                    let kd = choose|kd: int| 0 <= kd < cs.len() && cs[kd] == id;
                                    assert(k != kd);
                                    if k < kd {
                                        assert(self.node(q as int).children@[k] == i as usize);
                                    } else {
                                        assert(self.node(q as int).children@[k - 1] == i as usize);
                                    }
                                }
                            },
                        }
                    },
                }
                let is_parent = match old_self.node(id as int).kind {
                    Kind::Root { .. } => false,
                    Kind::Node { parent: q } => q == i,
                };
                if is_parent {
                    let cs = on.children@;
                    let kd = choose|kd: int| 0 <= kd < cs.len() && cs[kd] == id;
                    assert(n.children@ =~= cs.remove(kd));
                    assert forall|k: int| 0 <= k < n.children@.len() implies {
                        &&& self.live(#[trigger] n.children@[k] as int)
                        &&& self.node(n.children@[k] as int).kind == (Kind::Node { parent: i as usize })
                    } by {
                        if k < kd {
                            assert(n.children@[k] == cs[k]);
                            assert(old_self.live(cs[k] as int));
                        } else {
                            assert(n.children@[k] == cs[k + 1]);
                            assert(old_self.live(cs[k + 1] as int));
                        }
                    }
                    assert(n.children@.no_duplicates()) by {
                        assert forall|a: int, b: int| 0 <= a < n.children@.len() && 0 <= b < n.children@.len() && a != b
                            implies n.children@[a] != n.children@[b] by {
                            let a2 = if a < kd { a } else { a + 1 };
                            let b2 = if b < kd { b } else { b + 1 };
                            assert(n.children@[a] == cs[a2]);
                            assert(n.children@[b] == cs[b2]);
                        }
                    }
                } else {
                    assert(n == on);
                    assert forall|k: int| 0 <= k < n.children@.len() implies {
                        &&& self.live(#[trigger] n.children@[k] as int)
                        &&& self.node(n.children@[k] as int).kind == (Kind::Node { parent: i as usize })
                    } by {
                        let c = n.children@[k];
                        assert(old_self.live(c as int));
                        if c == id {
                            assert(old_self.node(id as int).kind == (Kind::Node { parent: i as usize }));
                        }
                        assert(c != id);
                        assert(self.slots@[c as int] is Some);
                        assert(self.node(c as int).kind == old_self.node(c as int).kind);
                    }
                }
            }
            assert forall|x: usize| #[trigger] task_set_members(self.tasks).contains(x) implies self.live(x as int)
                && self.node(x as int).kind is Root by {
                assert(old_self.live(x as int));
            }
            assert(self.vacant@.no_duplicates()) by {
                assert forall|a: int, b: int| 0 <= a < self.vacant@.len() && 0 <= b < self.vacant@.len() && a != b
                    implies self.vacant@[a] != self.vacant@[b] by {
                    if a < old_self.vacant@.len() && b < old_self.vacant@.len() {
                        assert(self.vacant@[a] == old_self.vacant@[a]);
                        assert(self.vacant@[b] == old_self.vacant@[b]);
                    } else if a < old_self.vacant@.len() {
                        assert(self.vacant@[a] == old_self.vacant@[a]);
                        assert(old_self.slots@[old_self.vacant@[a] as int] is None);
                    } else {
                        assert(self.vacant@[b] == old_self.vacant@[b]);
                        assert(old_self.slots@[old_self.vacant@[b] as int] is None);
                    }
                }
            }
            assert forall|k: int| 0 <= k < self.vacant@.len() implies #[trigger] self.vacant@[k] < self.slots@.len()
                && self.slots@[self.vacant@[k] as int] is None by {
                if k < old_self.vacant@.len() {
                    assert(self.vacant@[k] == old_self.vacant@[k]);
                    assert(old_self.slots@[old_self.vacant@[k] as int] is None);
                }
            }
            assert forall|i: int| 0 <= i < self.slots@.len() && #[trigger] self.slots@[i] is None
                implies self.vacant@.contains(i as usize) by {
                if i == id {
                    assert(self.vacant@[self.vacant@.len() - 1] == id);
                } else {
                    assert(old_self.slots@[i] is None);
                    let k = choose|k: int| 0 <= k < old_self.vacant@.len() && old_self.vacant@[k] == i as usize;
                    assert(self.vacant@[k] == i as usize);
                }
            }
            assert(self@.frames =~= old_self@.detached(id).frames);
        }
    }

    /// Whether slot `id` holds an attached frame.
    pub fn is_live(&self, id: usize) -> (b: bool)
        requires
            self.wf(),
        ensures
            b == self@.frames.contains_key(id),
    {
        id < self.slots.len() && self.slots[id].is_some()
    }
}

} // verus!

verus! {

impl Forest {
    spec fn chain(self, id: int, fuel: nat) -> Seq<usize>
        decreases fuel,
    {
        if fuel == 0 {
            seq![id as usize]
        } else {
            match self.node(id).kind {
                Kind::Node { parent } => seq![id as usize] + self.chain(parent as int, (fuel - 1) as nat),
                Kind::Root { .. } => seq![id as usize],
            }
        }
    }

    /// The frame `id` followed by its ancestors, up to the root of its tree.
    pub closed spec fn ancestors_of(self, id: usize) -> Seq<usize> {
        self.chain(id as int, self.depth@[id as int])
    }

    /// The ancestors of a frame: the frame itself, then its parent, and so on
    /// up to the root of its tree.
    pub proof fn lemma_ancestors(self, id: usize)
        requires
            self.wf(),
            self@.frames.contains_key(id),
        ensures
            self.ancestors_of(id) == (match self@.frames[id].parent {
                None => seq![id],
                Some(p) => seq![id] + self.ancestors_of(p),
            }),
            self.ancestors_of(id).len() >= 1,
            self.ancestors_of(id)[0] == id,
            forall|k: int|
                0 <= k < self.ancestors_of(id).len() ==> self@.frames.contains_key(
                    #[trigger] self.ancestors_of(id)[k],
                ),
            forall|k: int|
                0 <= k < self.ancestors_of(id).len() - 1 ==> self@.frames[#[trigger] self.ancestors_of(
                    id,
                )[k]].parent == Some(self.ancestors_of(id)[k + 1]),
            self@.frames[self.ancestors_of(id).last()].parent is None,
            self.ancestors_of(id).len() == self.depth_of(id as int) + 1,
            forall|k: int|
                0 <= k < self.ancestors_of(id).len() ==> self.depth_of(
                    #[trigger] self.ancestors_of(id)[k] as int,
                ) == self.depth_of(id as int) - k,
            self.ancestors_of(id).no_duplicates(),
        decreases self.depth_of(id as int),
    {
        assert(self.live(id as int));
        assert(self.frame_ok(id as int));
        match self.node(id as int).kind {
            Kind::Root { .. } => {
                assert(self.depth@[id as int] == 0);
            },
            Kind::Node { parent } => {
                assert(self.live(parent as int));
                self.lemma_ancestors(parent);
                let a = self.ancestors_of(id);
                let b = self.ancestors_of(parent);
                assert(a == seq![id] + b);
                assert forall|k: int| 0 <= k < a.len() implies self@.frames.contains_key(#[trigger] a[k]) by {
                    if k > 0 {
                        assert(a[k] == b[k - 1]);
                    }
                }
                assert forall|k: int| 0 <= k < a.len() - 1 implies self@.frames[#[trigger] a[k]].parent == Some(a[k + 1]) by {
                    if k > 0 {
                        assert(a[k] == b[k - 1]);
                        assert(a[k + 1] == b[k]);
                    }
                }
                assert(a.last() == b.last());
                assert forall|k: int| 0 <= k < a.len() implies self.depth_of(#[trigger] a[k] as int)
                    == self.depth_of(id as int) - k by {
                    if k > 0 {
                        assert(a[k] == b[k - 1]);
                    }
                }
                assert forall|x: int, y: int| 0 <= x < a.len() && 0 <= y < a.len() && x != y
                    implies a[x] != a[y] by {
                    assert(self.depth_of(a[x] as int) == self.depth_of(id as int) - x);
                    assert(self.depth_of(a[y] as int) == self.depth_of(id as int) - y);
                }
            },
        }
    }

    /// The parent of the attached frame `id` (`None` for a root).
    pub fn parent(&self, id: usize) -> (p: Option<usize>)
        requires
            self.wf(),
            self@.frames.contains_key(id),
        ensures
            p == self@.frames[id].parent,
    {
        match &self.slots[id] {
            Some(n) => match n.kind {
                Kind::Root { .. } => None,
                Kind::Node { parent } => Some(parent),
            },
            None => None,
        }
    }

    /// The location of the attached frame `id`.
    pub fn location(&self, id: usize) -> (l: Location)
        requires
            self.wf(),
            self@.frames.contains_key(id),
        ensures
            l@ == self@.frames[id].location,
    {
        match &self.slots[id] {
            Some(n) => n.location,
            None => {
                proof {
                    assert(self.live(id as int));
                }
                unreached()
            },
        }
    }

    /// The slots of the children of the attached frame `id`, the most
    /// recently attached first.
    pub fn children(&self, id: usize) -> (cs: &Vec<usize>)
        requires
            self.wf(),
            self@.frames.contains_key(id),
        ensures
            cs@ == self@.frames[id].children,
    {
        match &self.slots[id] {
            Some(n) => &n.children,
            None => {
                proof {
                    assert(self.live(id as int));
                }
                unreached()
            },
        }
    }

    /// The frame `id` followed by its ancestors, up to the root of its tree.
    pub fn ancestors(&self, id: usize) -> (a: Vec<usize>)
        requires
            self.wf(),
            self@.frames.contains_key(id),
        ensures
            a@ == self.ancestors_of(id),
    {
        let mut a: Vec<usize> = Vec::new();
        let mut cur = id;
        a.push(cur);
        proof {
            self.lemma_ancestors(id);
        }
        loop
            invariant
                self.wf(),
                self@.frames.contains_key(cur),
                a@.len() >= 1,
                a@.last() == cur,
                self.ancestors_of(id) == a@.drop_last() + self.ancestors_of(cur),
            decreases self.depth_of(cur as int),
        {
            proof {
                self.lemma_ancestors(cur);
            }
            match self.parent(cur) {
                None => {
                    assert(a@ =~= a@.drop_last() + seq![cur]);
                    return a;
                },
                Some(p) => {
                    proof {
                        assert(self.live(cur as int));
                        assert(self.frame_ok(cur as int));
                        self.lemma_ancestors(p);
                        assert(self.ancestors_of(id) =~= a@ + self.ancestors_of(p));
                    }
                    let ghost before = a@;
                    a.push(p);
                    proof {
                        assert(a@.drop_last() =~= before);
                    }
                    cur = p;
                },
            }
        }
    }
}

} // verus!

verus! {

/// The locations of the frames `ids` of a forest.
pub open spec fn frame_locations(forest: ForestView, ids: Seq<usize>) -> Seq<LocationView> {
    Seq::new(ids.len(), |k: int| forest.frames[ids[k]].location)
}

/// A frame of a framed computation: where it is defined and, once it has
/// been activated, the slot of the forest at which it is attached.
pub struct Frame {
    location: Location,
    slot: Option<usize>,
}

impl Frame {
    /// The slot at which this frame is attached (`None` until it is activated).
    pub closed spec fn attached_slot(self) -> Option<usize> {
        self.slot
    }

    /// The location of this frame.
    pub closed spec fn location_view(self) -> LocationView {
        self.location@
    }

    /// Constructs a new frame, not yet attached to any forest.
    pub fn new(location: Location) -> (f: Self)
        ensures
            f.location_view() == location@,
            f.attached_slot() is None,
    {
        Self { location, slot: None }
    }

    /// The slot at which this frame is attached (`None` until it is activated).
    pub fn attached(&self) -> (s: Option<usize>)
        ensures
            s == self.attached_slot(),
    {
        self.slot
    }

    /// Produces the [`Location`] associated with this frame.
    pub fn location(&self) -> (l: Location)
        ensures
            l@ == self.location_view(),
    {
        self.location
    }

    /// Attaches this frame to the forest: below `maybe_parent`, or as the
    /// root of a new task.
    fn initialize_unchecked(&mut self, forest: &mut Forest, maybe_parent: Option<usize>)
        requires
            old(self).attached_slot() is None,
            old(forest).wf(),
            maybe_parent matches Some(p) ==> old(forest)@.frames.contains_key(p),
        ensures
            final(forest).wf(),
            final(self).location_view() == old(self).location_view(),
            final(self).attached_slot() matches Some(id) && !old(forest)@.frames.contains_key(id)
                && final(forest)@ == old(forest)@.attached(id, old(self).location_view(), maybe_parent),
    {
        let id = forest.take_vacant();
        forest.attach(id, self.location, maybe_parent);
        self.slot = Some(id);
    }

    /// The task lock of the attached frame `id`: `Some` for a root, `None`
    /// below one.
    pub fn mutex(forest: &Forest, id: usize) -> (m: Option<TaskLock>)
        requires
            forest.wf(),
            forest@.frames.contains_key(id),
        ensures
            m == (if forest@.frames[id].parent is None {
                Some(TaskLock { held: forest@.frames[id].locked })
            } else {
                None::<TaskLock>
            }),
    {
        match &forest.slots[id] {
            Some(n) => match n.kind {
                Kind::Root { mutex } => Some(mutex),
                Kind::Node { .. } => None,
            },
            None => {
                proof {
                    assert(forest.live(id as int));
                }
                unreached()
            },
        }
    }

    /// Activates this frame with `active` the frame active at that moment:
    /// attaches it (below `active`, or as a new task) the first time, then,
    /// for a root, takes its task lock. Fails, having only attached it, when
    /// that lock is held already.
    pub fn activate(&mut self, forest: &mut Forest, active: Option<usize>) -> (r: Result<
        usize,
        TaskBusy,
    >)
        requires
            old(forest).wf(),
            old(self).attached_slot() matches Some(id) ==> old(forest)@.frames.contains_key(id),
            active matches Some(a) ==> old(forest)@.frames.contains_key(a),
        ensures
            final(forest).wf(),
            final(self).location_view() == old(self).location_view(),
            final(self).attached_slot() is Some,
            ({
                let id = final(self).attached_slot()->0;
                let mid = if old(self).attached_slot() is None {
                    old(forest)@.attached(id, old(self).location_view(), active)
                } else {
                    old(forest)@
                };
                &&& old(self).attached_slot() is Some ==> final(self).attached_slot()
                    == old(self).attached_slot()
                &&& old(self).attached_slot() is None ==> !old(forest)@.frames.contains_key(id)
                &&& (r is Err <==> mid.frames[id].parent is None && mid.frames[id].locked)
                &&& r is Err ==> final(forest)@ == mid
                &&& r is Ok ==> r == Ok::<usize, TaskBusy>(id) && final(forest)@ == (if mid.frames[
                    id].parent is None {
                    mid.with_lock(id, true)
                } else {
                    mid
                })
            }),
    {
        if self.slot.is_none() {
            self.initialize_unchecked(forest, active);
        }
        let id = match self.slot {
            Some(id) => id,
            None => unreached(),
        };
        proof {
            assert(forest@.frames.contains_key(id));
        }
        match Frame::mutex(forest, id) {
            Some(lock) => {
                if lock.held {
                    Err(TaskBusy)
                } else {
                    forest.set_lock(id, true);
                    Ok(id)
                }
            },
            None => Ok(id),
        }
    }

    /// Ends an activation of the attached frame `id`: a root gives up its
    /// task lock; nothing else changes.
    pub fn deactivate(forest: &mut Forest, id: usize)
        requires
            old(forest).wf(),
            old(forest)@.frames.contains_key(id),
        ensures
            final(forest).wf(),
            final(forest)@ == (if old(forest)@.frames[id].parent is None {
                old(forest)@.with_lock(id, false)
            } else {
                old(forest)@
            }),
    {
        if Frame::mutex(forest, id).is_some() {
            forest.set_lock(id, false);
        }
    }

    /// Takes this frame out of the forest as it goes away: from its parent's
    /// children, or, for a root, from the tasks. A frame that was never
    /// activated leaves the forest as it is.
    pub fn release(&mut self, forest: &mut Forest)
        requires
            old(forest).wf(),
            old(self).attached_slot() matches Some(id) ==> old(forest)@.frames.contains_key(id)
                && old(forest)@.frames[id].children.len() == 0,
        ensures
            final(forest).wf(),
            final(forest)@ == (match old(self).attached_slot() {
                None => old(forest)@,
                Some(id) => old(forest)@.detached(id),
            }),
            final(self).attached_slot() is None,
            final(self).location_view() == old(self).location_view(),
    {
        match self.slot {
            Some(id) => forest.detach(id),
            None => {},
        }
        self.slot = None;
    }

    /// Produces the slot of the parent of this frame (`None` for a root or a
    /// frame that was never activated).
    pub fn parent(&self, forest: &Forest) -> (p: Option<usize>)
        requires
            forest.wf(),
            self.attached_slot() matches Some(id) ==> forest@.frames.contains_key(id),
        ensures
            p == (match self.attached_slot() {
                None => None,
                Some(id) => forest@.frames[id].parent,
            }),
    {
        match self.slot {
            Some(id) => forest.parent(id),
            None => None,
        }
    }

    /// Produces the root of the tree of the attached frame `id`.
    pub fn root(forest: &Forest, id: usize) -> (r: usize)
        requires
            forest.wf(),
            forest@.frames.contains_key(id),
        ensures
            r == forest.ancestors_of(id).last(),
            forest@.frames.contains_key(r),
            forest@.frames[r].parent is None,
    {
        let mut cur = id;
        proof {
            forest.lemma_ancestors(id);
        }
        loop
            invariant
                forest.wf(),
                forest@.frames.contains_key(cur),
                forest.ancestors_of(id).last() == forest.ancestors_of(cur).last(),
            decreases forest.depth_of(cur as int),
        {
            proof {
                forest.lemma_ancestors(cur);
            }
            match forest.parent(cur) {
                None => {
                    return cur;
                },
                Some(p) => {
                    proof {
                        assert(forest.live(cur as int));
                        assert(forest.frame_ok(cur as int));
                        forest.lemma_ancestors(p);
                    }
                    cur = p;
                },
            }
        }
    }

    /// Produces the locations of this frame and of its ancestors, up to the
    /// root of its tree.
    pub fn backtrace(&self, forest: &Forest) -> (b: Vec<Location>)
        requires
            forest.wf(),
            self.attached_slot() matches Some(id) ==> forest@.frames.contains_key(id),
        ensures
            location_views(b@) == (match self.attached_slot() {
                None => seq![self.location_view()],
                Some(id) => frame_locations(forest@, forest.ancestors_of(id)),
            }),
    {
        match self.slot {
            None => {
                let mut b: Vec<Location> = Vec::new();
                b.push(self.location);
                assert(location_views(b@) =~= seq![self.location_view()]);
                b
            },
            Some(id) => backtrace_locations(forest, id),
        }
    }
}

/// The locations of the attached frame `id` and of its ancestors.
pub fn backtrace_locations(forest: &Forest, id: usize) -> (b: Vec<Location>)
    requires
        forest.wf(),
        forest@.frames.contains_key(id),
    ensures
        location_views(b@) == frame_locations(forest@, forest.ancestors_of(id)),
{
    let ids = forest.ancestors(id);
    proof {
        forest.lemma_ancestors(id);
    }
    let mut b: Vec<Location> = Vec::new();
    let mut k: usize = 0;
    while k < ids.len()
        invariant
            forest.wf(),
            ids@ == forest.ancestors_of(id),
            forall|j: int| 0 <= j < ids@.len() ==> forest@.frames.contains_key(#[trigger] ids@[j]),
            k <= ids@.len(),
            location_views(b@) == frame_locations(forest@, ids@.subrange(0, k as int)),
        decreases ids.len() - k,
    {
        let l = forest.location(ids[k]);
        let ghost before = b@;
        b.push(l);
        proof {
            assert(location_views(b@) =~= location_views(before).push(l@));
            assert(frame_locations(forest@, ids@.subrange(0, k + 1)) =~= frame_locations(
                forest@,
                ids@.subrange(0, k as int),
            ).push(forest@.frames[ids@[k as int]].location));
        }
        k = k + 1;
    }
    assert(ids@.subrange(0, ids@.len() as int) =~= ids@);
    b
}

} // verus!

verus! {

/// A tree of frame locations: what a task dump shows of a frame and of the
/// frames below it.
#[verifier::ext_equal]
pub struct TraceTree {
    pub location: LocationView,
    pub children: Seq<TraceTree>,
}

/// The connector drawn before a frame: the last child of its parent gets a
/// corner, the others a tee.
pub open spec fn connector(is_last: bool) -> Seq<char> {
    if is_last {
        "└╼ "@
    } else {
        "├╼ "@
    }
}

/// What the lines below a frame add to its prefix: a vertical bar while
/// siblings follow it, blanks after the last one.
pub open spec fn indent(is_last: bool) -> Seq<char> {
    if is_last {
        "   "@
    } else {
        "│  "@
    }
}

/// The label of `count` consecutive identical subtrees at `loc`: the count,
/// when there is more than one, then the location.
pub open spec fn label(count: nat, loc: LocationView) -> Seq<char> {
    (if count > 1 {
        decimal(count) + "x "@
    } else {
        Seq::empty()
    }) + location_text(loc)
}

/// The line of a frame: prefix, connector and label, without their first
/// three characters.
pub open spec fn tree_line(prefix: Seq<char>, is_last: bool, count: nat, loc: LocationView) -> Seq<
    char,
> {
    (prefix + connector(is_last) + label(count, loc)).skip(3)
}

/// The number of consecutive subtrees, from `cs[i]` on, equal to `cs[i]`.
pub open spec fn run_len(cs: Seq<TraceTree>, i: int) -> nat
    decreases cs.len() - i,
{
    if 0 <= i && i + 1 < cs.len() && cs[i + 1] == cs[i] {
        1 + run_len(cs, i + 1)
    } else {
        1
    }
}

/// A run is never empty and never goes past the end.
pub proof fn lemma_run_len_bounds(cs: Seq<TraceTree>, i: int)
    requires
        0 <= i < cs.len(),
    ensures
        1 <= run_len(cs, i) <= cs.len() - i,
    decreases cs.len() - i,
{
    if i + 1 < cs.len() && cs[i + 1] == cs[i] {
        lemma_run_len_bounds(cs, i + 1);
    }
}

/// The lines of `t`, drawn as `count` consecutive identical subtrees below
/// `prefix`: its own line, then the lines of its children, consecutive
/// identical children drawn once.
pub open spec fn tree_lines(t: TraceTree, count: nat, is_last: bool, prefix: Seq<char>) -> Seq<
    Seq<char>,
>
    decreases t, 0int,
{
    seq![tree_line(prefix, is_last, count, t.location)] + group_lines(
        t.children,
        0,
        prefix + indent(is_last),
    )
}

/// The lines of the subtrees `cs[i..]` below `prefix`, each run of
/// consecutive identical subtrees drawn once with its length.
pub open spec fn group_lines(cs: Seq<TraceTree>, i: int, prefix: Seq<char>) -> Seq<Seq<char>>
    decreases cs, cs.len() - i,
{
    if i < 0 || i >= cs.len() {
        Seq::empty()
    } else {
        let n = run_len(cs, i);
        proof {
            lemma_run_len_bounds(cs, i);
        }
        tree_lines(cs[i], n, i + n >= cs.len(), prefix) + group_lines(cs, i + n, prefix)
    }
}

/// The line that stands for the subframes of a task that is being polled.
pub open spec fn polling_line() -> Seq<char> {
    "  └┈ [POLLING]"@
}

/// The lines of a task whose root frame has the tree `t`: the whole tree
/// when its subframes can be read, else the root's line and a note that the
/// task is being polled.
pub open spec fn task_lines(t: TraceTree, subframes: bool) -> Seq<Seq<char>> {
    if subframes {
        tree_lines(t, 1, true, "  "@)
    } else {
        seq![tree_line("  "@, true, 1, t.location), polling_line()]
    }
}

} // verus!

verus! {

impl Forest {
    spec fn subtree(self, id: int, fuel: nat) -> TraceTree
        decreases fuel,
    {
        TraceTree {
            location: self.node(id).location@,
            children: if fuel == 0 {
                Seq::empty()
            } else {
                Seq::new(
                    self.node(id).children@.len(),
                    |k: int| self.subtree(self.node(id).children@[k] as int, (fuel - 1) as nat),
                )
            },
        }
    }

    /// How far the frames below `id` may reach.
    spec fn reach(self, id: int) -> nat {
        (self.height@ - self.depth@[id]) as nat
    }

    /// The number of levels left below the frame `id`; it falls from a frame
    /// to each of its children.
    pub closed spec fn levels_below(self, id: usize) -> nat {
        self.reach(id as int)
    }

    /// The tree of locations of the attached frame `id` and of the frames
    /// below it.
    pub closed spec fn tree(self, id: usize) -> TraceTree {
        self.subtree(id as int, self.reach(id as int))
    }

    /// The tree of a frame holds its location and the trees of its children,
    /// in the order of its children.
    pub proof fn lemma_tree(self, id: usize)
        requires
            self.wf(),
            self@.frames.contains_key(id),
        ensures
            self.tree(id).location == self@.frames[id].location,
            self.tree(id).children == Seq::new(
                self@.frames[id].children.len(),
                |k: int| self.tree(self@.frames[id].children[k]),
            ),
            forall|k: int|
                0 <= k < self@.frames[id].children.len() ==> self.levels_below(
                    #[trigger] self@.frames[id].children[k],
                ) < self.levels_below(id),
    {
        assert(self.live(id as int));
        assert(self.frame_ok(id as int));
        let n = self.node(id as int);
        assert(self.reach(id as int) >= 1);
        assert forall|k: int| 0 <= k < n.children@.len() implies self.reach(
            #[trigger] n.children@[k] as int,
        ) == self.reach(id as int) - 1 by {
            let c = n.children@[k];
            assert(self.live(c as int));
            assert(self.frame_ok(c as int));
        }
        assert(self.tree(id).children =~= Seq::new(
            self@.frames[id].children.len(),
            |k: int| self.tree(self@.frames[id].children[k]),
        ));
    }

    /// Whether the attached frames `a` and `b` have the same tree.
    fn same_tree(&self, a: usize, b: usize) -> (same: bool)
        requires
            self.wf(),
            self@.frames.contains_key(a),
            self@.frames.contains_key(b),
        ensures
            same == (self.tree(a) == self.tree(b)),
        decreases self.levels_below(a),
    {
        proof {
            self.lemma_tree(a);
            self.lemma_tree(b);
            self.lemma_view();
        }
        let la = self.location(a);
        let lb = self.location(b);
        if !la.same_as(&lb) {
            return false;
        }
        let ca = self.children(a);
        let cb = self.children(b);
        if ca.len() != cb.len() {
            assert(self.tree(a).children.len() != self.tree(b).children.len());
            return false;
        }
        let mut k: usize = 0;
        while k < ca.len()
            invariant
                self.wf(),
                self@.frames.contains_key(a),
                self@.frames.contains_key(b),
                ca@ == self@.frames[a].children,
                cb@ == self@.frames[b].children,
                ca@.len() == cb@.len(),
                k <= ca@.len(),
                self.tree(a).children == Seq::new(ca@.len(), |j: int| self.tree(ca@[j])),
                self.tree(b).children == Seq::new(cb@.len(), |j: int| self.tree(cb@[j])),
                forall|j: int| 0 <= j < ca@.len() ==> self@.frames.contains_key(#[trigger] ca@[j]) && self.levels_below(ca@[j]) < self.levels_below(a),
                forall|j: int| 0 <= j < cb@.len() ==> self@.frames.contains_key(#[trigger] cb@[j]),
                forall|j: int| 0 <= j < k ==> self.tree(#[trigger] ca@[j]) == self.tree(cb@[j]),
            decreases ca.len() - k,
        {
            if !self.same_tree(ca[k], cb[k]) {
                proof {
                    assert(self.tree(a).children[k as int] != self.tree(b).children[k as int]);
                }
                return false;
            }
            k = k + 1;
        }
        proof {
            assert(self.tree(a).children =~= self.tree(b).children);
            assert(self.tree(a).location == self.tree(b).location);
            assert(self.tree(a) =~= self.tree(b));
        }
        true
    }
}

} // verus!

verus! {

/// A run ends at `j` when every subtree between `i` and `j` equals `cs[i]`
/// and `cs[j]` (if any) does not.
proof fn lemma_run_len_ends(cs: Seq<TraceTree>, i: int, j: int)
    requires
        0 <= i < j <= cs.len(),
        forall|k: int| i < k < j ==> cs[k] == cs[i],
        j == cs.len() || cs[j] != cs[i],
    ensures
        run_len(cs, i) == j - i,
    decreases j - i,
{
    if j > i + 1 {
        assert(cs[i + 1] == cs[i]);
        lemma_run_len_ends(cs, i + 1, j);
    }
}

/// Appends the label of `count` subtrees at `loc` to `out`.
fn push_label(out: &mut String, count: usize, loc: &Location)
    ensures
        final(out)@ == old(out)@ + label(count as nat, loc@),
{
    let ghost before = out@;
    if count > 1 {
        push_decimal(out, count as u64);
        out.append("x ");
    }
    let text = loc.to_string();
    out.append(text.as_str());
    proof {
        if count > 1 {
            assert(out@ =~= before + (decimal(count as nat) + "x "@) + location_text(loc@));
        } else {
            assert(out@ =~= before + Seq::<char>::empty() + location_text(loc@));
        }
    }
}

/// The line of `count` consecutive identical subtrees at `location` below
/// `prefix`.
fn line_of(location: &Location, count: usize, is_last: bool, prefix: &String) -> (line: String)
    ensures
        line@ == tree_line(prefix@, is_last, count as nat, location@),
{
    proof {
        reveal_strlit("└╼ ");
        reveal_strlit("├╼ ");
    }
    let mut full = prefix.clone();
    if is_last {
        full.append("└╼ ");
    } else {
        full.append("├╼ ");
    }
    push_label(&mut full, count, location);
    let len = full.as_str().unicode_len();
    full.as_str().substring_char(3, len).to_owned()
}

impl Forest {
    /// Appends to `lines` the lines of the attached frame `id`, drawn as
    /// `count` consecutive identical subtrees below `prefix`.
    fn render_tree(&self, id: usize, count: usize, is_last: bool, prefix: &String, lines: &mut Vec<String>)
        requires
            self.wf(),
            self@.frames.contains_key(id),
        ensures
            string_views(final(lines)@) == string_views(old(lines)@) + tree_lines(
                self.tree(id),
                count as nat,
                is_last,
                prefix@,
            ),
        decreases self.levels_below(id),
    {
        proof {
            self.lemma_tree(id);
            self.lemma_view();
        }
        let location = self.location(id);
        let line = line_of(&location, count, is_last, prefix);
        let ghost first = line@;
        let ghost base = string_views(old(lines)@).push(first);
        let ghost start = old(lines)@;
        lines.push(line);
        assert(string_views(lines@) =~= base);
        let mut next = prefix.clone();
        if is_last {
            next.append("   ");
        } else {
            next.append("│  ");
        }
        let ghost trees = self.tree(id).children;
        let cs = self.children(id);
        let mut i: usize = 0;
        while i < cs.len()
            invariant
                self.wf(),
                self@.frames.contains_key(id),
                cs@ == self@.frames[id].children,
                trees == Seq::new(cs@.len(), |j: int| self.tree(cs@[j])),
                forall|j: int| 0 <= j < cs@.len() ==> self@.frames.contains_key(#[trigger] cs@[j]) && self.levels_below(cs@[j]) < self.levels_below(id),
                next@ == prefix@ + indent(is_last),
                i <= cs@.len(),
                string_views(lines@) + group_lines(trees, i as int, next@) == base + group_lines(trees, 0, next@),
            decreases cs.len() - i,
        {
            let mut j: usize = i + 1;
            while j < cs.len()
                invariant
                    self.wf(),
                    i < j <= cs@.len(),
                    trees == Seq::new(cs@.len(), |m: int| self.tree(cs@[m])),
                    forall|m: int| 0 <= m < cs@.len() ==> self@.frames.contains_key(#[trigger] cs@[m]),
                    forall|m: int| i < m < j ==> trees[m] == trees[i as int],
                ensures
                    i < j <= cs@.len(),
                    forall|m: int| i < m < j ==> trees[m] == trees[i as int],
                    j == cs@.len() || trees[j as int] != trees[i as int],
                decreases cs.len() - j,
            {
                if !self.same_tree(cs[i], cs[j]) {
                    break;
                }
                j = j + 1;
            }
            proof {
                lemma_run_len_ends(trees, i as int, j as int);
            }
            let ghost mid = string_views(lines@);
            self.render_tree(cs[i], j - i, j == cs.len(), &next, lines);
            proof {
                assert(group_lines(trees, i as int, next@) == tree_lines(trees[i as int], (j - i) as nat, j >= cs@.len(), next@) + group_lines(trees, j as int, next@));
                assert(string_views(lines@) + group_lines(trees, j as int, next@) =~= mid + group_lines(trees, i as int, next@));
            }
            i = j;
        }
        proof {
            assert(group_lines(trees, cs@.len() as int, next@) =~= Seq::<Seq<char>>::empty());
            assert(string_views(lines@) =~= base + group_lines(trees, 0, next@));
            assert(tree_lines(self.tree(id), count as nat, is_last, prefix@) == seq![first] + group_lines(trees, 0, next@));
            assert(string_views(lines@) =~= string_views(start) + tree_lines(self.tree(id), count as nat, is_last, prefix@));
        }
    }
}

} // verus!

verus! {

impl Frame {
    /// Renders the task whose root is the attached frame `id` (see
    /// [`task_lines`]): the whole tree when `subframes_locked`, else the
    /// root's line and a note that the task is being polled.
    pub fn fmt(forest: &Forest, id: usize, subframes_locked: bool) -> (s: String)
        requires
            forest.wf(),
            forest@.frames.contains_key(id),
        ensures
            s@ == join_lines(task_lines(forest.tree(id), subframes_locked)),
    {
        proof {
            reveal_strlit("  ");
        }
        let mut prefix = String::new();
        prefix.append("  ");
        let mut lines: Vec<String> = Vec::new();
        if subframes_locked {
            forest.render_tree(id, 1, true, &prefix, &mut lines);
            assert(string_views(lines@) =~= task_lines(forest.tree(id), subframes_locked));
        } else {
            let location = forest.location(id);
            proof {
                forest.lemma_tree(id);
            }
            lines.push(line_of(&location, 1, true, &prefix));
            let mut polling = String::new();
            polling.append("  └┈ [POLLING]");
            lines.push(polling);
            assert(string_views(lines@) =~= task_lines(forest.tree(id), subframes_locked));
        }
        join_with_newlines(&lines)
    }

    /// Renders this frame as a task (see [`task_lines`]): an attached frame
    /// with the tree below it, a frame that was never activated as its own
    /// line alone, with no frame below it. When `subframes_locked` is false,
    /// the root's line is followed by a note that the task is being polled.
    pub fn render(&self, forest: &Forest, subframes_locked: bool) -> (s: String)
        requires
            forest.wf(),
            self.attached_slot() matches Some(id) ==> forest@.frames.contains_key(id),
        ensures
            s@ == join_lines(task_lines(
                match self.attached_slot() {
                    Some(id) => forest.tree(id),
                    None => TraceTree { location: self.location_view(), children: Seq::empty() },
                },
                subframes_locked,
            )),
    {
        match self.slot {
            Some(id) => Frame::fmt(forest, id, subframes_locked),
            None => {
                proof {
                    reveal_strlit("  ");
                }
                let ghost t = TraceTree { location: self.location_view(), children: Seq::empty() };
                let mut prefix = String::new();
                prefix.append("  ");
                let mut lines: Vec<String> = Vec::new();
                lines.push(line_of(&self.location, 1, true, &prefix));
                if !subframes_locked {
                    let mut polling = String::new();
                    polling.append("  └┈ [POLLING]");
                    lines.push(polling);
                }
                proof {
                    assert(group_lines(t.children, 0, prefix@ + indent(true)) =~= Seq::<Seq<char>>::empty());
                    assert(string_views(lines@) =~= task_lines(t, subframes_locked));
                }
                join_with_newlines(&lines)
            },
        }
    }
}

} // verus!

verus! {

impl Forest {
    /// Whether `id` is a task: the slot of an attached root frame.
    pub fn is_task(&self, id: usize) -> (b: bool)
        requires
            self.wf(),
        ensures
            b == self@.tasks.contains(id),
    {
        proof {
            self.lemma_view();
        }
        self.is_live(id) && self.parent(id).is_none()
    }

    /// The slots of the roots of the tasks, each once, in the order in which
    /// the task set yields them.
    pub fn task_ids(&self) -> (ids: Vec<usize>)
        requires
            self.wf(),
        ensures
            ids@.to_set() == self@.tasks,
            ids@.no_duplicates(),
    {
        task_set_ids(&self.tasks)
    }
}

} // verus!

verus! {

/// Leaving a scope undoes entering it: taking the free task lock of a frame
/// and giving it back leaves the forest as it was.
pub proof fn lemma_lock_round_trip(v: ForestView, id: usize)
    requires
        v.frames.contains_key(id),
        !v.frames[id].locked,
    ensures
        v.with_lock(id, true).with_lock(id, false) == v,
{
    assert(v.with_lock(id, true).with_lock(id, false).frames =~= v.frames);
}

/// A frame that is attached to a well-formed forest and then detached
/// leaves the forest as it was.
pub proof fn lemma_attach_detach(
    forest: &Forest,
    id: usize,
    location: LocationView,
    parent: Option<usize>,
)
    requires
        forest.wf(),
        !forest@.frames.contains_key(id),
        parent matches Some(p) ==> forest@.frames.contains_key(p),
    ensures
        forest@.attached(id, location, parent).detached(id) == forest@,
{
    forest.lemma_view();
    let v = forest@;
    let w = v.attached(id, location, parent);
    match parent {
        None => {
            assert(!v.tasks.contains(id));
            assert(w.detached(id).frames =~= v.frames);
            assert(w.detached(id).tasks =~= v.tasks);
        },
        Some(p) => {
            let cs = v.frames[p].children;
            let ws = w.frames[p].children;
            assert(ws == seq![id] + cs);
            assert(!cs.contains(id)) by {
                if cs.contains(id) {
                    let k = choose|k: int| 0 <= k < cs.len() && cs[k] == id;
                    assert(v.frames.contains_key(cs[k]));
                }
            }
            let k = choose|k: int| 0 <= k < ws.len() && ws[k] == id;
            assert(ws[0] == id);
            if k != 0 {
                assert(ws[k] == cs[k - 1]);
            }
            assert(k == 0);
            assert(ws.remove(0) =~= cs);
            assert(w.detached(id).frames =~= v.frames);
        },
    }
}

/// Releasing the root of a task without children takes it, and only it,
/// out of the tasks, and takes its frame out of the forest.
pub proof fn lemma_release_task(forest: &Forest, id: usize)
    requires
        forest.wf(),
        forest@.frames.contains_key(id),
        forest@.frames[id].parent is None,
    ensures
        forall|x: usize|
            #[trigger] forest@.detached(id).tasks.contains(x) <==> forest@.tasks.contains(x) && x
                != id,
        forest@.tasks.contains(id),
        !forest@.detached(id).frames.contains_key(id),
{
    forest.lemma_view();
}

/// The first line of a task dump is the location of its root behind a `╼ `
/// mark.
pub proof fn lemma_root_line(loc: LocationView)
    ensures
        tree_line("  "@, true, 1, loc) == "╼ "@ + location_text(loc),
{
    reveal_strlit("  ");
    reveal_strlit("└╼ ");
    reveal_strlit("╼ ");
    assert(label(1, loc) == location_text(loc));
    assert(tree_line("  "@, true, 1, loc) =~= "╼ "@ + location_text(loc));
}

/// A run of `n` identical sibling subtrees is drawn once, labelled with `n`.
pub proof fn lemma_identical_siblings(t: TraceTree, n: nat, prefix: Seq<char>)
    requires
        n >= 1,
    ensures
        group_lines(Seq::new(n, |i: int| t), 0, prefix) == tree_lines(t, n, true, prefix),
{
    let cs = Seq::new(n, |i: int| t);
    lemma_run_len_ends(cs, 0, n as int);
    assert(group_lines(cs, n as int, prefix) == Seq::<Seq<char>>::empty());
    assert(group_lines(cs, 0, prefix) =~= tree_lines(t, n, true, prefix));
}

} // verus!

verus! {

/// Every subtree of a run equals the first one.
proof fn lemma_run_len_members(cs: Seq<TraceTree>, i: int, m: int)
    requires
        0 <= i <= m < i + run_len(cs, i),
        i < cs.len(),
    ensures
        cs[m] == cs[i],
    decreases m - i,
{
    if m > i {
        assert(i + 1 < cs.len() && cs[i + 1] == cs[i]);
        lemma_run_len_members(cs, i + 1, m);
    }
}

/// Drawing the siblings from `j` on reaches the start `i` of a run (a place
/// where the sibling before differs): the drawing of the siblings from `i`
/// on ends it.
proof fn lemma_group_lines_reach(cs: Seq<TraceTree>, j: int, i: int, prefix: Seq<char>)
    requires
        0 <= j <= i <= cs.len(),
        i == cs.len() || i == 0 || cs[i - 1] != cs[i],
    ensures
        group_lines(cs, i, prefix).is_suffix_of(group_lines(cs, j, prefix)),
    decreases i - j,
{
    if j == i {
        assert(group_lines(cs, i, prefix) =~= group_lines(cs, j, prefix).subrange(0, group_lines(cs, j, prefix).len() as int));
    } else {
        let n = run_len(cs, j);
        lemma_run_len_bounds(cs, j);
        if j + n > i {
            lemma_run_len_members(cs, j, i);
            lemma_run_len_members(cs, j, i - 1);
            assert(false);
        }
        lemma_group_lines_reach(cs, j + n, i, prefix);
        let head = tree_lines(cs[j], n, j + n >= cs.len(), prefix);
        let whole = group_lines(cs, j, prefix);
        let mid = group_lines(cs, j + n, prefix);
        let tail = group_lines(cs, i, prefix);
        assert(whole == head + mid);
        assert(tail =~= whole.subrange(whole.len() - tail.len(), whole.len() as int)) by {
            assert forall|x: int| 0 <= x < tail.len() implies tail[x] == whole[whole.len() - tail.len() + x] by {
                assert(tail[x] == mid[mid.len() - tail.len() + x]);
            }
        }
    }
}

/// A maximal run of `k` identical siblings `cs[i..i + k]`, wherever it stands
/// among the other siblings, is drawn once, labelled with `k`: the drawing of
/// all the siblings ends with the lines of `cs[i]` as `k` subtrees, followed
/// by the drawing of the siblings after the run.
pub proof fn lemma_run_drawn_once(cs: Seq<TraceTree>, i: int, k: int, prefix: Seq<char>)
    requires
        0 <= i,
        k >= 1,
        i + k <= cs.len(),
        forall|m: int| i <= m < i + k ==> cs[m] == cs[i],
        i + k == cs.len() || cs[i + k] != cs[i],
        i == 0 || cs[i - 1] != cs[i],
    ensures
        (tree_lines(cs[i], k as nat, i + k == cs.len(), prefix) + group_lines(cs, i + k, prefix)).is_suffix_of(
            group_lines(cs, 0, prefix),
        ),
{
    lemma_group_lines_reach(cs, 0, i, prefix);
    lemma_run_len_ends(cs, i, i + k);
    assert(group_lines(cs, i, prefix) == tree_lines(cs[i], k as nat, i + k >= cs.len(), prefix)
        + group_lines(cs, i + k, prefix));
}

} // verus!

verus! {

/// A line that is not empty and does not end with a newline.
pub open spec fn closed_line(l: Seq<char>) -> bool {
    l.len() > 0 && l.last() != '\n'
}

/// Every one of `ls` is a [`closed_line`].
pub open spec fn all_closed(ls: Seq<Seq<char>>) -> bool {
    forall|k: int| 0 <= k < ls.len() ==> closed_line(#[trigger] ls[k])
}

proof fn lemma_tree_line_closed(prefix: Seq<char>, is_last: bool, count: nat, loc: LocationView)
    ensures
        closed_line(tree_line(prefix, is_last, count, loc)),
{
    reveal_strlit("└╼ ");
    reveal_strlit("├╼ ");
    let d = decimal(loc.column as nat);
    assert(d.len() >= 1 && d.last() != '\n');
    let text = location_text(loc);
    assert(text.len() >= 1 && text.last() == d.last());
    let whole = prefix + connector(is_last) + label(count, loc);
    assert(label(count, loc).last() == text.last());
    assert(whole.len() >= 4);
    assert(whole.last() == text.last());
    assert(whole.skip(3).last() == whole.last());
}

proof fn lemma_tree_lines_closed(t: TraceTree, count: nat, is_last: bool, prefix: Seq<char>)
    ensures
        all_closed(tree_lines(t, count, is_last, prefix)),
        tree_lines(t, count, is_last, prefix).len() >= 1,
    decreases t, 0int,
{
    lemma_tree_line_closed(prefix, is_last, count, t.location);
    lemma_group_lines_closed(t.children, 0, prefix + indent(is_last));
    let head = seq![tree_line(prefix, is_last, count, t.location)];
    let rest = group_lines(t.children, 0, prefix + indent(is_last));
    assert forall|k: int| 0 <= k < (head + rest).len() implies closed_line(#[trigger] (head + rest)[k]) by {
        if k > 0 {
            assert((head + rest)[k] == rest[k - 1]);
        }
    }
}

proof fn lemma_group_lines_closed(cs: Seq<TraceTree>, i: int, prefix: Seq<char>)
    ensures
        all_closed(group_lines(cs, i, prefix)),
    decreases cs, cs.len() - i,
{
    if 0 <= i < cs.len() {
        let n = run_len(cs, i);
        lemma_run_len_bounds(cs, i);
        lemma_tree_lines_closed(cs[i], n, i + n >= cs.len(), prefix);
        lemma_group_lines_closed(cs, i + n, prefix);
        let a = tree_lines(cs[i], n, i + n >= cs.len(), prefix);
        let b = group_lines(cs, i + n, prefix);
        assert forall|k: int| 0 <= k < (a + b).len() implies closed_line(#[trigger] (a + b)[k]) by {
            if k >= a.len() {
                assert((a + b)[k] == b[k - a.len()]);
            }
        }
    }
}

/// Every line of a task's drawing is non-empty and none ends with a newline:
/// each ends with a column number or with the polling note.
pub proof fn lemma_task_lines_closed(t: TraceTree, subframes: bool)
    ensures
        task_lines(t, subframes).len() >= 1,
        all_closed(task_lines(t, subframes)),
{
    if subframes {
        lemma_tree_lines_closed(t, 1, true, "  "@);
    } else {
        reveal_strlit("  └┈ [POLLING]");
        lemma_tree_line_closed("  "@, true, 1, t.location);
        let ls = task_lines(t, subframes);
        assert(ls[1] == polling_line());
    }
}

/// Lines joined by newlines: nothing for no line; otherwise, when every line
/// is non-empty and none ends with a newline, neither does the whole.
pub proof fn lemma_join_closed(ls: Seq<Seq<char>>)
    ensures
        ls.len() == 0 ==> join_lines(ls) == Seq::<char>::empty(),
        ls.len() > 0 && all_closed(ls) ==> closed_line(join_lines(ls)),
    decreases ls.len(),
{
    if ls.len() > 1 {
        lemma_join_closed(ls.drop_last());
        let j = join_lines(ls.drop_last()) + seq!['\n'] + ls.last();
        if all_closed(ls) {
            assert(closed_line(ls[ls.len() - 1]));
            assert(j.last() == ls.last().last());
        }
    } else if ls.len() == 1 {
        if all_closed(ls) {
            assert(closed_line(ls[0]));
        }
    }
}

} // verus!

verus! {

/// Whether `path`, a sequence of child indices, leads from the root of `t`
/// to one of its subtrees.
pub open spec fn valid_path(t: TraceTree, path: Seq<int>) -> bool
    decreases path.len(),
{
    path.len() == 0 || (0 <= path[0] < t.children.len() && valid_path(
        t.children[path[0]],
        path.drop_first(),
    ))
}

/// The subtree of `t` that `path` leads to.
pub open spec fn subtree_at(t: TraceTree, path: Seq<int>) -> TraceTree
    decreases path.len(),
{
    if path.len() == 0 || !(0 <= path[0] < t.children.len()) {
        t
    } else {
        subtree_at(t.children[path[0]], path.drop_first())
    }
}

/// The `n` lines of `whole` from the `s`-th on.
pub open spec fn window(whole: Seq<Seq<char>>, s: int, n: int) -> Seq<Seq<char>> {
    whole.subrange(s, s + n)
}

/// Whether the lines `part` stand, one after the other, somewhere in `whole`.
pub open spec fn occurs_in(part: Seq<Seq<char>>, whole: Seq<Seq<char>>) -> bool {
    exists|s: int|
        0 <= s && s + part.len() <= whole.len() && #[trigger] window(whole, s, part.len() as int) == part
}

proof fn lemma_occurs_at(part: Seq<Seq<char>>, whole: Seq<Seq<char>>, s: int)
    requires
        0 <= s,
        s + part.len() <= whole.len(),
        whole.subrange(s, s + part.len()) == part,
    ensures
        occurs_in(part, whole),
{
    assert(window(whole, s, part.len() as int) == part);
}

proof fn lemma_occurs_trans(a: Seq<Seq<char>>, b: Seq<Seq<char>>, c: Seq<Seq<char>>)
    requires
        occurs_in(a, b),
        occurs_in(b, c),
    ensures
        occurs_in(a, c),
{
    let s1 = choose|s: int| 0 <= s && s + a.len() <= b.len() && #[trigger] window(b, s, a.len() as int) == a;
    let s2 = choose|s: int| 0 <= s && s + b.len() <= c.len() && #[trigger] window(c, s, b.len() as int) == b;
    assert(c.subrange(s1 + s2, s1 + s2 + a.len()) =~= a) by {
        assert forall|x: int| 0 <= x < a.len() implies c[s1 + s2 + x] == a[x] by {
            assert(a[x] == b[s1 + x]);
            assert(b[s1 + x] == c[s2 + s1 + x]);
        }
    }
    lemma_occurs_at(a, c, s1 + s2);
}

/// Some drawing of the sibling `cs[c]` (as the first of its run, which is
/// identical to it) occurs in the drawing of the siblings from `m` on.
proof fn lemma_sibling_drawn(cs: Seq<TraceTree>, m: int, c: int, prefix: Seq<char>) -> (r: (nat, bool))
    requires
        0 <= m <= c < cs.len(),
        m == 0 || cs[m - 1] != cs[m],
    ensures
        occurs_in(tree_lines(cs[c], r.0, r.1, prefix), group_lines(cs, m, prefix)),
    decreases c - m,
{
    let n = run_len(cs, m);
    lemma_run_len_bounds(cs, m);
    let head = tree_lines(cs[m], n, m + n >= cs.len(), prefix);
    let whole = group_lines(cs, m, prefix);
    let rest = group_lines(cs, m + n, prefix);
    assert(whole == head + rest);
    if c < m + n {
        lemma_run_len_members(cs, m, c);
        assert(whole.subrange(0, head.len() as int) =~= head);
        lemma_occurs_at(head, whole, 0);
        (n, m + n >= cs.len())
    } else {
        lemma_run_len_ends_differs(cs, m);
        let r = lemma_sibling_drawn(cs, m + n, c, prefix);
        assert(occurs_in(rest, whole)) by {
            assert(whole.subrange(head.len() as int, whole.len() as int) =~= rest);
            lemma_occurs_at(rest, whole, head.len() as int);
        }
        lemma_occurs_trans(tree_lines(cs[c], r.0, r.1, prefix), rest, whole);
        r
    }
}

/// The sibling after a run differs from the run.
proof fn lemma_run_len_ends_differs(cs: Seq<TraceTree>, m: int)
    requires
        0 <= m < cs.len(),
    ensures
        m + run_len(cs, m) < cs.len() ==> cs[m + run_len(cs, m) - 1] != cs[m + run_len(cs, m)],
    decreases cs.len() - m,
{
    if m + 1 < cs.len() && cs[m + 1] == cs[m] {
        lemma_run_len_ends_differs(cs, m + 1);
    }
}

/// Some drawing of the subtree at `path` occurs in every drawing of `t`.
proof fn lemma_subtree_drawn(t: TraceTree, path: Seq<int>, count: nat, is_last: bool, prefix: Seq<char>) -> (r: (
    nat,
    bool,
    Seq<char>,
))
    requires
        valid_path(t, path),
    ensures
        occurs_in(tree_lines(subtree_at(t, path), r.0, r.1, r.2), tree_lines(t, count, is_last, prefix)),
    decreases path.len(),
{
    let whole = tree_lines(t, count, is_last, prefix);
    if path.len() == 0 {
        assert(whole.subrange(0, whole.len() as int) =~= whole);
        lemma_occurs_at(whole, whole, 0);
        (count, is_last, prefix)
    } else {
        let cs = t.children;
        let below = prefix + indent(is_last);
        let c = path[0];
        let groups = group_lines(cs, 0, below);
        assert(whole == seq![tree_line(prefix, is_last, count, t.location)] + groups);
        let (n, l) = lemma_sibling_drawn(cs, 0, c, below);
        let r = lemma_subtree_drawn(cs[c], path.drop_first(), n, l, below);
        assert(subtree_at(t, path) == subtree_at(cs[c], path.drop_first()));
        assert(occurs_in(groups, whole)) by {
            assert(whole.subrange(1, whole.len() as int) =~= groups);
            lemma_occurs_at(groups, whole, 1);
        }
        lemma_occurs_trans(
            tree_lines(subtree_at(t, path), r.0, r.1, r.2),
            tree_lines(cs[c], n, l, below),
            groups,
        );
        lemma_occurs_trans(tree_lines(subtree_at(t, path), r.0, r.1, r.2), groups, whole);
        r
    }
}

/// At any depth of a task's tree, a maximal run of `k` identical sibling
/// subtrees is drawn once, labelled with `k`: the drawing of the whole task
/// (what [`Frame::fmt`] renders, its lines joined) holds, one after the
/// other, the lines of the first of the run as `k` subtrees and then the
/// lines of the siblings after the run, below the `prefix` returned.
pub proof fn lemma_fmt_run_drawn_once(forest: &Forest, id: usize, path: Seq<int>, i: int, k: int) -> (prefix: Seq<char>)
    requires
        forest.wf(),
        forest@.frames.contains_key(id),
        valid_path(forest.tree(id), path),
        0 <= i,
        k >= 1,
        i + k <= subtree_at(forest.tree(id), path).children.len(),
        forall|m: int|
            i <= m < i + k ==> #[trigger] subtree_at(forest.tree(id), path).children[m] == subtree_at(
                forest.tree(id),
                path,
            ).children[i],
        i + k == subtree_at(forest.tree(id), path).children.len() || subtree_at(
            forest.tree(id),
            path,
        ).children[i + k] != subtree_at(forest.tree(id), path).children[i],
        i == 0 || subtree_at(forest.tree(id), path).children[i - 1] != subtree_at(
            forest.tree(id),
            path,
        ).children[i],
    ensures
        occurs_in(
            tree_lines(
                subtree_at(forest.tree(id), path).children[i],
                k as nat,
                i + k == subtree_at(forest.tree(id), path).children.len(),
                prefix,
            ) + group_lines(subtree_at(forest.tree(id), path).children, i + k, prefix),
            task_lines(forest.tree(id), true),
        ),
{
    let t = forest.tree(id);
    let node = subtree_at(t, path);
    let cs = node.children;
    let (n, l, pre) = lemma_subtree_drawn(t, path, 1, true, "  "@);
    let below = pre + indent(l);
    let drawn = tree_lines(node, n, l, pre);
    let groups = group_lines(cs, 0, below);
    assert(drawn == seq![tree_line(pre, l, n, node.location)] + groups);
    lemma_run_drawn_once(cs, i, k, below);
    let run = tree_lines(cs[i], k as nat, i + k == cs.len(), below) + group_lines(cs, i + k, below);
    assert(occurs_in(run, groups)) by {
        let s = groups.len() - run.len();
        assert(groups.subrange(s, s + run.len()) =~= run);
        lemma_occurs_at(run, groups, s);
    }
    assert(occurs_in(groups, drawn)) by {
        assert(drawn.subrange(1, drawn.len() as int) =~= groups);
        lemma_occurs_at(groups, drawn, 1);
    }
    lemma_occurs_trans(run, groups, drawn);
    lemma_occurs_trans(run, drawn, task_lines(t, true));
    below
}

} // verus!

verus! {

/// Whether `line` begins with `p`.
pub open spec fn starts_with(line: Seq<char>, p: Seq<char>) -> bool {
    p.len() <= line.len() && line.subrange(0, p.len() as int) == p
}

proof fn lemma_starts_with_trans(line: Seq<char>, q: Seq<char>, p: Seq<char>)
    requires
        starts_with(line, q),
        starts_with(q, p),
    ensures
        starts_with(line, p),
{
    assert(line.subrange(0, p.len() as int) =~= q.subrange(0, p.len() as int));
}

/// Every line of the drawing of `t` below `prefix` starts with the prefix
/// without its first three characters.
proof fn lemma_tree_lines_start(t: TraceTree, count: nat, is_last: bool, prefix: Seq<char>)
    requires
        prefix.len() >= 3,
    ensures
        forall|k: int|
            0 <= k < tree_lines(t, count, is_last, prefix).len() ==> starts_with(
                #[trigger] tree_lines(t, count, is_last, prefix)[k],
                prefix.skip(3),
            ),
    decreases t, 0int,
{
    let below = prefix + indent(is_last);
    let first = tree_line(prefix, is_last, count, t.location);
    let rest = group_lines(t.children, 0, below);
    let ls = tree_lines(t, count, is_last, prefix);
    assert(ls == seq![first] + rest);
    assert(first.subrange(0, prefix.len() - 3) =~= prefix.skip(3));
    lemma_group_lines_start(t.children, 0, below);
    assert(starts_with(below.skip(3), prefix.skip(3))) by {
        assert(below.skip(3).subrange(0, prefix.len() - 3) =~= prefix.skip(3));
    }
    assert forall|k: int| 0 <= k < ls.len() implies starts_with(#[trigger] ls[k], prefix.skip(3)) by {
        if k > 0 {
            assert(ls[k] == rest[k - 1]);
            lemma_starts_with_trans(rest[k - 1], below.skip(3), prefix.skip(3));
        }
    }
}

/// Every line of the drawing of the siblings `cs[i..]` below `prefix`
/// starts with the prefix without its first three characters.
proof fn lemma_group_lines_start(cs: Seq<TraceTree>, i: int, prefix: Seq<char>)
    requires
        prefix.len() >= 3,
    ensures
        forall|k: int|
            0 <= k < group_lines(cs, i, prefix).len() ==> starts_with(
                #[trigger] group_lines(cs, i, prefix)[k],
                prefix.skip(3),
            ),
    decreases cs, cs.len() - i,
{
    if 0 <= i < cs.len() {
        let n = run_len(cs, i);
        lemma_run_len_bounds(cs, i);
        let head = tree_lines(cs[i], n, i + n >= cs.len(), prefix);
        let tail = group_lines(cs, i + n, prefix);
        let ls = group_lines(cs, i, prefix);
        assert(ls == head + tail);
        lemma_tree_lines_start(cs[i], n, i + n >= cs.len(), prefix);
        lemma_group_lines_start(cs, i + n, prefix);
        assert forall|k: int| 0 <= k < ls.len() implies starts_with(#[trigger] ls[k], prefix.skip(3)) by {
            if k < head.len() {
                assert(ls[k] == head[k]);
            } else {
                assert(ls[k] == tail[k - head.len()]);
            }
        }
    }
}

/// Below a frame's own line, every line of the frames under it is indented
/// one level deeper than the frame: behind a bar `│` while siblings are drawn
/// after the frame, behind blanks when it is the last.
pub proof fn lemma_subframes_indented(t: TraceTree, count: nat, is_last: bool, prefix: Seq<char>)
    ensures
        forall|k: int|
            1 <= k < tree_lines(t, count, is_last, prefix).len() ==> starts_with(
                #[trigger] tree_lines(t, count, is_last, prefix)[k],
                (prefix + (if is_last {
                    "   "@
                } else {
                    "│  "@
                })).skip(3),
            ),
{
    reveal_strlit("   ");
    reveal_strlit("│  ");
    let below = prefix + indent(is_last);
    assert(below == prefix + (if is_last {
        "   "@
    } else {
        "│  "@
    }));
    let ls = tree_lines(t, count, is_last, prefix);
    let rest = group_lines(t.children, 0, below);
    assert(ls == seq![tree_line(prefix, is_last, count, t.location)] + rest);
    lemma_group_lines_start(t.children, 0, below);
    assert forall|k: int| 1 <= k < ls.len() implies starts_with(#[trigger] ls[k], below.skip(3)) by {
        assert(ls[k] == rest[k - 1]);
    }
}

/// A backtrace holds one location per frame from `id` up to the root of its
/// task, in that order: the location of `id` first and that of the task's
/// root last.
pub proof fn lemma_backtrace_locations(forest: &Forest, id: usize)
    requires
        forest.wf(),
        forest@.frames.contains_key(id),
    ensures
        frame_locations(forest@, forest.ancestors_of(id)).len() == forest.ancestors_of(id).len(),
        forall|k: int|
            0 <= k < forest.ancestors_of(id).len() ==> #[trigger] frame_locations(
                forest@,
                forest.ancestors_of(id),
            )[k] == forest@.frames[forest.ancestors_of(id)[k]].location,
        frame_locations(forest@, forest.ancestors_of(id))[0] == forest@.frames[id].location,
        frame_locations(forest@, forest.ancestors_of(id)).last() == forest@.frames[forest.ancestors_of(
            id,
        ).last()].location,
        forest@.frames[forest.ancestors_of(id).last()].parent is None,
{
    forest.lemma_ancestors(id);
}

} // verus!
