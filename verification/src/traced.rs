//! A computation together with the frame that stands for it in task dumps.
use vstd::prelude::*;

use crate::frame::{Forest, Frame, TaskBusy};
use crate::location::Location;

verus! {

/// Includes the wrapped computation `F` in task dumps.
pub struct Traced<F> {
    future: F,
    frame: Frame,
    polled: bool,
}

impl<F> Traced<F> {
    /// The wrapped computation.
    pub closed spec fn inner(self) -> F {
        self.future
    }

    /// The frame of this computation.
    pub closed spec fn frame_of(self) -> Frame {
        self.frame
    }

    /// Whether this computation has been activated at least once.
    pub closed spec fn was_polled(self) -> bool {
        self.polled
    }

    /// Include the given `future` in task dumps with the given `location`.
    pub fn new(future: F, location: Location) -> (t: Self)
        ensures
            t.inner() == future,
            t.frame_of().location_view() == location@,
            t.frame_of().attached_slot() is None,
            !t.was_polled(),
    {
        Self { future, frame: Frame::new(location), polled: false }
    }

    /// Activates the frame of this computation before it is polled, with
    /// `active` the frame active at that moment (see [`Frame::activate`]).
    pub fn activate(&mut self, forest: &mut Forest, active: Option<usize>) -> (r: Result<
        usize,
        TaskBusy,
    >)
        requires
            old(forest).wf(),
            old(self).frame_of().attached_slot() matches Some(id) ==> old(forest)@.frames.contains_key(id),
            active matches Some(a) ==> old(forest)@.frames.contains_key(a),
        ensures
            final(forest).wf(),
            final(self).was_polled(),
            final(self).inner() == old(self).inner(),
            final(self).frame_of().location_view() == old(self).frame_of().location_view(),
            final(self).frame_of().attached_slot() is Some,
            ({
                let id = final(self).frame_of().attached_slot()->0;
                let mid = if old(self).frame_of().attached_slot() is None {
                    old(forest)@.attached(id, old(self).frame_of().location_view(), active)
                } else {
                    old(forest)@
                };
                &&& old(self).frame_of().attached_slot() is Some ==> final(self).frame_of().attached_slot()
                    == old(self).frame_of().attached_slot()
                &&& old(self).frame_of().attached_slot() is None ==> !old(forest)@.frames.contains_key(id)
                &&& (r is Err <==> mid.frames[id].parent is None && mid.frames[id].locked)
                &&& r is Err ==> final(forest)@ == mid
                &&& r is Ok ==> r == Ok::<usize, TaskBusy>(id) && final(forest)@ == (if mid.frames[
                    id].parent is None {
                    mid.with_lock(id, true)
                } else {
                    mid
                })
            }),
    {
        self.polled = true;
        self.frame.activate(forest, active)
    }

    /// The wrapped computation, to be polled.
    pub fn future_mut(&mut self) -> (f: &mut F)
        ensures
            *f == old(self).inner(),
            final(self).inner() == *final(f),
            final(self).frame_of() == old(self).frame_of(),
            final(self).was_polled() == old(self).was_polled(),
    {
        &mut self.future
    }

    /// The frame of this computation.
    pub fn frame(&self) -> (f: &Frame)
        ensures
            *f == self.frame_of(),
    {
        &self.frame
    }

    /// Takes the frame of this computation out of the forest as the
    /// computation goes away (see [`Frame::release`]).
    pub fn release(&mut self, forest: &mut Forest)
        requires
            old(forest).wf(),
            old(self).frame_of().attached_slot() matches Some(id) ==> old(forest)@.frames.contains_key(id)
                && old(forest)@.frames[id].children.len() == 0,
        ensures
            final(forest).wf(),
            final(forest)@ == (match old(self).frame_of().attached_slot() {
                None => old(forest)@,
                Some(id) => old(forest)@.detached(id),
            }),
            final(self).frame_of().attached_slot() is None,
            final(self).inner() == old(self).inner(),
    {
        self.frame.release(forest);
    }
}

} // verus!
