//! The history of snapshots, one per step, from the start of the simulation.
//!
//! A timeline is never empty, and its first snapshot is always marked as changed: it is
//! where the simulation starts, and nothing exists from which it could be computed again.

use crate::body::BodyList;
use crate::universe::Universe;
use vstd::prelude::*;

verus! {

/// The snapshots of a simulation in order of time, index 0 being its start.
#[derive(Debug)]
pub struct Timeline<B, S> {
    states: Vec<Universe<B, S>>,
}

impl<B, S> View for Timeline<B, S> {
    type V = Seq<Universe<B, S>>;

    closed spec fn view(&self) -> Seq<Universe<B, S>> {
        self.states@
    }
}

/// `u` marked as made by an edit.
pub open spec fn marked<B, S>(u: Universe<B, S>) -> Universe<B, S> {
    Universe { bodies: u.bodies, gravity: u.gravity, changed: true }
}

/// Every snapshot of `s` has its bodies in order.
pub open spec fn all_wf<B, S: Copy>(s: Seq<Universe<B, S>>) -> bool {
    forall|i: int| 0 <= i < s.len() ==> (#[trigger] s[i]).wf()
}

/// `s` up to and with `index`, the snapshot at `index` marked as changed.
pub open spec fn cut_after<B, S>(s: Seq<Universe<B, S>>, index: int) -> Seq<Universe<B, S>> {
    s.take(index + 1).update(index, marked(s[index]))
}

/// `s` from `index` on, the snapshot at `index` marked as changed.
pub open spec fn cut_before<B, S>(s: Seq<Universe<B, S>>, index: int) -> Seq<Universe<B, S>> {
    s.skip(index).update(0, marked(s[index]))
}

/// `Vec::shrink_to_fit`, which gives back capacity that the vector does not use. The
/// contract claims that the elements stay as they are.
#[verifier::external_body]
fn shrink_to_fit<T>(v: &mut Vec<T>)
    ensures
        final(v)@ == old(v)@,
{
    v.shrink_to_fit();
}

impl<B, S: Copy> Timeline<B, S> {
    /// The timeline has a start, the start is marked as changed, and every snapshot has
    /// its bodies in order.
    pub open spec fn wf(&self) -> bool {
        &&& self@.len() >= 1
        &&& self@[0].changed
        &&& all_wf(self@)
    }

    /// The timeline that starts at `start`, which it marks as changed.
    pub fn new(start: Universe<B, S>) -> (timeline: Self)
        requires
            start.wf(),
        ensures
            timeline.wf(),
            timeline@ == seq![marked(start)],
    {
        let mut start = start;
        start.changed = true;
        let mut states: Vec<Universe<B, S>> = Vec::new();
        states.push(start);
        Timeline { states }
    }

    /// How many snapshots the timeline holds.
    pub fn len(&self) -> (n: usize)
        ensures
            n == self@.len(),
    {
        self.states.len()
    }

    /// The snapshot at `index`.
    pub fn get(&self, index: usize) -> (universe: &Universe<B, S>)
        requires
            index < self@.len(),
        ensures
            *universe == self@[index as int],
    {
        &self.states[index]
    }

    /// The latest snapshot.
    pub fn last(&self) -> (universe: &Universe<B, S>)
        requires
            self@.len() >= 1,
        ensures
            *universe == self@.last(),
    {
        &self.states[self.states.len() - 1]
    }

    /// The bodies of the snapshot at `index`, to be edited in place. Nothing else of the
    /// timeline changes.
    pub fn bodies_mut(&mut self, index: usize) -> (bodies: &mut BodyList<B>)
        requires
            index < old(self)@.len(),
        ensures
            *bodies == old(self)@[index as int].bodies,
            final(self)@ == old(self)@.update(
                index as int,
                Universe {
                    bodies: *final(bodies),
                    gravity: old(self)@[index as int].gravity,
                    changed: old(self)@[index as int].changed,
                },
            ),
    {
        &mut self.states[index].bodies
    }

    /// Sets the gravitational constant of the snapshot at `index`.
    pub fn set_gravity(&mut self, index: usize, gravity: S)
        requires
            index < old(self)@.len(),
        ensures
            final(self)@ == old(self)@.update(
                index as int,
                Universe {
                    bodies: old(self)@[index as int].bodies,
                    gravity,
                    changed: old(self)@[index as int].changed,
                },
            ),
            old(self).wf() ==> final(self).wf(),
    {
        self.states[index].gravity = gravity;
    }

    /// Puts `snapshot` at the end of the timeline, as it is.
    pub fn append(&mut self, snapshot: Universe<B, S>)
        requires
            old(self).wf(),
            snapshot.wf(),
        ensures
            final(self).wf(),
            final(self)@ == old(self)@.push(snapshot),
    {
        self.states.push(snapshot);
    }

    /// Moves every snapshot of `produced` to the end of the timeline, in order, and
    /// leaves `produced` empty.
    pub fn append_all(&mut self, produced: &mut Vec<Universe<B, S>>)
        requires
            old(self).wf(),
            all_wf(old(produced)@),
        ensures
            final(self).wf(),
            final(self)@ == old(self)@ + old(produced)@,
            final(produced)@ == Seq::<Universe<B, S>>::empty(),
    {
        self.states.append(produced);
    }

    /// Drops every snapshot after `index` and marks the one at `index` as changed: what
    /// came after it is stale once it has been edited. The earlier snapshots stay as
    /// they are.
    pub fn truncate_after(&mut self, index: usize)
        requires
            old(self).wf(),
            index < old(self)@.len(),
        ensures
            final(self).wf(),
            final(self)@ == cut_after(old(self)@, index as int),
            final(self)@.len() == index + 1,
            forall|i: int| 0 <= i < index ==> #[trigger] final(self)@[i] == old(self)@[i],
            final(self)@[index as int] == marked(old(self)@[index as int]),
    {
        proof {
            assert(self.states.len() <= usize::MAX);
        }
        self.states[index].changed = true;
        self.states.truncate(index + 1);
        shrink_to_fit(&mut self.states);
        proof {
            assert(self@ =~= cut_after(old(self)@, index as int));
        }
    }

    /// Drops every snapshot before `index`, so that the one at `index` becomes the start
    /// of the timeline, and marks it as changed. The later snapshots stay as they are.
    pub fn discard_before(&mut self, index: usize)
        requires
            old(self).wf(),
            index < old(self)@.len(),
        ensures
            final(self).wf(),
            final(self)@ == cut_before(old(self)@, index as int),
            final(self)@.len() == old(self)@.len() - index,
            forall|i: int| 0 < i < old(self)@.len() - index ==> #[trigger] final(self)@[i] == old(self)@[index + i],
            final(self)@[0] == marked(old(self)@[index as int]),
    {
        let mut kept = self.states.split_off(index);
        kept[0].changed = true;
        shrink_to_fit(&mut kept);
        self.states = kept;
        proof {
            assert(self@ =~= cut_before(old(self)@, index as int));
        }
    }
}

} // verus!
