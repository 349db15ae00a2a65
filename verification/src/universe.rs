//! A snapshot of the universe at one time index, and one step from a snapshot to the next.
//!
//! The arithmetic of a step is the caller's: `attract` says what one interaction makes of
//! two bodies, `advance` what the passing of time makes of one. The engine decides which
//! bodies meet, in which order, and what is kept.

use crate::body::{between, blind, clones_are_equal, copy_of, outcomes, pairs_swept, same_bodies};
use crate::body::{same_ids, single_valued, within};
use crate::body::{lemma_copy_is_the_list, lemma_pairs_swept_blind, lemma_pairs_swept_single_valued};
use crate::body::{lemma_rows_swept_ids, lemma_rows_swept_within};
use crate::body::{BodyId, BodyList, PairRule};
use vstd::prelude::*;

verus! {

/// The bodies of the universe at one time index, the gravitational constant in effect,
/// and whether a user's edit made this snapshot what it is.
#[derive(Debug)]
pub struct Universe<B, S> {
    pub bodies: BodyList<B>,
    pub gravity: S,
    pub changed: bool,
}

/// What the passing of one step may make of a body: the relation holds of the body
/// before and the body after.
pub type BodyRule<B> = spec_fn(B, B) -> bool;

/// The rule under which two bodies become whatever `attract` may return for them under
/// the constant `gravity` over the time `dt`.
pub open spec fn attraction<B, S, F: Fn(S, &B, &B, S) -> (B, B)>(attract: F, gravity: S, dt: S) -> PairRule<B> {
    |ia: BodyId, a: B, ib: BodyId, b: B, r: (B, B)| call_ensures(attract, (gravity, &a, &b, dt), r)
}

/// The rule under which a body becomes whatever `advance` may return for it over the
/// time `dt`.
pub open spec fn motion<B, S, G: Fn(&B, S) -> B>(advance: G, dt: S) -> BodyRule<B> {
    |a: B, r: B| call_ensures(advance, (&a, dt), r)
}

/// `rule` allows one outcome for one body.
pub open spec fn single_motion<B>(rule: BodyRule<B>) -> bool {
    forall|a: B, r1: B, r2: B| #![trigger rule(a, r1), rule(a, r2)] rule(a, r1) && rule(a, r2) ==> r1 == r2
}

/// `after` has the identities of `before`, each with its body changed as `rule` allows.
pub open spec fn each_moved<B>(rule: BodyRule<B>, before: Seq<(BodyId, B)>, after: Seq<(BodyId, B)>) -> bool {
    &&& same_ids(before, after)
    &&& forall|k: int| 0 <= k < before.len() ==> rule(before[k].1, (#[trigger] after[k]).1)
}

/// One step: every pair of distinct bodies interacts once under `pull`, in ascending
/// order, and then every body moves under `drift`.
pub open spec fn stepped<B>(
    pull: PairRule<B>,
    drift: BodyRule<B>,
    before: Seq<(BodyId, B)>,
    after: Seq<(BodyId, B)>,
) -> bool {
    exists|mid: Seq<(BodyId, B)>| #[trigger]
        between(mid) && pairs_swept(pull, before, mid) && each_moved(drift, mid, after)
}

/// A step keeps the identities of the bodies.
pub proof fn lemma_step_keeps_ids<B>(
    pull: PairRule<B>,
    drift: BodyRule<B>,
    before: Seq<(BodyId, B)>,
    after: Seq<(BodyId, B)>,
)
    requires
        stepped(pull, drift, before, after),
    ensures
        same_ids(before, after),
{
    let mid = choose|mid: Seq<(BodyId, B)>| #[trigger]
        between(mid) && pairs_swept(pull, before, mid) && each_moved(drift, mid, after);
    lemma_rows_swept_ids(pull, before, mid, before.len() as int);
    assert forall|k: int| 0 <= k < before.len() implies (#[trigger] after[k]).0 == before[k].0 by {
        assert(mid[k].0 == before[k].0);
    }
}

/// A step is a function of the snapshot and the rules: where an interaction and a
/// motion each have one outcome, two steps from the same bodies end in the same bodies.
pub proof fn lemma_step_deterministic<B>(
    pull: PairRule<B>,
    drift: BodyRule<B>,
    before: Seq<(BodyId, B)>,
    first: Seq<(BodyId, B)>,
    second: Seq<(BodyId, B)>,
)
    requires
        single_valued(pull),
        single_motion(drift),
        stepped(pull, drift, before, first),
        stepped(pull, drift, before, second),
    ensures
        first == second,
{
    let m1 = choose|mid: Seq<(BodyId, B)>| #[trigger]
        between(mid) && pairs_swept(pull, before, mid) && each_moved(drift, mid, first);
    let m2 = choose|mid: Seq<(BodyId, B)>| #[trigger]
        between(mid) && pairs_swept(pull, before, mid) && each_moved(drift, mid, second);
    lemma_pairs_swept_single_valued(pull, before, m1, m2);
    assert forall|k: int| 0 <= k < first.len() implies first[k] == second[k] by {
        assert(drift(m1[k].1, first[k].1));
        assert(drift(m1[k].1, second[k].1));
    }
    assert(first =~= second);
}

/// A step does not depend on identities: where an interaction and a motion each have one
/// outcome and the interaction does not look at identities, the same bodies in the same
/// places step to the same bodies.
pub proof fn lemma_step_ignores_identities<B>(
    pull: PairRule<B>,
    drift: BodyRule<B>,
    before: Seq<(BodyId, B)>,
    after: Seq<(BodyId, B)>,
    other_before: Seq<(BodyId, B)>,
    other_after: Seq<(BodyId, B)>,
)
    requires
        single_valued(pull),
        blind(pull),
        single_motion(drift),
        same_bodies(before, other_before),
        stepped(pull, drift, before, after),
        stepped(pull, drift, other_before, other_after),
    ensures
        same_bodies(after, other_after),
{
    let m1 = choose|mid: Seq<(BodyId, B)>| #[trigger]
        between(mid) && pairs_swept(pull, before, mid) && each_moved(drift, mid, after);
    let m2 = choose|mid: Seq<(BodyId, B)>| #[trigger]
        between(mid) && pairs_swept(pull, other_before, mid) && each_moved(drift, mid, other_after);
    lemma_pairs_swept_blind(pull, before, m1, other_before, m2);
    assert forall|k: int| 0 <= k < after.len() implies (#[trigger] after[k]).1 == other_after[k].1 by {
        assert(m1[k].1 == m2[k].1);
        assert(drift(m1[k].1, after[k].1));
        assert(drift(m2[k].1, other_after[k].1));
    }
}

/// The rule of `attract` does not look at identities: they are not handed to it.
pub proof fn lemma_attraction_is_blind<B, S, F: Fn(S, &B, &B, S) -> (B, B)>(attract: F, gravity: S, dt: S)
    ensures
        blind(attraction::<B, S, F>(attract, gravity, dt)),
{
}

impl<B, S: Copy> Universe<B, S> {
    /// The store of bodies is in order.
    pub open spec fn wf(&self) -> bool {
        self.bodies.wf()
    }

    /// `next` is what one step over `dt` may make of this snapshot: the bodies stepped,
    /// the constant kept, and the mark of an edit as `changed` says.
    pub open spec fn steps_to<F: Fn(S, &B, &B, S) -> (B, B), G: Fn(&B, S) -> B>(
        &self,
        next: &Self,
        dt: S,
        attract: F,
        advance: G,
        changed: bool,
    ) -> bool {
        &&& stepped(attraction(attract, self.gravity, dt), motion(advance, dt), self.bodies@, next.bodies@)
        &&& next.gravity == self.gravity
        &&& next.changed == changed
    }

    /// An empty universe under the constant `gravity`. It is marked as changed: nothing
    /// earlier exists from which it could be computed.
    pub fn new(gravity: S) -> (universe: Self)
        ensures
            universe.bodies@ == Seq::<(BodyId, B)>::empty(),
            universe.gravity == gravity,
            universe.changed,
            universe.wf(),
    {
        Universe { bodies: BodyList::new(), gravity, changed: true }
    }

    /// Works one step of `dt` on this snapshot, in place: every pair of distinct bodies
    /// interacts once through `attract`, under this snapshot's constant, and then every
    /// body moves through `advance`. The constant and the mark of an edit stay.
    fn advance_in_place<F: Fn(S, &B, &B, S) -> (B, B), G: Fn(&B, S) -> B>(&mut self, dt: S, attract: &F, advance: &G)
        requires
            forall|g: S, a: &B, b: &B, d: S| attract.requires((g, a, b, d)),
            forall|a: &B, d: S| advance.requires((a, d)),
        ensures
            old(self).steps_to(final(self), dt, *attract, *advance, old(self).changed),
            same_ids(old(self).bodies@, final(self).bodies@),
            old(self).wf() ==> final(self).wf(),
    {
        let gravity = self.gravity;
        let ghost start = self.bodies@;
        let pull = |ia: BodyId, a: &B, ib: BodyId, b: &B| -> (r: (B, B))
            ensures
                call_ensures(*attract, (gravity, a, b, dt), r),
            { attract(gravity, a, b, dt) };
        self.bodies.iter_mut_pairs(pull);
        let ghost mid = self.bodies@;
        proof {
            assert(within(outcomes(pull), attraction(*attract, gravity, dt)));
            lemma_rows_swept_within(
                outcomes(pull),
                attraction(*attract, gravity, dt),
                start,
                mid,
                start.len() as int,
            );
        }
        let ghost fin = final(self).bodies@;
        let mut items = self.bodies.iter_mut();
        while items.len() > 0
            invariant
                forall|a: &B, d: S| advance.requires((a, d)),
                items.len() <= mid.len(),
                fin.len() == mid.len(),
                forall|q: int| 0 <= q < items.len() ==> (#[trigger] items[q]).0 == mid[q].0 && *items[q].1 == mid[q].1,
                forall|q: int| 0 <= q < items.len() ==> #[trigger] fin[q] == (mid[q].0, *final(items[q].1)),
                forall|q: int|
                    items.len() <= q < mid.len() ==> (#[trigger] fin[q]).0 == mid[q].0 && call_ensures(
                        *advance,
                        (&mid[q].1, dt),
                        fin[q].1,
                    ),
            decreases items.len(),
        {
            let ghost before = items@;
            let last = items.pop();
            match last {
                Some((_, body)) => {
                    let moved = advance(&*body, dt);
                    *body = moved;
                },
                None => {},
            }
            proof {
                assert forall|q: int| 0 <= q < items.len() implies (#[trigger] items[q]).0 == mid[q].0
                    && *items[q].1 == mid[q].1 && fin[q] == (mid[q].0, *final(items[q].1)) by {
                    assert(items[q] == before[q]);
                }
            }
        }
        proof {
            assert(each_moved(motion(*advance, dt), mid, fin));
            assert(between(mid));
        }
    }
}

/// `copy` is a copy of `origin` for the next computation: the same identities with each
/// body cloned, the same constant, and no mark of an edit.
pub open spec fn is_copy<B: Clone, S>(origin: Universe<B, S>, copy: Universe<B, S>) -> bool {
    &&& copy_of(origin.bodies@, copy.bodies@)
    &&& copy.gravity == origin.gravity
    &&& !copy.changed
}

impl<B: Clone, S: Copy> Clone for Universe<B, S> {
    /// A copy for the next computation: the same identities with each body cloned, the
    /// same constant, and no mark of an edit.
    fn clone(&self) -> (universe: Self)
        ensures
            is_copy(*self, universe),
            self.wf() ==> universe.wf(),
    {
        Universe { bodies: self.bodies.clone(), gravity: self.gravity, changed: false }
    }
}

impl<B: Clone, S: Copy> Universe<B, S> {
    /// `next` is what one step over `dt` may make of a copy of this snapshot.
    pub open spec fn leads_to<F: Fn(S, &B, &B, S) -> (B, B), G: Fn(&B, S) -> B>(
        &self,
        next: &Self,
        dt: S,
        attract: F,
        advance: G,
    ) -> bool {
        exists|copy: Self| #[trigger] is_copy(*self, copy) && copy.steps_to(next, dt, attract, advance, false)
    }

    /// Where a clone of a body is the body, a snapshot computed on a copy of this one is
    /// one step after this one.
    pub proof fn lemma_leads_to_is_a_step<F: Fn(S, &B, &B, S) -> (B, B), G: Fn(&B, S) -> B>(
        self,
        next: Self,
        dt: S,
        attract: F,
        advance: G,
    )
        requires
            clones_are_equal::<B>(),
            self.leads_to(&next, dt, attract, advance),
        ensures
            self.steps_to(&next, dt, attract, advance, false),
    {
        let copy = choose|copy: Self| #[trigger] is_copy(self, copy) && copy.steps_to(&next, dt, attract, advance, false);
        lemma_copy_is_the_list(self.bodies@, copy.bodies@);
    }

    /// A step is a function of the snapshot and the step size. Where a clone of a body is
    /// the body and `attract` and `advance` each return one result for one input, any two
    /// snapshots that a step may make of this one have the same bodies under the same
    /// identities, the same constant and the same mark: nothing else goes into a step.
    pub proof fn lemma_step_is_a_function<F: Fn(S, &B, &B, S) -> (B, B), G: Fn(&B, S) -> B>(
        self,
        first: Self,
        second: Self,
        dt: S,
        attract: F,
        advance: G,
    )
        requires
            clones_are_equal::<B>(),
            single_valued(attraction(attract, self.gravity, dt)),
            single_motion(motion(advance, dt)),
            self.leads_to(&first, dt, attract, advance),
            self.leads_to(&second, dt, attract, advance),
        ensures
            first.bodies@ == second.bodies@,
            first.gravity == second.gravity,
            first.changed == second.changed,
    {
        let c1 = choose|copy: Self| #[trigger] is_copy(self, copy) && copy.steps_to(&first, dt, attract, advance, false);
        let c2 = choose|copy: Self| #[trigger] is_copy(self, copy) && copy.steps_to(&second, dt, attract, advance, false);
        lemma_copy_is_the_list(self.bodies@, c1.bodies@);
        lemma_copy_is_the_list(self.bodies@, c2.bodies@);
        lemma_step_deterministic(
            attraction(attract, self.gravity, dt),
            motion(advance, dt),
            self.bodies@,
            first.bodies@,
            second.bodies@,
        );
    }

    /// A step does not depend on identities, and issues none. Where a clone of a body is
    /// the body and `attract` and `advance` each return one result for one input, two
    /// snapshots that hold the same bodies in the same places under the same constant,
    /// under whatever identities, step to snapshots that hold the same bodies in the same
    /// places. Each keeps its own identities.
    pub proof fn lemma_identities_do_not_matter<F: Fn(S, &B, &B, S) -> (B, B), G: Fn(&B, S) -> B>(
        self,
        other: Self,
        next: Self,
        other_next: Self,
        dt: S,
        attract: F,
        advance: G,
    )
        requires
            clones_are_equal::<B>(),
            single_valued(attraction(attract, self.gravity, dt)),
            single_motion(motion(advance, dt)),
            same_bodies(self.bodies@, other.bodies@),
            self.gravity == other.gravity,
            self.leads_to(&next, dt, attract, advance),
            other.leads_to(&other_next, dt, attract, advance),
        ensures
            same_bodies(next.bodies@, other_next.bodies@),
            same_ids(self.bodies@, next.bodies@),
            same_ids(other.bodies@, other_next.bodies@),
            next.gravity == other_next.gravity,
            next.changed == other_next.changed,
    {
        let c1 = choose|copy: Self| #[trigger] is_copy(self, copy) && copy.steps_to(&next, dt, attract, advance, false);
        let c2 = choose|copy: Self| #[trigger]
            is_copy(other, copy) && copy.steps_to(&other_next, dt, attract, advance, false);
        lemma_copy_is_the_list(self.bodies@, c1.bodies@);
        lemma_copy_is_the_list(other.bodies@, c2.bodies@);
        let pull = attraction(attract, self.gravity, dt);
        let drift = motion(advance, dt);
        lemma_attraction_is_blind::<B, S, F>(attract, self.gravity, dt);
        lemma_step_ignores_identities(pull, drift, self.bodies@, next.bodies@, other.bodies@, other_next.bodies@);
        lemma_step_keeps_ids(pull, drift, self.bodies@, next.bodies@);
        lemma_step_keeps_ids(pull, drift, other.bodies@, other_next.bodies@);
    }

    /// The snapshot one step of `dt` after this one. It is computed on a copy: every pair
    /// of distinct bodies interacts once through `attract`, under this snapshot's
    /// constant, in ascending order of identity, and then every body moves through
    /// `advance`. This snapshot stays as it is, whatever its mark, and the new one is not
    /// marked as changed: it was computed, not edited.
    pub fn step<F: Fn(S, &B, &B, S) -> (B, B), G: Fn(&B, S) -> B>(&self, dt: S, attract: &F, advance: &G) -> (next: Self)
        requires
            forall|g: S, a: &B, b: &B, d: S| attract.requires((g, a, b, d)),
            forall|a: &B, d: S| advance.requires((a, d)),
        ensures
            self.leads_to(&next, dt, *attract, *advance),
            same_ids(self.bodies@, next.bodies@),
            next.gravity == self.gravity,
            !next.changed,
            self.wf() ==> next.wf(),
    {
        let mut next = self.clone();
        let ghost copy = next;
        next.advance_in_place(dt, attract, advance);
        proof {
            assert(is_copy(*self, copy) && copy.steps_to(&next, dt, *attract, *advance, false));
            assert forall|k: int| 0 <= k < self.bodies@.len() implies (#[trigger] next.bodies@[k]).0
                == self.bodies@[k].0 by {
                assert(copy.bodies@[k].0 == self.bodies@[k].0);
            }
        }
        next
    }
}

} // verus!
