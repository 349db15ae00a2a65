//! The consumer's view of a simulation, the state it shares with the producer of future
//! snapshots, and what each of the two does to that state when it holds it.
//!
//! The producer computes one snapshot at a time from its working snapshot and offers it.
//! The consumer, once per frame, either takes what has been produced into the timeline or,
//! where the present snapshot was edited, cuts the timeline there and seeds the producer
//! anew. Locking, waiting and waking are the caller's; the decisions are here.

use crate::body::{clones_are_equal, lemma_copy_is_the_list, BodyId};
use crate::timeline::{all_wf, cut_after, Timeline};
use crate::universe::{is_copy, Universe};
use vstd::prelude::*;

verus! {

/// How many steps ahead of the present a new world has computed for it.
pub const DEFAULT_HORIZON: usize = 20000;

/// What the consumer and the producer share.
#[derive(Debug)]
pub struct GenerationState<B, S> {
    /// The snapshot from which production starts anew, until the producer has taken it.
    pub initial_state: Option<Universe<B, S>>,
    /// What the producer has computed and the consumer has not yet taken, in order.
    pub new_states: Vec<Universe<B, S>>,
    /// How many snapshots `new_states` is to hold at most.
    pub states_buffer_size: usize,
    /// The step size in effect.
    pub step_size: S,
}

/// What the producer does next.
#[derive(Debug)]
pub enum ProducerAction<S> {
    /// Nothing is to be computed: wait to be woken.
    Wait,
    /// Compute one step from the working snapshot with this step size, and offer the
    /// result.
    Compute(S),
}

/// The consumer's side of a simulation: the timeline, the present index into it, and how
/// far ahead of the present the producer is to compute.
#[derive(Debug)]
pub struct World<B, S> {
    pub states: Timeline<B, S>,
    /// The lookahead horizon: how many steps are to be computed ahead of the present.
    pub gen_future: usize,
    /// The present: the index of the snapshot that is shown and edited.
    pub current_state: usize,
    pub step_size: S,
    /// Whether the present snapshot was edited since the consumer last took its turn.
    pub current_state_modified: bool,
}

/// How many snapshots the producer is to hold ready: the horizon less what the timeline
/// already holds from the present on, and nothing where that is more than the horizon.
pub open spec fn buffer_target(horizon: usize, length: nat, present: nat) -> nat {
    if horizon >= length - present {
        (horizon - (length - present)) as nat
    } else {
        0
    }
}

/// Every snapshot of `t` after the first that is not marked as changed is one step of
/// `dt` after the snapshot before it.
pub open spec fn in_step<B, S: Copy, F: Fn(S, &B, &B, S) -> (B, B), G: Fn(&B, S) -> B>(
    t: Seq<Universe<B, S>>,
    dt: S,
    attract: F,
    advance: G,
) -> bool {
    forall|i: int|
        #![trigger t[i]]
        1 <= i < t.len() && !t[i].changed ==> t[i - 1].steps_to(&t[i], dt, attract, advance, false)
}

/// The buffer continues the timeline that ends in `last`: each snapshot of `buffer` is
/// one step of `dt` after the one before it, the first after `last`, none is marked as
/// changed, and the producer's working snapshot holds what the last of them holds.
pub open spec fn continues<B, S: Copy, F: Fn(S, &B, &B, S) -> (B, B), G: Fn(&B, S) -> B>(
    last: Universe<B, S>,
    buffer: Seq<Universe<B, S>>,
    working: Option<Universe<B, S>>,
    dt: S,
    attract: F,
    advance: G,
) -> bool {
    let line = seq![last] + buffer;
    &&& forall|i: int|
        #![trigger line[i]]
        1 <= i < line.len() ==> line[i - 1].steps_to(&line[i], dt, attract, advance, false)
    &&& working is Some
    &&& working.unwrap().bodies@ == line.last().bodies@
    &&& working.unwrap().gravity == line.last().gravity
}

impl<B: Clone, S: Copy> GenerationState<B, S> {
    /// Every snapshot in the shared state has its bodies in order.
    pub open spec fn wf(&self) -> bool {
        &&& self.initial_state matches Some(seed) ==> seed.wf()
        &&& all_wf(self.new_states@)
    }

    /// The producer's output is taken: no seed is waiting and the buffer is below its
    /// target.
    pub open spec fn accepts(&self) -> bool {
        self.initial_state is None && self.new_states@.len() < self.states_buffer_size
    }

    /// What the producer does next when it works from `working`: it computes where it
    /// has a working snapshot and the buffer is below its target, and waits otherwise.
    pub open spec fn task(&self, working: Option<Universe<B, S>>) -> ProducerAction<S> {
        if self.new_states@.len() >= self.states_buffer_size || working is None {
            ProducerAction::Wait
        } else {
            ProducerAction::Compute(self.step_size)
        }
    }

    /// `after` and `kept` are what the producer's turn without an offer makes of this
    /// state and of the working snapshot `working`: a seed, if one is waiting, becomes
    /// the working snapshot and the buffer is emptied; nothing else changes.
    pub open spec fn polled(&self, working: Option<Universe<B, S>>, after: &Self, kept: Option<Universe<B, S>>) -> bool {
        &&& after.initial_state is None
        &&& after.states_buffer_size == self.states_buffer_size
        &&& after.step_size == self.step_size
        &&& self.initial_state is Some ==> kept == self.initial_state && after.new_states@ == Seq::<
            Universe<B, S>,
        >::empty()
        &&& self.initial_state is None ==> kept == working && after.new_states@ == self.new_states@
    }

    /// `after` and `kept` are what the producer's turn with the offer of `produced` makes
    /// of this state and of the working snapshot `working`. Where the offer is taken, a
    /// copy of `produced` is the new end of the buffer and `produced` the working
    /// snapshot. Where a seed is waiting, the buffer is emptied and the seed is the
    /// working snapshot. Otherwise nothing changes.
    pub open spec fn offered(
        &self,
        working: Option<Universe<B, S>>,
        produced: Universe<B, S>,
        after: &Self,
        kept: Option<Universe<B, S>>,
    ) -> bool {
        &&& after.initial_state is None
        &&& after.states_buffer_size == self.states_buffer_size
        &&& after.step_size == self.step_size
        &&& self.accepts() ==> kept == Some(produced) && after.new_states@.len() == self.new_states@.len() + 1
            && after.new_states@.drop_last() == self.new_states@ && is_copy(
            produced,
            after.new_states@.last(),
        )
        &&& self.initial_state is Some ==> kept == self.initial_state && after.new_states@ == Seq::<
            Universe<B, S>,
        >::empty()
        &&& self.initial_state is None && !self.accepts() ==> kept == working && after.new_states@
            == self.new_states@
    }

    /// A seed that the producer has taken is what the next output comes from. After the
    /// producer's turn on a state with a seed, the working snapshot is the seed and the
    /// buffer is empty; where the producer then offers what it computed from its working
    /// snapshot, the buffer holds at most that: a copy of a snapshot one step after the
    /// seed. Nothing computed before the seed is left.
    pub proof fn lemma_first_output_follows_seed<F: Fn(S, &B, &B, S) -> (B, B), G: Fn(&B, S) -> B>(
        seeded: Self,
        working: Option<Universe<B, S>>,
        taken: Self,
        adopted: Option<Universe<B, S>>,
        attract: F,
        advance: G,
        produced: Universe<B, S>,
        after: Self,
        kept: Option<Universe<B, S>>,
    )
        requires
            seeded.initial_state is Some,
            seeded.polled(working, &taken, adopted),
            adopted is Some,
            adopted.unwrap().leads_to(&produced, taken.step_size, attract, advance),
            taken.offered(adopted, produced, &after, kept),
        ensures
            adopted == seeded.initial_state,
            taken.new_states@.len() == 0,
            after.new_states@.len() <= 1,
            after.new_states@.len() == 1 ==> is_copy(produced, after.new_states@[0])
                && seeded.initial_state.unwrap().leads_to(&produced, seeded.step_size, attract, advance),
    {
    }

    /// An output that meets a waiting seed is dropped: after the offer the buffer is
    /// empty and the working snapshot is the seed.
    pub proof fn lemma_stale_output_is_dropped(
        seeded: Self,
        working: Option<Universe<B, S>>,
        stale: Universe<B, S>,
        after: Self,
        kept: Option<Universe<B, S>>,
    )
        requires
            seeded.initial_state is Some,
            seeded.offered(working, stale, &after, kept),
        ensures
            after.new_states@.len() == 0,
            kept == seeded.initial_state,
    {
    }

    /// A seed that the producer takes starts the buffer anew at the end of the timeline.
    /// Where a clone of a body is the body and the seed is a copy of the last snapshot
    /// of the timeline, after the producer's turn the buffer continues the timeline: it
    /// is empty, and the working snapshot holds what that last snapshot holds.
    pub proof fn lemma_seed_starts_at_the_timeline<F: Fn(S, &B, &B, S) -> (B, B), G: Fn(&B, S) -> B>(
        seeded: Self,
        last: Universe<B, S>,
        working: Option<Universe<B, S>>,
        taken: Self,
        adopted: Option<Universe<B, S>>,
        attract: F,
        advance: G,
    )
        requires
            clones_are_equal::<B>(),
            seeded.initial_state is Some,
            is_copy(last, seeded.initial_state.unwrap()),
            seeded.polled(working, &taken, adopted),
        ensures
            continues(last, taken.new_states@, adopted, taken.step_size, attract, advance),
            taken.step_size == seeded.step_size,
    {
        lemma_copy_is_the_list(last.bodies@, seeded.initial_state.unwrap().bodies@);
        assert(seq![last] + taken.new_states@ =~= seq![last]);
    }

    /// The producer's turn keeps the buffer a continuation of the timeline. Where a clone
    /// of a body is the body, no seed is waiting, the buffer continues the timeline that
    /// ends in `last`, and `produced` was computed by one step from the working snapshot
    /// with the step size in effect, the buffer after the offer continues that timeline
    /// too: step by step, in order, with nothing left out and nothing twice.
    pub proof fn lemma_offer_continues_the_timeline<F: Fn(S, &B, &B, S) -> (B, B), G: Fn(&B, S) -> B>(
        before: Self,
        last: Universe<B, S>,
        working: Option<Universe<B, S>>,
        attract: F,
        advance: G,
        produced: Universe<B, S>,
        after: Self,
        kept: Option<Universe<B, S>>,
    )
        requires
            clones_are_equal::<B>(),
            before.initial_state is None,
            continues(last, before.new_states@, working, before.step_size, attract, advance),
            working.unwrap().leads_to(&produced, before.step_size, attract, advance),
            before.offered(working, produced, &after, kept),
        ensures
            continues(last, after.new_states@, kept, after.step_size, attract, advance),
            after.new_states@.len() == before.new_states@.len() || (after.new_states@.len()
                == before.new_states@.len() + 1 && after.new_states@.drop_last() == before.new_states@),
    {
        let dt = before.step_size;
        if before.accepts() {
            let line = seq![last] + before.new_states@;
            let grown = seq![last] + after.new_states@;
            let copy = after.new_states@.last();
            let w = working.unwrap();
            w.lemma_leads_to_is_a_step(produced, dt, attract, advance);
            lemma_copy_is_the_list(produced.bodies@, copy.bodies@);
            assert(after.new_states@ =~= before.new_states@.push(copy));
            assert(grown =~= line.push(copy));
            assert forall|i: int| #![trigger grown[i]] 1 <= i < grown.len() implies grown[i - 1].steps_to(
                &grown[i],
                dt,
                attract,
                advance,
                false,
            ) by {
                if i < line.len() {
                    assert(grown[i] == line[i]);
                    assert(grown[i - 1] == line[i - 1]);
                } else {
                    assert(grown[i - 1] == line.last());
                    assert(grown[i] == copy);
                }
            }
        }
    }

    /// The producer's turn without an offer, where no seed is waiting, leaves the buffer
    /// the continuation of the timeline that it was.
    pub proof fn lemma_poll_keeps_the_buffer<F: Fn(S, &B, &B, S) -> (B, B), G: Fn(&B, S) -> B>(
        before: Self,
        last: Universe<B, S>,
        working: Option<Universe<B, S>>,
        attract: F,
        advance: G,
        after: Self,
        kept: Option<Universe<B, S>>,
    )
        requires
            before.initial_state is None,
            continues(last, before.new_states@, working, before.step_size, attract, advance),
            before.polled(working, &after, kept),
        ensures
            continues(last, after.new_states@, kept, after.step_size, attract, advance),
    {
    }

    /// The producer's turn when it has nothing to offer. A seed, if one is waiting,
    /// becomes the working snapshot and everything produced before is dropped. Then the
    /// producer computes if it has a working snapshot and the buffer is below its target,
    /// and waits otherwise.
    pub fn next_task(&mut self, working: &mut Option<Universe<B, S>>) -> (action: ProducerAction<S>)
        requires
            old(self).wf(),
            *old(working) matches Some(w) ==> w.wf(),
        ensures
            final(self).wf(),
            *final(working) matches Some(w) ==> w.wf(),
            old(self).polled(*old(working), final(self), *final(working)),
            action == final(self).task(*final(working)),
    {
        let seed = self.initial_state.take();
        match seed {
            Some(s) => {
                self.new_states.clear();
                *working = Some(s);
            },
            None => {},
        }
        if self.new_states.len() >= self.states_buffer_size || working.is_none() {
            ProducerAction::Wait
        } else {
            ProducerAction::Compute(self.step_size)
        }
    }

    /// The producer's turn when it has computed `produced`. Where no seed is waiting and
    /// the buffer is below its target, a copy of `produced` goes to the end of the buffer
    /// and `produced` becomes the working snapshot. Otherwise `produced` is dropped: it is
    /// stale, or no longer wanted. The turn then goes on as in `next_task`.
    pub fn offer(&mut self, working: &mut Option<Universe<B, S>>, produced: Universe<B, S>) -> (action: ProducerAction<S>)
        requires
            old(self).wf(),
            *old(working) matches Some(w) ==> w.wf(),
            produced.wf(),
        ensures
            final(self).wf(),
            *final(working) matches Some(w) ==> w.wf(),
            old(self).offered(*old(working), produced, final(self), *final(working)),
            action == final(self).task(*final(working)),
    {
        if self.initial_state.is_none() && self.new_states.len() < self.states_buffer_size {
            let copy = produced.clone();
            self.new_states.push(copy);
            *working = Some(produced);
            proof {
                assert(self.new_states@.drop_last() =~= old(self).new_states@);
            }
        }
        self.next_task(working)
    }
}

impl<B: Clone, S: Copy> World<B, S> {
    /// The timeline is in order and the present lies in it.
    pub open spec fn wf(&self) -> bool {
        &&& self.states.wf()
        &&& self.current_state < self.states@.len()
    }

    /// `after` and `shared_after` are what the consumer's turn makes of this world and of
    /// the shared state `shared`. Where the present was edited, the timeline is cut after
    /// it and a copy of it is the seed, with this world's step size; what is in the
    /// buffer stays there. Otherwise the buffer is moved to the end of the timeline.
    /// Either way the buffer's target is what the horizon still asks for, and nothing
    /// else of the world changes.
    pub open spec fn took_turn(&self, shared: &GenerationState<B, S>, after: &Self, shared_after: &GenerationState<B, S>) -> bool {
        &&& after.current_state == self.current_state
        &&& after.gen_future == self.gen_future
        &&& after.step_size == self.step_size
        &&& after.current_state_modified == self.current_state_modified
        &&& shared_after.states_buffer_size == buffer_target(
            self.gen_future,
            after.states@.len(),
            self.current_state as nat,
        )
        &&& self.current_state_modified ==> {
            &&& after.states@ == cut_after(self.states@, self.current_state as int)
            &&& shared_after.initial_state matches Some(seed) && is_copy(after.states@.last(), seed)
            &&& shared_after.new_states@ == shared.new_states@
            &&& shared_after.step_size == self.step_size
        }
        &&& !self.current_state_modified ==> {
            &&& after.states@ == self.states@ + shared.new_states@
            &&& shared_after.initial_state == shared.initial_state
            &&& shared_after.new_states@ == Seq::<Universe<B, S>>::empty()
            &&& shared_after.step_size == shared.step_size
        }
    }

    /// An edit of the present reaches the timeline through the producer, and nothing
    /// else does. The consumer takes its turn on an edited present; the producer takes
    /// the seed, computes one step from it and offers the result; the consumer takes its
    /// turn again, with no new edit. Then the timeline is the one cut at the edit,
    /// followed by at most one snapshot: a copy of what the producer computed from its
    /// copy of the edited present, with the world's step size. Whatever was in the
    /// buffer before is gone.
    pub proof fn lemma_edit_reaches_the_timeline<F: Fn(S, &B, &B, S) -> (B, B), G: Fn(&B, S) -> B>(
        edited: Self,
        shared: GenerationState<B, S>,
        cut: Self,
        seeded: GenerationState<B, S>,
        working: Option<Universe<B, S>>,
        taken: GenerationState<B, S>,
        adopted: Option<Universe<B, S>>,
        attract: F,
        advance: G,
        produced: Universe<B, S>,
        offered: GenerationState<B, S>,
        kept: Option<Universe<B, S>>,
        unedited: Self,
        drained: Self,
        emptied: GenerationState<B, S>,
    )
        requires
            edited.wf(),
            edited.current_state_modified,
            edited.took_turn(&shared, &cut, &seeded),
            seeded.polled(working, &taken, adopted),
            adopted is Some ==> adopted.unwrap().leads_to(&produced, taken.step_size, attract, advance),
            taken.offered(adopted, produced, &offered, kept),
            unedited.states == cut.states,
            unedited.current_state == cut.current_state,
            unedited.gen_future == cut.gen_future,
            !unedited.current_state_modified,
            unedited.took_turn(&offered, &drained, &emptied),
        ensures
            cut.states@ == cut_after(edited.states@, edited.current_state as int),
            adopted is Some,
            is_copy(cut.states@.last(), adopted.unwrap()),
            taken.step_size == edited.step_size,
            drained.states@ == cut.states@ || (drained.states@.len() == cut.states@.len() + 1
                && drained.states@.drop_last() == cut.states@ && is_copy(produced, drained.states@.last())),
            emptied.new_states@.len() == 0,
    {
        if taken.accepts() {
            assert(drained.states@.drop_last() =~= cut.states@);
        } else {
            assert(cut.states@ + offered.new_states@ =~= cut.states@);
        }
    }

    /// A drain keeps the timeline in step. The consumer takes its turn with no edit of
    /// the present. Where every snapshot of the timeline that is not marked as changed is
    /// one step after the one before it, and the buffer continues the timeline, the same
    /// holds of the grown timeline: it is the old one followed by the whole buffer in
    /// order, so every time index up to its end occurs once, none is skipped and none is
    /// doubled. The buffer is then empty and still continues the timeline.
    pub proof fn lemma_drain_keeps_the_timeline_in_step<F: Fn(S, &B, &B, S) -> (B, B), G: Fn(&B, S) -> B>(
        before: Self,
        shared: GenerationState<B, S>,
        working: Option<Universe<B, S>>,
        dt: S,
        attract: F,
        advance: G,
        after: Self,
        shared_after: GenerationState<B, S>,
    )
        requires
            before.wf(),
            !before.current_state_modified,
            in_step(before.states@, dt, attract, advance),
            continues(before.states@.last(), shared.new_states@, working, dt, attract, advance),
            before.took_turn(&shared, &after, &shared_after),
        ensures
            in_step(after.states@, dt, attract, advance),
            after.states@ == before.states@ + shared.new_states@,
            after.states@.len() == before.states@.len() + shared.new_states@.len(),
            continues(after.states@.last(), shared_after.new_states@, working, dt, attract, advance),
    {
        let held = before.states@;
        let line = seq![held.last()] + shared.new_states@;
        let grown = after.states@;
        assert forall|i: int| #![trigger grown[i]] 1 <= i < grown.len() && !grown[i].changed implies grown[i
            - 1].steps_to(&grown[i], dt, attract, advance, false) by {
            if i < held.len() {
                assert(grown[i] == held[i]);
                assert(grown[i - 1] == held[i - 1]);
            } else {
                let k = i - held.len() + 1;
                assert(line[k] == grown[i]);
                assert(line[k - 1] == grown[i - 1]);
            }
        }
        assert(grown.last() == line.last());
        assert(seq![grown.last()] + shared_after.new_states@ =~= seq![grown.last()]);
    }

    /// An edit keeps the past in step. The consumer takes its turn on an edited present.
    /// Where every snapshot before the present that is not marked as changed is one step
    /// after the one before it, the same holds of the whole timeline after the turn,
    /// which ends in the present, now marked as changed; and the seed left for the
    /// producer is a copy of it.
    pub proof fn lemma_edit_keeps_the_past_in_step<F: Fn(S, &B, &B, S) -> (B, B), G: Fn(&B, S) -> B>(
        before: Self,
        shared: GenerationState<B, S>,
        dt: S,
        attract: F,
        advance: G,
        after: Self,
        shared_after: GenerationState<B, S>,
    )
        requires
            before.wf(),
            before.current_state_modified,
            in_step(before.states@.take(before.current_state as int), dt, attract, advance),
            before.took_turn(&shared, &after, &shared_after),
        ensures
            in_step(after.states@, dt, attract, advance),
            after.states@.len() == before.current_state + 1,
            after.states@.last().changed,
            shared_after.initial_state is Some,
            is_copy(after.states@.last(), shared_after.initial_state.unwrap()),
            shared_after.step_size == before.step_size,
    {
        let held = before.states@;
        let past = held.take(before.current_state as int);
        let cut = after.states@;
        assert forall|i: int| #![trigger cut[i]] 1 <= i < cut.len() && !cut[i].changed implies cut[i
            - 1].steps_to(&cut[i], dt, attract, advance, false) by {
            assert(i < before.current_state);
            assert(cut[i] == past[i]);
            assert(cut[i - 1] == past[i - 1]);
        }
    }

    /// A world whose timeline is the empty universe under the constant `gravity`, with
    /// the present at its start, and the shared state that seeds the producer with a copy
    /// of that start.
    pub fn new(step_size: S, gravity: S) -> (made: (Self, GenerationState<B, S>))
        ensures
            made.0.wf(),
            made.1.wf(),
            made.0.states@.len() == 1,
            made.0.states@[0].bodies@ == Seq::<(BodyId, B)>::empty(),
            made.0.states@[0].gravity == gravity,
            made.0.states@[0].changed,
            made.0.current_state == 0,
            made.0.gen_future == DEFAULT_HORIZON,
            made.0.step_size == step_size,
            !made.0.current_state_modified,
            made.1.initial_state matches Some(seed) && is_copy(made.0.states@[0], seed),
            made.1.new_states@ == Seq::<Universe<B, S>>::empty(),
            made.1.states_buffer_size == DEFAULT_HORIZON - 1,
            made.1.step_size == step_size,
    {
        let start: Universe<B, S> = Universe::new(gravity);
        let states = Timeline::new(start);
        let seed = states.last().clone();
        let generation = GenerationState {
            initial_state: Some(seed),
            new_states: Vec::new(),
            states_buffer_size: DEFAULT_HORIZON.saturating_sub(states.len()),
            step_size,
        };
        let world = World {
            states,
            gen_future: DEFAULT_HORIZON,
            current_state: 0,
            step_size,
            current_state_modified: false,
        };
        (world, generation)
    }

    /// The present snapshot.
    pub fn state(&self) -> (universe: &Universe<B, S>)
        requires
            self.wf(),
        ensures
            *universe == self.states@[self.current_state as int],
    {
        self.states.get(self.current_state)
    }

    /// Moves the present forward by `steps`, or to the end of the timeline where that
    /// comes first, and returns by how many steps it moved.
    pub fn move_time(&mut self, steps: usize) -> (taken: usize)
        requires
            old(self).wf(),
        ensures
            final(self).wf(),
            taken == if steps <= old(self).states@.len() - 1 - old(self).current_state {
                steps as int
            } else {
                old(self).states@.len() - 1 - old(self).current_state
            },
            final(self).current_state == old(self).current_state + taken,
            final(self).states == old(self).states,
            final(self).gen_future == old(self).gen_future,
            final(self).step_size == old(self).step_size,
            final(self).current_state_modified == old(self).current_state_modified,
    {
        let room = self.states.len() - 1 - self.current_state;
        let taken = if steps <= room {
            steps
        } else {
            room
        };
        self.current_state = self.current_state + taken;
        taken
    }

    /// The consumer's turn, once per frame, while it holds the shared state.
    ///
    /// Where the present snapshot was edited, the timeline is cut after it, the present
    /// is marked as changed, and a copy of it is left as the seed from which the producer
    /// starts anew, with the world's step size. Otherwise everything produced is moved to
    /// the end of the timeline, in order. Either way the buffer's target is set to what
    /// the horizon still asks for.
    pub fn gen_future(&mut self, generation: &mut GenerationState<B, S>)
        requires
            old(self).wf(),
            old(generation).wf(),
        ensures
            final(self).wf(),
            final(generation).wf(),
            old(self).took_turn(old(generation), final(self), final(generation)),
    {
        if self.current_state_modified {
            self.states.truncate_after(self.current_state);
            generation.step_size = self.step_size;
            generation.states_buffer_size = self.gen_future.saturating_sub(
                self.states.len() - self.current_state,
            );
            generation.initial_state = Some(self.states.last().clone());
        } else {
            self.states.append_all(&mut generation.new_states);
            generation.states_buffer_size = self.gen_future.saturating_sub(
                self.states.len() - self.current_state,
            );
        }
    }
}

} // verus!
