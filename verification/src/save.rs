//! What of a world is kept when it is saved, and how a world is rebuilt from it.
//!
//! Only the snapshots that an edit made are kept, each with its index in the timeline;
//! the others are computed again, step by step, when the world is rebuilt. Bodies are kept
//! under the numbers of their identities. A rebuilt world issues a new identity for each
//! number, the same one wherever the number occurs.

use crate::body::{holds, index_of, lookup, BodyId, BodyList, IdRegistry};
use crate::timeline::Timeline;
use crate::universe::{is_copy, Universe};
use crate::world::{buffer_target, GenerationState, World, DEFAULT_HORIZON};
use std::collections::BTreeMap;
use vstd::prelude::*;

verus! {

/// A snapshot as it is kept: its index in the timeline, its constant, and its bodies
/// under the numbers of their identities.
#[derive(Debug)]
pub struct SavedUniverse<B, S> {
    pub index: usize,
    pub gravity: S,
    pub bodies: Vec<(usize, B)>,
}

/// A world as it is kept: the horizon, the present, the step size, and the snapshots
/// that an edit made, in order of time.
#[derive(Debug)]
pub struct Save<B, S> {
    pub gen_future: usize,
    pub current_state: usize,
    pub step_size: S,
    pub states: Vec<SavedUniverse<B, S>>,
}

/// Why a world cannot be rebuilt from what was kept.
#[derive(Debug, Clone, Copy, PartialEq, Eq, Structural)]
pub enum LoadError {
    /// No snapshot was kept, or the first one kept is not the start of the timeline.
    MissingStart,
    /// A snapshot's index is not above the index of the one before it.
    OutOfOrder,
    /// A snapshot holds two bodies under one number.
    DuplicateBody,
}

/// The first snapshot kept is the start of the timeline.
pub open spec fn starts_at_zero<B, S>(saved: Seq<SavedUniverse<B, S>>) -> bool {
    saved.len() > 0 && saved[0].index == 0
}

/// The indices of the snapshots grow strictly.
pub open spec fn increasing<B, S>(saved: Seq<SavedUniverse<B, S>>) -> bool {
    forall|j: int, k: int| 0 <= j < k < saved.len() ==> (#[trigger] saved[j]).index < (#[trigger] saved[k]).index
}

/// No number occurs twice among `bodies`.
pub open spec fn distinct_keys<B>(bodies: Seq<(usize, B)>) -> bool {
    forall|i: int, j: int| 0 <= i < j < bodies.len() ==> (#[trigger] bodies[i]).0 != (#[trigger] bodies[j]).0
}

/// In every snapshot, no number occurs twice.
pub open spec fn all_distinct<B, S>(saved: Seq<SavedUniverse<B, S>>) -> bool {
    forall|k: int| 0 <= k < saved.len() ==> distinct_keys((#[trigger] saved[k]).bodies@)
}

/// What is wrong with `saved`, if anything: a missing start comes before an index out of
/// order, and that before a body kept twice.
pub open spec fn load_fault<B, S>(saved: Seq<SavedUniverse<B, S>>) -> Option<LoadError> {
    if !starts_at_zero(saved) {
        Some(LoadError::MissingStart)
    } else if !increasing(saved) {
        Some(LoadError::OutOfOrder)
    } else if !all_distinct(saved) {
        Some(LoadError::DuplicateBody)
    } else {
        None
    }
}

/// The indices of the snapshots of `states` that are marked as changed, in order.
pub open spec fn changed_at<B, S>(states: Seq<Universe<B, S>>) -> Seq<int>
    decreases states.len(),
{
    if states.len() == 0 {
        Seq::empty()
    } else if states.last().changed {
        changed_at(states.drop_last()).push(states.len() - 1)
    } else {
        changed_at(states.drop_last())
    }
}

/// `record` keeps the snapshot `u` as the one at `index`: the same constant, and each
/// body cloned, under the number of its identity, in the order of the identities.
pub open spec fn records<B: Clone, S>(u: Universe<B, S>, index: int, record: SavedUniverse<B, S>) -> bool {
    &&& record.index == index
    &&& record.gravity == u.gravity
    &&& record.bodies@.len() == u.bodies@.len()
    &&& forall|i: int|
        0 <= i < u.bodies@.len() ==> (#[trigger] record.bodies@[i]).0 == u.bodies@[i].0@ && cloned(
            u.bodies@[i].1,
            record.bodies@[i].1,
        )
}

/// `saved` keeps exactly the snapshots of `states` that are marked as changed, in order.
pub open spec fn keeps_changed<B: Clone, S>(states: Seq<Universe<B, S>>, saved: Seq<SavedUniverse<B, S>>) -> bool {
    &&& saved.len() == changed_at(states).len()
    &&& forall|k: int|
        0 <= k < saved.len() ==> records(states[changed_at(states)[k]], changed_at(states)[k], #[trigger] saved[k])
}

/// The indices that `changed_at` lists lie in the sequence.
pub proof fn lemma_changed_at_in_range<B, S>(states: Seq<Universe<B, S>>)
    ensures
        forall|k: int| 0 <= k < changed_at(states).len() ==> 0 <= #[trigger] changed_at(states)[k] < states.len(),
    decreases states.len(),
{
    if states.len() > 0 {
        let prev = states.drop_last();
        lemma_changed_at_in_range(prev);
        assert forall|k: int| 0 <= k < changed_at(states).len() implies 0 <= #[trigger] changed_at(
            states,
        )[k] < states.len() by {
            if k < changed_at(prev).len() {
                assert(changed_at(states)[k] == changed_at(prev)[k]);
            }
        }
    }
}

impl<B: Clone, S: Copy> SavedUniverse<B, S> {
    /// Keeps the snapshot `universe` as the one at `index`.
    pub fn of(universe: &Universe<B, S>, index: usize) -> (record: Self)
        ensures
            records(*universe, index as int, record),
    {
        let items = universe.bodies.iter();
        let mut bodies: Vec<(usize, B)> = Vec::new();
        let mut i: usize = 0;
        while i < items.len()
            invariant
                i <= items.len(),
                items.len() == universe.bodies@.len(),
                bodies.len() == i,
                forall|k: int|
                    0 <= k < universe.bodies@.len() ==> (#[trigger] items[k]).0 == universe.bodies@[k].0
                        && *items[k].1 == universe.bodies@[k].1,
                forall|k: int|
                    0 <= k < i ==> (#[trigger] bodies[k]).0 == universe.bodies@[k].0@ && cloned(
                        universe.bodies@[k].1,
                        bodies[k].1,
                    ),
            decreases items.len() - i,
        {
            let id = items[i].0;
            let body = items[i].1.clone();
            bodies.push((id.get_id(), body));
            i += 1;
        }
        SavedUniverse { index, gravity: universe.gravity, bodies }
    }
}

impl<B, S> Save<B, S> {
    /// What is wrong with what was kept, if anything.
    pub fn fault(&self) -> (r: Option<LoadError>)
        ensures
            r == load_fault(self.states@),
    {
        let n = self.states.len();
        if n == 0 {
            return Some(LoadError::MissingStart);
        }
        if self.states[0].index != 0 {
            return Some(LoadError::MissingStart);
        }
        let mut k: usize = 1;
        while k < n
            invariant
                1 <= k <= n,
                n == self.states@.len(),
                starts_at_zero(self.states@),
                forall|i: int, j: int|
                    0 <= i < j < k ==> (#[trigger] self.states@[i]).index < (#[trigger] self.states@[j]).index,
            decreases n - k,
        {
            if self.states[k - 1].index >= self.states[k].index {
                proof {
                    assert(!(self.states@[k - 1].index < self.states@[k as int].index));
                    assert(!increasing(self.states@));
                }
                return Some(LoadError::OutOfOrder);
            }
            proof {
                assert forall|i: int, j: int| 0 <= i < j < k + 1 implies (#[trigger] self.states@[i]).index
                    < (#[trigger] self.states@[j]).index by {
                    if j == k && i < k - 1 {
                        assert(self.states@[i].index < self.states@[k - 1].index);
                    }
                }
            }
            k += 1;
        }
        let mut e: usize = 0;
        while e < n
            invariant
                e <= n,
                n == self.states@.len(),
                starts_at_zero(self.states@),
                increasing(self.states@),
                forall|m: int| 0 <= m < e ==> distinct_keys((#[trigger] self.states@[m]).bodies@),
            decreases n - e,
        {
            let bodies = &self.states[e].bodies;
            let mut j: usize = 0;
            while j < bodies.len()
                invariant
                    j <= bodies.len(),
                    e < n,
                    n == self.states@.len(),
                    bodies@ == self.states@[e as int].bodies@,
                    starts_at_zero(self.states@),
                    increasing(self.states@),
                    forall|a: int, b: int| 0 <= a < b < j ==> (#[trigger] bodies@[a]).0 != (#[trigger] bodies@[b]).0,
                decreases bodies.len() - j,
            {
                let mut i: usize = 0;
                while i < j
                    invariant
                        i <= j < bodies.len(),
                        e < n,
                        n == self.states@.len(),
                        bodies@ == self.states@[e as int].bodies@,
                        starts_at_zero(self.states@),
                        increasing(self.states@),
                        forall|a: int| 0 <= a < i ==> (#[trigger] bodies@[a]).0 != bodies@[j as int].0,
                    decreases j - i,
                {
                    if bodies[i].0 == bodies[j].0 {
                        proof {
                            assert(!distinct_keys(self.states@[e as int].bodies@));
                        }
                        return Some(LoadError::DuplicateBody);
                    }
                    i += 1;
                }
                j += 1;
            }
            e += 1;
        }
        None
    }
}

impl<B: Clone, S: Copy> World<B, S> {
    /// What is kept of this world when it is saved: the horizon, the present, the step
    /// size, and a record of every snapshot that is marked as changed.
    pub fn to_save(&self) -> (save: Save<B, S>)
        requires
            self.wf(),
        ensures
            save.gen_future == self.gen_future,
            save.current_state == self.current_state,
            save.step_size == self.step_size,
            keeps_changed(self.states@, save.states@),
            save.states@.len() >= 1,
            save.states@[0].index == 0,
    {
        let mut states: Vec<SavedUniverse<B, S>> = Vec::new();
        let n = self.states.len();
        let ghost all = self.states@;
        let mut i: usize = 0;
        while i < n
            invariant
                i <= n,
                n == all.len(),
                all == self.states@,
                all.len() >= 1,
                all[0].changed,
                keeps_changed(all.take(i as int), states@),
                i >= 1 ==> states@.len() >= 1 && states@[0].index == 0,
            decreases n - i,
        {
            let universe = self.states.get(i);
            proof {
                assert(all.take(i + 1).drop_last() =~= all.take(i as int));
                lemma_changed_at_in_range(all.take(i as int));
            }
            let ghost before = states@;
            if universe.changed {
                states.push(SavedUniverse::of(universe, i));
            }
            proof {
                let now = all.take(i + 1);
                let prev = all.take(i as int);
                assert forall|k: int| 0 <= k < states@.len() implies records(
                    now[changed_at(now)[k]],
                    changed_at(now)[k],
                    #[trigger] states@[k],
                ) by {
                    if k < before.len() {
                        assert(states@[k] == before[k]);
                        assert(changed_at(now)[k] == changed_at(prev)[k]);
                        assert(now[changed_at(prev)[k]] == prev[changed_at(prev)[k]]);
                    }
                }
            }
            i += 1;
        }
        proof {
            assert(all.take(n as int) =~= all);
        }
        Save {
            gen_future: self.gen_future,
            current_state: self.current_state,
            step_size: self.step_size,
            states,
        }
    }
}

/// The numbers of `bodies`, in order.
pub open spec fn keys_of<B>(bodies: Seq<(usize, B)>) -> Seq<usize> {
    Seq::new(bodies.len(), |i: int| bodies[i].0)
}

/// All the numbers in `saved`, snapshot by snapshot, in order.
pub open spec fn all_keys<B, S>(saved: Seq<SavedUniverse<B, S>>) -> Seq<usize>
    decreases saved.len(),
{
    if saved.len() == 0 {
        Seq::empty()
    } else {
        all_keys(saved.drop_last()) + keys_of(saved.last().bodies@)
    }
}

/// How many different numbers occur in `keys`.
pub open spec fn fresh_count(keys: Seq<usize>) -> nat
    decreases keys.len(),
{
    if keys.len() == 0 {
        0
    } else {
        fresh_count(keys.drop_last()) + if keys.drop_last().contains(keys.last()) {
            0nat
        } else {
            1nat
        }
    }
}

/// The place of `key` among the different numbers of `keys` in the order in which they
/// first occur, counted from 1; 0 where `key` does not occur.
pub open spec fn ordinal(keys: Seq<usize>, key: usize) -> nat
    decreases keys.len(),
{
    if keys.len() == 0 {
        0
    } else {
        let earlier = ordinal(keys.drop_last(), key);
        if earlier > 0 {
            earlier
        } else if keys.last() == key {
            fresh_count(keys)
        } else {
            0
        }
    }
}

/// Some entry of `s` has an identity with the number `number` and holds `body`.
pub open spec fn holds_under<B>(s: Seq<(BodyId, B)>, number: nat, body: B) -> bool {
    exists|p: int| 0 <= p < s.len() && (#[trigger] s[p]).0@ == number && s[p].1 == body
}

/// `u` is the snapshot rebuilt from `record`: marked as changed, with the record's
/// constant, and with each of its bodies under the identity whose number is `base` plus
/// the place of the body's number among `keys`.
pub open spec fn rebuilt_from<B, S: Copy>(record: SavedUniverse<B, S>, keys: Seq<usize>, base: nat, u: Universe<B, S>) -> bool {
    &&& u.changed
    &&& u.gravity == record.gravity
    &&& u.wf()
    &&& u.bodies@.len() == record.bodies@.len()
    &&& forall|i: int|
        0 <= i < record.bodies@.len() ==> holds_under(
            u.bodies@,
            base + ordinal(keys, (#[trigger] record.bodies@[i]).0),
            record.bodies@[i].1,
        )
}

/// The index of the last snapshot of the timeline rebuilt from `saved` for the present
/// `present`: the later of the present and the last snapshot kept.
pub open spec fn last_index<B, S>(saved: Seq<SavedUniverse<B, S>>, present: usize) -> int {
    if saved.last().index >= present {
        saved.last().index as int
    } else {
        present as int
    }
}

/// None of the first `k` snapshots kept has the index `i`.
pub open spec fn not_kept<B, S>(saved: Seq<SavedUniverse<B, S>>, k: int, i: int) -> bool {
    forall|m: int| 0 <= m < k ==> (#[trigger] saved[m]).index != i
}

/// `t` is the timeline rebuilt from `saved`: it reaches as far as the present and the
/// last snapshot kept, each snapshot kept stands at its index, rebuilt, and every other
/// snapshot is one step of `dt` after the one before it.
pub open spec fn rebuilt<B: Clone, S: Copy, F: Fn(S, &B, &B, S) -> (B, B), G: Fn(&B, S) -> B>(
    saved: Seq<SavedUniverse<B, S>>,
    base: nat,
    present: usize,
    dt: S,
    attract: F,
    advance: G,
    t: Seq<Universe<B, S>>,
) -> bool {
    &&& t.len() == last_index(saved, present) + 1
    &&& forall|m: int|
        0 <= m < saved.len() ==> rebuilt_from(
            #[trigger] saved[m],
            all_keys(saved),
            base,
            t[saved[m].index as int],
        )
    &&& forall|i: int|
        #![trigger t[i]]
        0 <= i < t.len() && not_kept(saved, saved.len() as int, i) ==> i > 0 && t[i - 1].leads_to(
            &t[i],
            dt,
            attract,
            advance,
        )
}

/// A number has a place exactly when it occurs, and no place is above the count.
pub proof fn lemma_ordinal_occurs(keys: Seq<usize>, key: usize)
    ensures
        (ordinal(keys, key) > 0) == keys.contains(key),
        ordinal(keys, key) <= fresh_count(keys),
    decreases keys.len(),
{
    if keys.len() > 0 {
        let prev = keys.drop_last();
        lemma_ordinal_occurs(prev, key);
        if prev.contains(key) {
            let i = choose|i: int| 0 <= i < prev.len() && prev[i] == key;
            assert(keys[i] == key);
        }
        if keys.contains(key) {
            let i = choose|i: int| 0 <= i < keys.len() && keys[i] == key;
            if i < prev.len() {
                assert(prev[i] == key);
            }
        }
        if keys.last() == key {
            assert(keys[keys.len() - 1] == key);
        }
    }
}

/// The place of a number that occurs stays when more numbers follow.
pub proof fn lemma_ordinal_stays(keys: Seq<usize>, more: Seq<usize>, key: usize)
    requires
        keys.contains(key),
    ensures
        ordinal(keys + more, key) == ordinal(keys, key),
    decreases more.len(),
{
    lemma_ordinal_occurs(keys, key);
    if more.len() == 0 {
        assert(keys + more =~= keys);
    } else {
        assert((keys + more).drop_last() =~= keys + more.drop_last());
        lemma_ordinal_stays(keys, more.drop_last(), key);
    }
}

/// More numbers never lower the count.
pub proof fn lemma_fresh_count_grows(keys: Seq<usize>, more: Seq<usize>)
    ensures
        fresh_count(keys) <= fresh_count(keys + more),
    decreases more.len(),
{
    if more.len() == 0 {
        assert(keys + more =~= keys);
    } else {
        assert((keys + more).drop_last() =~= keys + more.drop_last());
        lemma_fresh_count_grows(keys, more.drop_last());
    }
}

/// There are no more different numbers than numbers.
pub proof fn lemma_fresh_count_bound(keys: Seq<usize>)
    ensures
        fresh_count(keys) <= keys.len(),
    decreases keys.len(),
{
    if keys.len() > 0 {
        lemma_fresh_count_bound(keys.drop_last());
    }
}

/// Two numbers with the same place are the same number.
pub proof fn lemma_ordinal_tells_apart(keys: Seq<usize>, a: usize, b: usize)
    requires
        ordinal(keys, a) > 0,
        ordinal(keys, a) == ordinal(keys, b),
    ensures
        a == b,
    decreases keys.len(),
{
    if keys.len() > 0 {
        let prev = keys.drop_last();
        lemma_ordinal_occurs(prev, a);
        lemma_ordinal_occurs(prev, b);
        let ea = ordinal(prev, a);
        let eb = ordinal(prev, b);
        if ea > 0 && eb > 0 {
            lemma_ordinal_tells_apart(prev, a, b);
        }
    }
}

/// The numbers of the first `k + 1` snapshots are those of the first `k` and then those
/// of the snapshot at `k`.
pub proof fn lemma_all_keys_step<B, S>(saved: Seq<SavedUniverse<B, S>>, k: int)
    requires
        0 <= k < saved.len(),
    ensures
        all_keys(saved.take(k + 1)) == all_keys(saved.take(k)) + keys_of(saved[k].bodies@),
{
    assert(saved.take(k + 1).drop_last() =~= saved.take(k));
}

/// `table` maps exactly the numbers of `used`, each to the identity issued for it.
pub open spec fn tracks(table: Map<usize, BodyId>, used: Seq<usize>, base: nat) -> bool {
    &&& forall|key: usize| #[trigger] table.contains_key(key) == used.contains(key)
    &&& forall|key: usize| #[trigger] table.contains_key(key) ==> table[key]@ == base + ordinal(used, key)
}

/// The elements of `v` in reverse order.
fn reversed<T>(v: Vec<T>) -> (r: Vec<T>)
    ensures
        r.len() == v.len(),
        forall|i: int| 0 <= i < v.len() ==> #[trigger] r[i] == v[v.len() - 1 - i],
{
    let ghost origin = v@;
    let mut v = v;
    let mut r: Vec<T> = Vec::new();
    while v.len() > 0
        invariant
            r.len() + v.len() == origin.len(),
            v@ == origin.take(v.len() as int),
            forall|i: int| 0 <= i < r.len() ==> #[trigger] r[i] == origin[origin.len() - 1 - i],
        decreases v.len(),
    {
        let last = v.pop();
        match last {
            Some(x) => {
                r.push(x);
            },
            None => {},
        }
        proof {
            assert(v@ =~= origin.take(v.len() as int));
        }
    }
    r
}

/// Rebuilds the snapshot kept in `record`: each body goes under the identity that `table`
/// holds for its number, or under a new one, which the table then holds.
fn place<B, S: Copy>(
    record: SavedUniverse<B, S>,
    table: &mut BTreeMap<usize, BodyId>,
    registry: &mut IdRegistry,
    Ghost(used): Ghost<Seq<usize>>,
    Ghost(base): Ghost<nat>,
) -> (u: Universe<B, S>)
    requires
        tracks(old(table)@, used, base),
        old(registry).issued() == base + fresh_count(used),
        distinct_keys(record.bodies@),
        base + fresh_count(used + keys_of(record.bodies@)) <= usize::MAX,
    ensures
        tracks(final(table)@, used + keys_of(record.bodies@), base),
        final(registry).issued() == base + fresh_count(used + keys_of(record.bodies@)),
        rebuilt_from(record, used + keys_of(record.bodies@), base, u),
{
    let ghost origin = record.bodies@;
    let ghost keys = keys_of(origin);
    let gravity = record.gravity;
    let n = record.bodies.len();
    let mut pending = reversed(record.bodies);
    let mut list: BodyList<B> = BodyList::new();
    let ghost mut ids: Seq<BodyId> = Seq::empty();
    let mut done: usize = 0;
    proof {
        assert(used + keys.take(0) =~= used);
    }
    while done < n
        invariant
            done <= n,
            n == origin.len(),
            keys == keys_of(origin),
            distinct_keys(origin),
            pending.len() == n - done,
            forall|j: int| 0 <= j < pending.len() ==> #[trigger] pending[j] == origin[n - 1 - j],
            tracks(table@, used + keys.take(done as int), base),
            registry.issued() == base + fresh_count(used + keys.take(done as int)),
            base + fresh_count(used + keys) <= usize::MAX,
            list.wf(),
            list@.len() == done,
            ids.len() == done,
            forall|i: int|
                0 <= i < done ==> (#[trigger] ids[i])@ == base + ordinal(used + keys.take(done as int), keys[i])
                    && lookup(list@, ids[i]) == Some(origin[i].1),
            forall|id: BodyId| holds(list@, id) ==> exists|i: int| 0 <= i < done && #[trigger] ids[i] == id,
        decreases n - done,
    {
        let ghost cur = used + keys.take(done as int);
        let ghost next = used + keys.take(done + 1);
        let ghost before_list = list@;
        let last = pending.pop();
        let (key, body) = last.unwrap();
        proof {
            assert(key == keys[done as int]);
            assert(next =~= cur.push(key));
            assert(next.drop_last() =~= cur);
            assert(keys =~= keys.take(done + 1) + keys.skip(done + 1));
            assert(used + keys =~= next + keys.skip(done + 1));
            lemma_fresh_count_grows(next, keys.skip(done + 1));
            lemma_ordinal_occurs(cur, key);
        }
        let ghost old_table = table@;
        let known: Option<BodyId> = match table.get(&key) {
            Some(id) => Some(*id),
            None => None,
        };
        let id = match known {
            Some(id) => id,
            None => {
                let id = BodyId::next_id(registry);
                table.insert(key, id);
                id
            },
        };
        proof {
            assert(old_table.contains_key(key) == cur.contains(key));
            assert(id@ == base + ordinal(next, key));
            assert(next.contains(key)) by {
                assert(next[next.len() - 1] == key);
            }
            assert forall|k2: usize| #[trigger] table@.contains_key(k2) == next.contains(k2) by {
                assert(old_table.contains_key(k2) == cur.contains(k2));
                if cur.contains(k2) {
                    let w = choose|w: int| 0 <= w < cur.len() && cur[w] == k2;
                    assert(next[w] == k2);
                }
                if next.contains(k2) && k2 != key {
                    let w = choose|w: int| 0 <= w < next.len() && next[w] == k2;
                    assert(cur[w] == k2);
                }
            }
            assert forall|k2: usize| #[trigger] table@.contains_key(k2) implies table@[k2]@ == base + ordinal(
                next,
                k2,
            ) by {
                if k2 != key {
                    assert(old_table.contains_key(k2));
                    assert(cur.contains(k2));
                    lemma_ordinal_stays(cur, seq![key], k2);
                    assert(cur + seq![key] =~= next);
                }
            }
            assert forall|i: int| 0 <= i < done implies (#[trigger] ids[i])@ == base + ordinal(next, keys[i])
                && ids[i] != id by {
                let k2 = keys[i];
                assert(keys.take(done as int)[i] == k2);
                assert(cur[used.len() + i] == k2);
                assert(cur.contains(k2));
                lemma_ordinal_stays(cur, seq![key], k2);
                assert(cur + seq![key] =~= next);
                lemma_ordinal_occurs(cur, k2);
                if ids[i] == id {
                    lemma_ordinal_tells_apart(next, k2, key);
                    assert(origin[i].0 == origin[done as int].0);
                }
            }
            if holds(before_list, id) {
                let i = choose|i: int| 0 <= i < done && #[trigger] ids[i] == id;
            }
        }
        list.insert(id, body);
        proof {
            let earlier = ids;
            ids = ids.push(id);
            assert forall|x: BodyId| holds(list@, x) implies exists|i: int| 0 <= i < done + 1 && #[trigger] ids[i] == x by {
                if x == id {
                    assert(ids[done as int] == id);
                } else {
                    assert(lookup(list@, x) == lookup(before_list, x));
                    assert(holds(before_list, x));
                    let i = choose|i: int| 0 <= i < done && #[trigger] earlier[i] == x;
                    assert(ids[i] == earlier[i]);
                }
            }
        }
        done += 1;
    }
    proof {
        assert(keys.take(n as int) =~= keys);
        let all = used + keys;
        assert forall|i: int| 0 <= i < origin.len() implies holds_under(
            list@,
            base + ordinal(all, (#[trigger] origin[i]).0),
            origin[i].1,
        ) by {
            assert(lookup(list@, ids[i]) == Some(origin[i].1));
            let q = index_of(list@, ids[i]);
            assert(list@[q].0 == ids[i]);
        }
    }
    Universe { bodies: list, gravity, changed: true }
}

/// All the numbers of `saved` are those of its first `k` snapshots and then those of the
/// rest.
pub proof fn lemma_all_keys_split<B, S>(saved: Seq<SavedUniverse<B, S>>, k: int)
    requires
        0 <= k <= saved.len(),
    ensures
        all_keys(saved) == all_keys(saved.take(k)) + all_keys(saved.skip(k)),
    decreases saved.len() - k,
{
    if k == saved.len() {
        assert(saved.take(k) =~= saved);
        assert(saved.skip(k) =~= Seq::<SavedUniverse<B, S>>::empty());
        assert(all_keys(saved) + Seq::<usize>::empty() =~= all_keys(saved));
    } else {
        let prev = saved.drop_last();
        lemma_all_keys_split(prev, k);
        assert(prev.take(k) =~= saved.take(k));
        assert(saved.skip(k).drop_last() =~= prev.skip(k));
        let last = keys_of(saved.last().bodies@);
        assert((all_keys(saved.take(k)) + all_keys(prev.skip(k))) + last =~= all_keys(saved.take(k)) + (
        all_keys(prev.skip(k)) + last));
    }
}

/// Every number of every snapshot of `saved` is among all its numbers.
pub proof fn lemma_all_keys_has<B, S>(saved: Seq<SavedUniverse<B, S>>, m: int, i: int)
    requires
        0 <= m < saved.len(),
        0 <= i < saved[m].bodies@.len(),
    ensures
        all_keys(saved).contains(saved[m].bodies@[i].0),
    decreases saved.len(),
{
    let prev = saved.drop_last();
    let last = keys_of(saved.last().bodies@);
    let key = saved[m].bodies@[i].0;
    if m == saved.len() - 1 {
        assert(last[i] == key);
        assert(all_keys(saved)[all_keys(prev).len() + i] == key);
    } else {
        lemma_all_keys_has(prev, m, i);
        let w = choose|w: int| 0 <= w < all_keys(prev).len() && all_keys(prev)[w] == key;
        assert(all_keys(saved)[w] == key);
    }
}

/// A snapshot rebuilt with the numbers seen so far is the snapshot rebuilt with those
/// and any that follow.
pub proof fn lemma_rebuilt_from_stays<B, S: Copy>(
    saved: Seq<SavedUniverse<B, S>>,
    m: int,
    k: int,
    more: Seq<usize>,
    base: nat,
    u: Universe<B, S>,
)
    requires
        0 <= m < k <= saved.len(),
        rebuilt_from(saved[m], all_keys(saved.take(k)), base, u),
    ensures
        rebuilt_from(saved[m], all_keys(saved.take(k)) + more, base, u),
{
    let record = saved[m];
    let keys = all_keys(saved.take(k));
    assert forall|i: int| 0 <= i < record.bodies@.len() implies holds_under(
        u.bodies@,
        base + ordinal(keys + more, (#[trigger] record.bodies@[i]).0),
        record.bodies@[i].1,
    ) by {
        assert(saved.take(k)[m] == saved[m]);
        lemma_all_keys_has(saved.take(k), m, i);
        lemma_ordinal_stays(keys, more, record.bodies@[i].0);
    }
}

impl<B, S> Save<B, S> {
    /// Whether `registry` can issue an identity for every body kept, which is at least as
    /// many as a rebuilt world needs.
    pub fn fits(&self, registry: &IdRegistry) -> (ok: bool)
        ensures
            ok == (registry.issued() + all_keys(self.states@).len() <= usize::MAX),
            ok ==> registry.issued() + fresh_count(all_keys(self.states@)) <= usize::MAX,
    {
        let mut room: usize = usize::MAX - registry.issued_count();
        let mut k: usize = 0;
        proof {
            assert(all_keys(self.states@.take(0)) =~= Seq::<usize>::empty());
            lemma_fresh_count_bound(all_keys(self.states@));
        }
        while k < self.states.len()
            invariant
                k <= self.states@.len(),
                room + all_keys(self.states@.take(k as int)).len() + registry.issued() == usize::MAX,
                fresh_count(all_keys(self.states@)) <= all_keys(self.states@).len(),
            decreases self.states@.len() - k,
        {
            let count = self.states[k].bodies.len();
            proof {
                lemma_all_keys_step(self.states@, k as int);
                lemma_all_keys_split(self.states@, k + 1);
            }
            if count > room {
                return false;
            }
            room = room - count;
            k += 1;
        }
        proof {
            assert(self.states@.take(k as int) =~= self.states@);
        }
        true
    }
}

impl<B: Clone, S: Copy> World<B, S> {
    /// Rebuilds a world from what was kept of it, or says what is wrong with what was
    /// kept, in which case no identity is issued.
    ///
    /// Each snapshot kept is rebuilt at its index, with a new identity from `registry`
    /// for each number of a body, the same one wherever the number occurs. The snapshots
    /// between two that were kept, and those from the last one kept to the present, are
    /// computed step by step with the step size kept. The horizon is the one of a new
    /// world, and the shared state seeds the producer with a copy of the last snapshot.
    pub fn from_save<F: Fn(S, &B, &B, S) -> (B, B), G: Fn(&B, S) -> B>(
        save: Save<B, S>,
        registry: &mut IdRegistry,
        attract: &F,
        advance: &G,
    ) -> (r: Result<(World<B, S>, GenerationState<B, S>), LoadError>)
        requires
            forall|g: S, a: &B, b: &B, d: S| attract.requires((g, a, b, d)),
            forall|a: &B, d: S| advance.requires((a, d)),
            old(registry).issued() + fresh_count(all_keys(save.states@)) <= usize::MAX,
        ensures
            match r {
                Err(e) => load_fault(save.states@) == Some(e) && *final(registry) == *old(registry),
                Ok(made) => {
                    &&& load_fault(save.states@) is None
                    &&& rebuilt(
                        save.states@,
                        old(registry).issued(),
                        save.current_state,
                        save.step_size,
                        *attract,
                        *advance,
                        made.0.states@,
                    )
                    &&& final(registry).issued() == old(registry).issued() + fresh_count(all_keys(save.states@))
                    &&& made.0.wf()
                    &&& made.1.wf()
                    &&& made.0.current_state == save.current_state
                    &&& made.0.gen_future == DEFAULT_HORIZON
                    &&& made.0.step_size == save.step_size
                    &&& !made.0.current_state_modified
                    &&& made.1.initial_state matches Some(seed) && is_copy(made.0.states@.last(), seed)
                    &&& made.1.new_states@ == Seq::<Universe<B, S>>::empty()
                    &&& made.1.states_buffer_size == buffer_target(
                        DEFAULT_HORIZON,
                        made.0.states@.len(),
                        save.current_state as nat,
                    )
                    &&& made.1.step_size == save.step_size
                },
            },
    {
        match save.fault() {
            Some(e) => {
                return Err(e);
            },
            None => {},
        }
        let ghost saved = save.states@;
        let ghost base = registry.issued();
        let current_state = save.current_state;
        let step_size = save.step_size;
        let total = save.states.len();
        let mut pending = reversed(save.states);
        let mut table: BTreeMap<usize, BodyId> = BTreeMap::new();
        let first = pending.pop().unwrap();
        proof {
            assert(first == saved[0]);
            lemma_all_keys_step(saved, 0);
            assert(all_keys(saved.take(0)) =~= Seq::<usize>::empty());
            assert(Seq::<usize>::empty() + keys_of(first.bodies@) =~= all_keys(saved.take(1)));
            lemma_all_keys_split(saved, 1);
            lemma_fresh_count_grows(all_keys(saved.take(1)), all_keys(saved.skip(1)));
            assert(distinct_keys(saved[0].bodies@));
        }
        let start = place(first, &mut table, registry, Ghost(Seq::empty()), Ghost(base));
        let mut timeline = Timeline::new(start);
        assert(timeline@[0] == start);
        let mut k: usize = 1;
        while k < total
            invariant
                1 <= k <= total,
                total == saved.len(),
                pending.len() == total - k,
                forall|j: int| 0 <= j < pending.len() ==> #[trigger] pending[j] == saved[total - 1 - j],
                load_fault(saved) is None,
                tracks(table@, all_keys(saved.take(k as int)), base),
                registry.issued() == base + fresh_count(all_keys(saved.take(k as int))),
                base + fresh_count(all_keys(saved)) <= usize::MAX,
                timeline.wf(),
                timeline@.len() == saved[k - 1].index + 1,
                forall|m: int|
                    0 <= m < k ==> rebuilt_from(
                        #[trigger] saved[m],
                        all_keys(saved.take(k as int)),
                        base,
                        timeline@[saved[m].index as int],
                    ),
                forall|i: int|
                    #![trigger timeline@[i]]
                    0 <= i < timeline@.len() && not_kept(saved, k as int, i) ==> i > 0 && timeline@[i - 1].leads_to(
                        &timeline@[i],
                        step_size,
                        *attract,
                        *advance,
                    ),
                forall|g: S, a: &B, b: &B, d: S| attract.requires((g, a, b, d)),
                forall|a: &B, d: S| advance.requires((a, d)),
            decreases total - k,
        {
            let entry = pending.pop().unwrap();
            let index = entry.index;
            let ghost seen = all_keys(saved.take(k as int));
            proof {
                assert(entry == saved[k as int]);
                assert(saved[k - 1].index < saved[k as int].index);
            }
            while timeline.len() < index
                invariant
                    1 <= k < total,
                    total == saved.len(),
                    load_fault(saved) is None,
                    index == saved[k as int].index,
                    timeline.wf(),
                    saved[k - 1].index + 1 <= timeline@.len() <= index,
                    forall|m: int|
                        0 <= m < k ==> rebuilt_from(
                            #[trigger] saved[m],
                            seen,
                            base,
                            timeline@[saved[m].index as int],
                        ),
                    forall|i: int|
                        #![trigger timeline@[i]]
                        0 <= i < timeline@.len() && not_kept(saved, k as int, i) ==> i > 0 && timeline@[i
                            - 1].leads_to(&timeline@[i], step_size, *attract, *advance),
                    forall|g: S, a: &B, b: &B, d: S| attract.requires((g, a, b, d)),
                    forall|a: &B, d: S| advance.requires((a, d)),
                decreases index - timeline@.len(),
            {
                let ghost before = timeline@;
                let next = timeline.last().step(step_size, attract, advance);
                timeline.append(next);
                proof {
                    assert forall|m: int| 0 <= m < k implies rebuilt_from(
                        #[trigger] saved[m],
                        seen,
                        base,
                        timeline@[saved[m].index as int],
                    ) by {
                        assert(saved[m].index <= saved[k - 1].index) by {
                            if m < k - 1 {
                                assert(saved[m].index < saved[k - 1].index);
                            }
                        }
                        assert(timeline@[saved[m].index as int] == before[saved[m].index as int]);
                    }
                    assert forall|i: int| #![trigger timeline@[i]] 0 <= i < timeline@.len() && not_kept(saved, k as int, i) implies i > 0
                        && timeline@[i - 1].leads_to(&timeline@[i], step_size, *attract, *advance) by {
                        if i < before.len() {
                            assert(timeline@[i] == before[i]);
                            assert(timeline@[i - 1] == before[i - 1]);
                        } else {
                            assert(timeline@[i - 1] == before.last());
                        }
                    }
                }
            }
            proof {
                lemma_all_keys_step(saved, k as int);
                lemma_all_keys_split(saved, k + 1);
                lemma_fresh_count_grows(all_keys(saved.take(k + 1)), all_keys(saved.skip(k + 1)));
                assert(distinct_keys(saved[k as int].bodies@));
            }
            let anchor = place(entry, &mut table, registry, Ghost(seen), Ghost(base));
            let ghost before = timeline@;
            timeline.append(anchor);
            proof {
                let grown = all_keys(saved.take(k + 1));
                assert forall|m: int| 0 <= m < k + 1 implies rebuilt_from(
                    #[trigger] saved[m],
                    grown,
                    base,
                    timeline@[saved[m].index as int],
                ) by {
                    if m < k {
                        assert(saved[m].index <= saved[k - 1].index) by {
                            if m < k - 1 {
                                assert(saved[m].index < saved[k - 1].index);
                            }
                        }
                        assert(timeline@[saved[m].index as int] == before[saved[m].index as int]);
                        lemma_rebuilt_from_stays(
                            saved,
                            m,
                            k as int,
                            keys_of(saved[k as int].bodies@),
                            base,
                            before[saved[m].index as int],
                        );
                    }
                }
                assert forall|i: int| #![trigger timeline@[i]] 0 <= i < timeline@.len() && not_kept(saved, k + 1, i) implies i > 0
                    && timeline@[i - 1].leads_to(&timeline@[i], step_size, *attract, *advance) by {
                    if i < before.len() {
                        assert(not_kept(saved, k as int, i));
                        assert(timeline@[i] == before[i]);
                        assert(timeline@[i - 1] == before[i - 1]);
                    } else {
                        assert(saved[k as int].index == i);
                    }
                }
            }
            k += 1;
        }
        proof {
            assert(saved.take(total as int) =~= saved);
        }
        while timeline.len() <= current_state
            invariant
                total == saved.len(),
                total >= 1,
                load_fault(saved) is None,
                timeline.wf(),
                saved[total - 1].index + 1 <= timeline@.len(),
                timeline@.len() <= last_index(saved, current_state) + 1,
                forall|m: int|
                    0 <= m < total ==> rebuilt_from(
                        #[trigger] saved[m],
                        all_keys(saved),
                        base,
                        timeline@[saved[m].index as int],
                    ),
                forall|i: int|
                    #![trigger timeline@[i]]
                    0 <= i < timeline@.len() && not_kept(saved, total as int, i) ==> i > 0 && timeline@[i
                        - 1].leads_to(&timeline@[i], step_size, *attract, *advance),
                forall|g: S, a: &B, b: &B, d: S| attract.requires((g, a, b, d)),
                forall|a: &B, d: S| advance.requires((a, d)),
            decreases current_state + 1 - timeline@.len(),
        {
            let ghost before = timeline@;
            let next = timeline.last().step(step_size, attract, advance);
            timeline.append(next);
            proof {
                assert forall|m: int| 0 <= m < total implies rebuilt_from(
                    #[trigger] saved[m],
                    all_keys(saved),
                    base,
                    timeline@[saved[m].index as int],
                ) by {
                    assert(saved[m].index <= saved[total - 1].index) by {
                        if m < total - 1 {
                            assert(saved[m].index < saved[total - 1].index);
                        }
                    }
                    assert(timeline@[saved[m].index as int] == before[saved[m].index as int]);
                }
                assert forall|i: int| #![trigger timeline@[i]] 0 <= i < timeline@.len() && not_kept(saved, total as int, i) implies i > 0
                    && timeline@[i - 1].leads_to(&timeline@[i], step_size, *attract, *advance) by {
                    if i < before.len() {
                        assert(timeline@[i] == before[i]);
                        assert(timeline@[i - 1] == before[i - 1]);
                    } else {
                        assert(timeline@[i - 1] == before.last());
                    }
                }
            }
        }
        let seed = timeline.last().clone();
        let generation = GenerationState {
            initial_state: Some(seed),
            new_states: Vec::new(),
            states_buffer_size: DEFAULT_HORIZON.saturating_sub(timeline.len() - current_state),
            step_size,
        };
        let world = World {
            states: timeline,
            gen_future: DEFAULT_HORIZON,
            current_state,
            step_size,
            current_state_modified: false,
        };
        Ok((world, generation))
    }
}

} // verus!
