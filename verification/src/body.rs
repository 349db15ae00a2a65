//! Identities of bodies and the store that keeps bodies in ascending order of identity.
//!
//! The store is generic in the body it holds: the engine orders, finds and pairs bodies,
//! and never looks inside one.

use vstd::prelude::*;

verus! {

/// Issues identities: each one is the successor of the one issued before, starting at 1.
pub struct IdRegistry {
    issued: usize,
}

/// Identity of a body: a positive integer that its registry issues once.
#[derive(Clone, Copy, Debug, PartialEq, Eq, Structural, PartialOrd, Ord, Hash)]
pub struct BodyId(usize);

impl View for BodyId {
    type V = nat;

    closed spec fn view(&self) -> nat {
        self.0 as nat
    }
}

impl IdRegistry {
    /// How many identities have been issued so far.
    pub closed spec fn issued(&self) -> nat {
        self.issued as nat
    }

    /// No identity is left to issue.
    pub open spec fn exhausted(&self) -> bool {
        self.issued() >= usize::MAX
    }

    /// `id` is one of the identities issued so far.
    pub open spec fn has_issued(&self, id: BodyId) -> bool {
        1 <= id@ <= self.issued()
    }

    /// A registry that has issued nothing.
    pub fn new() -> (registry: Self)
        ensures
            registry.issued() == 0,
    {
        IdRegistry { issued: 0 }
    }

    /// Whether no identity is left to issue.
    pub fn is_exhausted(&self) -> (b: bool)
        ensures
            b == self.exhausted(),
    {
        self.issued == usize::MAX
    }

    /// How many identities have been issued so far.
    pub fn issued_count(&self) -> (n: usize)
        ensures
            n == self.issued(),
    {
        self.issued
    }

    /// Whether `id` has been issued by a registry in this state.
    pub fn knows(&self, id: BodyId) -> (b: bool)
        ensures
            b == self.has_issued(id),
    {
        proof {
            use_type_invariant(&id);
        }
        id.0 <= self.issued
    }
}

impl BodyId {
    #[verifier::type_invariant]
    spec fn positive(self) -> bool {
        self.0 > 0
    }

    /// Two identities are the same exactly when their numbers are.
    pub proof fn lemma_number_identifies(a: BodyId, b: BodyId)
        ensures
            (a@ == b@) == (a == b),
    {
    }

    /// Issues the next identity: the successor of the last one issued.
    pub fn next_id(registry: &mut IdRegistry) -> (id: BodyId)
        requires
            !old(registry).exhausted(),
        ensures
            id@ == old(registry).issued() + 1,
            final(registry).issued() == old(registry).issued() + 1,
            final(registry).has_issued(id),
            !old(registry).has_issued(id),
    {
        registry.issued = registry.issued + 1;
        BodyId(registry.issued)
    }

    /// The number of this identity, which is never zero.
    pub fn get_id(&self) -> (n: usize)
        ensures
            n == self@,
            n >= 1,
    {
        proof {
            use_type_invariant(self);
        }
        self.0
    }
}

/// The identities of `s` grow strictly from each entry to the next.
pub open spec fn ascending<B>(s: Seq<(BodyId, B)>) -> bool {
    forall|i: int, j: int| 0 <= i < j < s.len() ==> (#[trigger] s[i]).0@ < (#[trigger] s[j]).0@
}

/// Some entry of `s` carries `id`.
pub open spec fn holds<B>(s: Seq<(BodyId, B)>, id: BodyId) -> bool {
    exists|i: int| 0 <= i < s.len() && (#[trigger] s[i]).0 == id
}

/// A position of `s` that carries `id`, where one does.
pub open spec fn index_of<B>(s: Seq<(BodyId, B)>, id: BodyId) -> int {
    choose|i: int| 0 <= i < s.len() && (#[trigger] s[i]).0 == id
}

/// The body that `s` keeps under `id`, if any.
pub open spec fn lookup<B>(s: Seq<(BodyId, B)>, id: BodyId) -> Option<B> {
    if holds(s, id) {
        Some(s[index_of(s, id)].1)
    } else {
        None
    }
}

/// How many entries of `s` carry an identity below `id`.
pub open spec fn rank<B>(s: Seq<(BodyId, B)>, id: BodyId) -> int
    decreases s.len(),
{
    if s.len() == 0 {
        0
    } else {
        rank(s.drop_last(), id) + if s.last().0@ < id@ {
            1int
        } else {
            0int
        }
    }
}

/// `s` with a new entry for `id` at the place that keeps the identities ascending.
pub open spec fn with_entry<B>(s: Seq<(BodyId, B)>, id: BodyId, body: B) -> Seq<(BodyId, B)> {
    s.insert(rank(s, id), (id, body))
}

/// `s` without the entry for `id`; `s` itself where it has none.
pub open spec fn without_entry<B>(s: Seq<(BodyId, B)>, id: BodyId) -> Seq<(BodyId, B)> {
    if holds(s, id) {
        s.remove(index_of(s, id))
    } else {
        s
    }
}

/// In an ascending sequence, the position that carries an identity is the only one.
pub proof fn lemma_index_of<B>(s: Seq<(BodyId, B)>, k: int)
    requires
        ascending(s),
        0 <= k < s.len(),
    ensures
        holds(s, s[k].0),
        index_of(s, s[k].0) == k,
        lookup(s, s[k].0) == Some(s[k].1),
{
    let id = s[k].0;
    assert(holds(s, id));
    let i = index_of(s, id);
    assert(s[i].0 == id);
    if i < k {
        assert(s[i].0@ < s[k].0@);
    }
    if k < i {
        assert(s[k].0@ < s[i].0@);
    }
}

/// The rank of `id` is the position `k` that splits an ascending sequence into the
/// identities below `id` and those not below it.
pub proof fn lemma_rank_is_split<B>(s: Seq<(BodyId, B)>, id: BodyId, k: int)
    requires
        0 <= k <= s.len(),
        forall|i: int| 0 <= i < k ==> (#[trigger] s[i]).0@ < id@,
        forall|i: int| k <= i < s.len() ==> (#[trigger] s[i]).0@ >= id@,
    ensures
        rank(s, id) == k,
    decreases s.len(),
{
    if s.len() > 0 {
        let t = s.drop_last();
        if k == s.len() {
            assert(s[k - 1].0@ < id@);
            lemma_rank_is_split(t, id, k - 1);
        } else {
            assert(s[s.len() - 1].0@ >= id@);
            lemma_rank_is_split(t, id, k);
        }
    }
}

/// The rank of an identity lies within the sequence and splits it, when it is ascending.
pub proof fn lemma_rank_splits<B>(s: Seq<(BodyId, B)>, id: BodyId)
    requires
        ascending(s),
    ensures
        0 <= rank(s, id) <= s.len(),
        forall|i: int| 0 <= i < rank(s, id) ==> (#[trigger] s[i]).0@ < id@,
        forall|i: int| rank(s, id) <= i < s.len() ==> (#[trigger] s[i]).0@ >= id@,
    decreases s.len(),
{
    if s.len() > 0 {
        let t = s.drop_last();
        assert forall|i: int, j: int| 0 <= i < j < t.len() implies (#[trigger] t[i]).0@ < (
        #[trigger] t[j]).0@ by {
            assert(t[i] == s[i] && t[j] == s[j]);
        }
        lemma_rank_splits(t, id);
        let last = s.len() - 1;
        if s[last].0@ < id@ {
            assert forall|i: int| 0 <= i < last implies (#[trigger] t[i]).0@ < id@ by {
                assert(t[i] == s[i]);
                assert(s[i].0@ < s[last].0@);
            }
            lemma_rank_is_split(t, id, last);
            assert forall|i: int| 0 <= i < rank(s, id) implies (#[trigger] s[i]).0@ < id@ by {
                if i < last {
                    assert(t[i] == s[i]);
                }
            }
        } else {
            assert forall|i: int| 0 <= i < rank(s, id) implies (#[trigger] s[i]).0@ < id@ by {
                assert(t[i] == s[i]);
            }
            assert forall|i: int| rank(s, id) <= i < s.len() implies (#[trigger] s[i]).0@
                >= id@ by {
                if i < last {
                    assert(t[i] == s[i]);
                }
            }
        }
    }
}

/// An entry put in under a new identity is found again under it, every other identity
/// finds what it found before, and the sequence stays ascending.
pub proof fn lemma_insert_then_get<B>(s: Seq<(BodyId, B)>, id: BodyId, body: B)
    requires
        ascending(s),
        !holds(s, id),
    ensures
        ascending(with_entry(s, id, body)),
        with_entry(s, id, body).len() == s.len() + 1,
        lookup(with_entry(s, id, body), id) == Some(body),
        forall|other: BodyId| other != id ==> lookup(with_entry(s, id, body), other) == lookup(s, other),
{
    let k = rank(s, id);
    let t = with_entry(s, id, body);
    lemma_rank_splits(s, id);
    assert forall|i: int| k <= i < s.len() implies (#[trigger] s[i]).0@ > id@ by {
        assert(s[i].0 != id);
    }
    assert forall|i: int, j: int| 0 <= i < j < t.len() implies (#[trigger] t[i]).0@ < (
    #[trigger] t[j]).0@ by {
        let a = if i < k { i } else { i - 1 };
        let b = if j < k { j } else { j - 1 };
        if i != k && j != k {
            assert(t[i] == s[a] && t[j] == s[b]);
        } else if i == k {
            assert(t[j] == s[b]);
        } else {
            assert(t[i] == s[a]);
        }
    }
    assert(t[k] == (id, body));
    lemma_index_of(t, k);
    assert forall|other: BodyId| other != id implies lookup(t, other) == lookup(s, other) by {
        if holds(s, other) {
            let i = index_of(s, other);
            let j = if i < k { i } else { i + 1 };
            assert(t[j] == s[i]);
            lemma_index_of(s, i);
            lemma_index_of(t, j);
        } else if holds(t, other) {
            let j = index_of(t, other);
            let i = if j < k { j } else { j - 1 };
            assert(t[j] == s[i]);
        }
    }
}

/// After an identity is taken out nothing is found under it, every other identity finds
/// what it found before, and the sequence stays ascending.
pub proof fn lemma_remove_then_get<B>(s: Seq<(BodyId, B)>, id: BodyId)
    requires
        ascending(s),
    ensures
        ascending(without_entry(s, id)),
        lookup(without_entry(s, id), id) is None,
        forall|other: BodyId| other != id ==> lookup(without_entry(s, id), other) == lookup(s, other),
{
    let t = without_entry(s, id);
    if holds(s, id) {
        let k = index_of(s, id);
        assert forall|i: int, j: int| 0 <= i < j < t.len() implies (#[trigger] t[i]).0@ < (
        #[trigger] t[j]).0@ by {
            let a = if i < k { i } else { i + 1 };
            let b = if j < k { j } else { j + 1 };
            assert(t[i] == s[a] && t[j] == s[b]);
        }
        if holds(t, id) {
            let j = index_of(t, id);
            let i = if j < k { j } else { j + 1 };
            assert(t[j] == s[i]);
            lemma_index_of(s, i);
            lemma_index_of(s, k);
        }
        assert forall|other: BodyId| other != id implies lookup(t, other) == lookup(s, other) by {
            if holds(s, other) {
                let i = index_of(s, other);
                let j = if i < k { i } else { i - 1 };
                assert(t[j] == s[i]);
                lemma_index_of(s, i);
                lemma_index_of(t, j);
            } else if holds(t, other) {
                let j = index_of(t, other);
                let i = if j < k { j } else { j + 1 };
                assert(t[j] == s[i]);
            }
        }
    }
}

/// Bodies under their identities, kept in ascending order of identity.
#[derive(Debug)]
pub struct BodyList<B> {
    bodies: Vec<(BodyId, B)>,
}

impl<B> View for BodyList<B> {
    type V = Seq<(BodyId, B)>;

    closed spec fn view(&self) -> Seq<(BodyId, B)> {
        self.bodies@
    }
}

impl<B> BodyList<B> {
    /// The entries are in ascending order of identity, so no identity occurs twice.
    pub open spec fn wf(&self) -> bool {
        ascending(self@)
    }

    /// Every identity in the list is one that `registry` has issued.
    pub open spec fn minted_by(&self, registry: &IdRegistry) -> bool {
        forall|i: int| 0 <= i < self@.len() ==> registry.has_issued((#[trigger] self@[i]).0)
    }

    /// A list without bodies.
    pub fn new() -> (list: Self)
        ensures
            list@ == Seq::<(BodyId, B)>::empty(),
            list.wf(),
    {
        BodyList { bodies: Vec::new() }
    }

    /// How many bodies the list holds.
    pub fn len(&self) -> (n: usize)
        ensures
            n == self@.len(),
    {
        self.bodies.len()
    }

    /// Whether the list holds no body.
    pub fn is_empty(&self) -> (b: bool)
        ensures
            b == (self@.len() == 0),
    {
        self.bodies.len() == 0
    }

    /// Makes room for `additional` more bodies; the contents stay as they are.
    pub fn reserve(&mut self, additional: usize)
        ensures
            final(self)@ == old(self)@,
    {
        self.bodies.reserve(additional);
    }

    /// Binary search: the position of `id` if the list holds it, else its rank.
    fn search(&self, id: BodyId) -> (r: (bool, usize))
        requires
            self.wf(),
        ensures
            r.0 == holds(self@, id),
            r.0 ==> r.1 < self@.len() && self@[r.1 as int].0 == id && r.1 == index_of(self@, id),
            !r.0 ==> r.1 == rank(self@, id) && r.1 <= self@.len(),
    {
        let mut lo: usize = 0;
        let mut hi: usize = self.bodies.len();
        while lo < hi
            invariant
                self.wf(),
                0 <= lo <= hi <= self@.len(),
                forall|i: int| 0 <= i < lo ==> (#[trigger] self@[i]).0@ < id@,
                forall|i: int| hi <= i < self@.len() ==> (#[trigger] self@[i]).0@ > id@,
            decreases hi - lo,
        {
            let mid: usize = lo + (hi - lo) / 2;
            let here = self.bodies[mid].0;
            if here.0 == id.0 {
                proof {
                    lemma_index_of(self@, mid as int);
                }
                return (true, mid);
            } else if here.0 < id.0 {
                proof {
                    assert forall|i: int| 0 <= i < mid + 1 implies (#[trigger] self@[i]).0@
                        < id@ by {
                        if i < mid {
                            assert(self@[i].0@ < self@[mid as int].0@);
                        }
                    }
                }
                lo = mid + 1;
            } else {
                proof {
                    assert forall|i: int| mid <= i < self@.len() implies (#[trigger] self@[i]).0@
                        > id@ by {
                        if i > mid {
                            assert(self@[mid as int].0@ < self@[i].0@);
                        }
                    }
                }
                hi = mid;
            }
        }
        proof {
            lemma_rank_is_split(self@, id, lo as int);
            if holds(self@, id) {
                let i = index_of(self@, id);
                assert(self@[i].0@ == id@);
            }
        }
        (false, lo)
    }

    /// Puts `body` in under `id`, which the list must not hold yet.
    pub fn insert(&mut self, id: BodyId, body: B)
        requires
            old(self).wf(),
            !holds(old(self)@, id),
        ensures
            final(self).wf(),
            final(self)@ == with_entry(old(self)@, id, body),
            final(self)@.len() == old(self)@.len() + 1,
            lookup(final(self)@, id) == Some(body),
            forall|other: BodyId| other != id ==> lookup(final(self)@, other) == lookup(old(self)@, other),
    {
        let r = self.search(id);
        proof {
            lemma_insert_then_get(self@, id, body);
        }
        self.bodies.insert(r.1, (id, body));
    }

    /// Puts `body` in under an identity that `registry` issues for it, and returns the
    /// identity.
    pub fn push(&mut self, registry: &mut IdRegistry, body: B) -> (id: BodyId)
        requires
            old(self).wf(),
            old(self).minted_by(old(registry)),
            !old(registry).exhausted(),
        ensures
            id@ == old(registry).issued() + 1,
            final(registry).issued() == old(registry).issued() + 1,
            !holds(old(self)@, id),
            final(self).wf(),
            final(self).minted_by(final(registry)),
            final(self)@ == old(self)@.push((id, body)),
            final(self)@ == with_entry(old(self)@, id, body),
            lookup(final(self)@, id) == Some(body),
            forall|other: BodyId| other != id ==> lookup(final(self)@, other) == lookup(old(self)@, other),
    {
        let id = BodyId::next_id(registry);
        proof {
            let s = self@;
            assert forall|i: int| 0 <= i < s.len() implies (#[trigger] s[i]).0@ < id@ by {
                assert(old(registry).has_issued(s[i].0));
            }
            if holds(s, id) {
                let i = index_of(s, id);
                assert(s[i].0@ < id@);
            }
            lemma_rank_is_split(s, id, s.len() as int);
            lemma_insert_then_get(s, id, body);
            assert(s.insert(s.len() as int, (id, body)) =~= s.push((id, body)));
        }
        self.bodies.push((id, body));
        proof {
            let t = self@;
            assert forall|i: int| 0 <= i < t.len() implies registry.has_issued(
                (#[trigger] t[i]).0,
            ) by {
                if i < old(self)@.len() {
                    assert(t[i] == old(self)@[i]);
                    assert(old(registry).has_issued(old(self)@[i].0));
                }
            }
        }
        id
    }

    /// Takes the body under `id` out of the list, if it holds one.
    pub fn remove(&mut self, id: BodyId) -> (body: Option<B>)
        requires
            old(self).wf(),
        ensures
            final(self).wf(),
            body == lookup(old(self)@, id),
            final(self)@ == without_entry(old(self)@, id),
            lookup(final(self)@, id) is None,
            forall|other: BodyId| other != id ==> lookup(final(self)@, other) == lookup(old(self)@, other),
    {
        let r = self.search(id);
        proof {
            lemma_remove_then_get(self@, id);
        }
        if r.0 {
            Some(self.bodies.remove(r.1).1)
        } else {
            None
        }
    }

    /// The body under `id`, if the list holds one.
    pub fn get(&self, id: BodyId) -> (body: Option<&B>)
        requires
            self.wf(),
        ensures
            body.is_some() == holds(self@, id),
            body matches Some(b) ==> lookup(self@, id) == Some(*b),
    {
        let r = self.search(id);
        if r.0 {
            Some(&self.bodies[r.1].1)
        } else {
            None
        }
    }

    /// The body under `id`, to be changed in place, if the list holds one. The list
    /// afterwards differs from the list before in that body alone.
    pub fn get_mut(&mut self, id: BodyId) -> (body: Option<&mut B>)
        requires
            old(self).wf(),
        ensures
            final(self).wf(),
            body.is_some() == holds(old(self)@, id),
            body matches Some(b) ==> lookup(old(self)@, id) == Some(*b) && final(self)@ == old(
                self,
            )@.update(index_of(old(self)@, id), (id, *final(b))),
            body is None ==> final(self)@ == old(self)@,
    {
        let r = self.search(id);
        if r.0 {
            Some(&mut self.bodies[r.1].1)
        } else {
            None
        }
    }

    /// Which of the positions of `ids` are granted, each with its place in the list.
    fn resolve(&self, ids: &Vec<Option<BodyId>>) -> (slots: Vec<Option<usize>>)
        requires
            self.wf(),
        ensures
            slots.len() == ids.len(),
            forall|k: int| 0 <= k < ids.len() ==> (#[trigger] slots[k] is Some) == granted(self@, ids@, k),
            forall|k: int| 0 <= k < ids.len() && #[trigger] slots[k] is Some ==> slots[k].unwrap()
                == index_of(self@, ids[k].unwrap()) && slots[k].unwrap() < self@.len(),
            forall|k: int, l: int|
                0 <= k < l < ids.len() && #[trigger] slots[k] is Some && #[trigger] slots[l] is Some
                    ==> slots[k] != slots[l],
    {
        let mut slots: Vec<Option<usize>> = Vec::new();
        let mut k: usize = 0;
        while k < ids.len()
            invariant
                self.wf(),
                k <= ids.len(),
                slots.len() == k,
                forall|m: int| 0 <= m < k ==> (#[trigger] slots[m] is Some) == granted(self@, ids@, m),
                forall|m: int| 0 <= m < k && #[trigger] slots[m] is Some ==> slots[m].unwrap()
                    == index_of(self@, ids[m].unwrap()) && slots[m].unwrap() < self@.len(),
                forall|m: int, l: int|
                    0 <= m < l < k && #[trigger] slots[m] is Some && #[trigger] slots[l] is Some
                        ==> slots[m] != slots[l],
                forall|l: int|
                    0 <= l < k && (#[trigger] ids[l]) is Some && holds(self@, ids[l].unwrap())
                        ==> exists|m: int|
                        0 <= m <= l && #[trigger] slots[m] == Some(
                            index_of(self@, ids[l].unwrap()) as usize,
                        ),
            decreases ids.len() - k,
        {
            let mut slot: Option<usize> = None;
            match ids[k] {
                Some(id) => {
                    let r = self.search(id);
                    if r.0 {
                        let mut taken = false;
                        let mut l: usize = 0;
                        while l < k
                            invariant
                                l <= k,
                                k < ids.len(),
                                slots.len() == k,
                                taken ==> exists|m: int| 0 <= m < k && #[trigger] slots[m] == Some(r.1),
                                !taken ==> forall|m: int| 0 <= m < l ==> #[trigger] slots[m] != Some(r.1),
                            decreases k - l,
                        {
                            match slots[l] {
                                Some(q) => {
                                    if q == r.1 {
                                        taken = true;
                                    }
                                },
                                None => {},
                            }
                            l += 1;
                        }
                        proof {
                            let s = self@;
                            let ghost_ids = ids@;
                            if taken {
                                let m = choose|m: int| 0 <= m < k && #[trigger] slots[m] == Some(r.1);
                                assert(slots[m] is Some);
                                assert(granted(s, ghost_ids, m));
                                lemma_index_of(s, r.1 as int);
                                lemma_index_of(s, index_of(s, ghost_ids[m].unwrap()));
                                assert(ghost_ids[m] == Some(id));
                                assert(!granted(s, ghost_ids, k as int));
                            } else {
                                assert forall|l: int| 0 <= l < k implies ghost_ids[l] != Some(id) by {
                                    if ghost_ids[l] == Some(id) {
                                        let m = choose|m: int|
                                            0 <= m <= l && #[trigger] slots[m] == Some(
                                                index_of(s, ghost_ids[l].unwrap()) as usize,
                                            );
                                        assert(slots[m] == Some(r.1));
                                    }
                                }
                                assert(granted(s, ghost_ids, k as int));
                            }
                        }
                        if !taken {
                            slot = Some(r.1);
                        }
                    }
                },
                None => {},
            }
            let ghost before = slots@;
            slots.push(slot);
            proof {
                let s = self@;
                assert forall|m: int| 0 <= m < k + 1 implies (#[trigger] slots[m] is Some) == granted(
                    s,
                    ids@,
                    m,
                ) by {
                    if m < k {
                        assert(slots[m] == before[m]);
                    }
                }
                assert forall|l: int|
                    0 <= l < k + 1 && (#[trigger] ids[l]) is Some && holds(s, ids[l].unwrap()) implies exists|
                    m: int,
                |
                    0 <= m <= l && #[trigger] slots[m] == Some(
                        index_of(s, ids[l].unwrap()) as usize,
                    ) by {
                    if l < k {
                        let m = choose|m: int|
                            0 <= m <= l && #[trigger] before[m] == Some(
                                index_of(s, ids[l].unwrap()) as usize,
                            );
                        assert(slots[m] == before[m]);
                    } else {
                        let pos = index_of(s, ids[l].unwrap()) as usize;
                        if slot is Some {
                            assert(slots[k as int] == Some(pos));
                        } else {
                            let m = choose|m: int| 0 <= m < k && #[trigger] before[m] == Some(pos);
                            assert(slots[m] == before[m]);
                        }
                    }
                }
            }
            k += 1;
        }
        slots
    }

    /// Hands out the bodies at the given places, each place at most once.
    fn borrow_slots<'a>(&'a mut self, slots: &Vec<Option<usize>>) -> (out: Vec<Option<&'a mut B>>)
        requires
            forall|k: int| 0 <= k < slots.len() && #[trigger] slots[k] is Some ==> slots[k].unwrap() < old(self)@.len(),
            forall|k: int, l: int|
                0 <= k < l < slots.len() && #[trigger] slots[k] is Some && #[trigger] slots[l] is Some
                    ==> slots[k] != slots[l],
        ensures
            out.len() == slots.len(),
            forall|k: int| 0 <= k < slots.len() ==> (#[trigger] out[k] is Some) == (slots[k] is Some),
            forall|k: int| 0 <= k < slots.len() && #[trigger] slots[k] is Some ==> *out[k].unwrap() == old(self)@[slots[k].unwrap() as int].1,
            final(self)@.len() == old(self)@.len(),
            forall|k: int| 0 <= k < slots.len() && #[trigger] slots[k] is Some ==> final(self)@[slots[k].unwrap() as int] == (
                old(self)@[slots[k].unwrap() as int].0,
                *final(out[k].unwrap()),
            ),
            forall|q: int|
                0 <= q < old(self)@.len() && (forall|k: int| 0 <= k < slots.len() ==> #[trigger] slots[k] != Some(q as usize))
                    ==> #[trigger] final(self)@[q] == old(self)@[q],
    {
        let mut out: Vec<Option<&'a mut B>> = Vec::new();
        let mut k: usize = 0;
        while k < slots.len()
            invariant
                k <= slots.len(),
                out.len() == k,
                forall|l: int| 0 <= l < k ==> #[trigger] out[l] is None,
            decreases slots.len() - k,
        {
            out.push(None);
            k += 1;
        }
        let ghost fv: Seq<(BodyId, B)> = final(self).bodies@;
        let ghost ov: Seq<(BodyId, B)> = old(self).bodies@;
        let ghost total: usize = self.bodies.len();
        let ghost n = ov.len();
        let ghost mut done: Seq<(BodyId, B)> = final(self).bodies@.take(0);
        let mut rest: &mut [(BodyId, B)] = self.bodies.as_mut_slice();
        let mut p: usize = 0;
        while rest.len() > 0
            invariant
                p + rest.len() == n,
                n == ov.len(),
                n == total,
                out.len() == slots.len(),
                rest@ == ov.subrange(p as int, n as int),
                forall|k: int| 0 <= k < slots.len() && #[trigger] slots[k] is Some ==> slots[k].unwrap() < n,
                forall|k: int, l: int|
                    0 <= k < l < slots.len() && #[trigger] slots[k] is Some && #[trigger] slots[l] is Some
                        ==> slots[k] != slots[l],
                fv == done + final(rest)@,
                done.len() == p,
                forall|k: int|
                    0 <= k < slots.len() && #[trigger] out[k] is Some ==> done[slots[k].unwrap() as int] == (
                        ov[slots[k].unwrap() as int].0,
                        *final(out[k].unwrap()),
                    ),
                forall|q: int|
                    0 <= q < p && (forall|k: int| 0 <= k < slots.len() ==> #[trigger] slots[k] != Some(q as usize))
                        ==> #[trigger] done[q] == ov[q],
                forall|k: int|
                    0 <= k < slots.len() ==> (#[trigger] out[k] is Some) == (slots[k] is Some
                        && slots[k].unwrap() < p),
                forall|k: int| 0 <= k < slots.len() && #[trigger] out[k] is Some ==> *out[k].unwrap() == ov[slots[k].unwrap() as int].1,
            decreases rest.len(),
        {
            let (head, tail) = rest.split_at_mut(1);
            let mut k: usize = 0;
            let mut found: Option<usize> = None;
            while k < slots.len()
                invariant
                    k <= slots.len(),
                    found matches Some(f) ==> f < slots.len() && slots[f as int] == Some(p),
                    found is None ==> forall|l: int| 0 <= l < k ==> #[trigger] slots[l] != Some(p),
                decreases slots.len() - k,
            {
                match slots[k] {
                    Some(q) => {
                        if q == p && found.is_none() {
                            found = Some(k);
                        }
                    },
                    None => {},
                }
                k += 1;
            }
            let ghost fh = final(head)@;
            let ghost ft = final(tail)@;
            assert(head@[0] == ov[p as int]);
            match found {
                Some(f) => {
                    out[f] = Some(&mut head[0].1);
                    assert(fh.len() == 1);
                },
                None => {
                    assert(fh.len() == 1);
                    assert(fh[0] == ov[p as int]);
                },
            }
            proof {
                assert(fv == (done + fh) + ft) by {
                    assert(done + (fh + ft) =~= (done + fh) + ft);
                }
                done = done + fh;
            }
            rest = tail;
            p += 1;
        }
        proof {
            assert(fv =~= done);
        }
        out
    }

    /// Resolves each requested identity to its body, to be changed in place. A position
    /// is granted when the list holds its identity and no earlier position asked for the
    /// same one; every other position gets `None`. No body is handed out twice.
    pub fn maybe_get_disjoint_mut<const N: usize>(&mut self, ids: [Option<BodyId>; N]) -> (out: [Option<&mut B>; N])
        requires
            old(self).wf(),
        ensures
            final(self).wf(),
            final(self)@.len() == old(self)@.len(),
            forall|k: int| 0 <= k < N ==> (#[trigger] out[k] is Some) == granted(old(self)@, ids@, k),
            forall|k: int| 0 <= k < N && #[trigger] out[k] is Some ==> Some(*out[k].unwrap()) == lookup(old(self)@, ids[k].unwrap()),
            forall|k: int| 0 <= k < N && #[trigger] out[k] is Some ==> final(self)@[index_of(old(self)@, ids[k].unwrap())] == (
                ids[k].unwrap(),
                *final(out[k].unwrap()),
            ),
            forall|k: int, l: int|
                0 <= k < l < N && #[trigger] out[k] is Some && #[trigger] out[l] is Some ==> ids[k] != ids[l]
                    && index_of(old(self)@, ids[k].unwrap()) != index_of(old(self)@, ids[l].unwrap()),
            forall|q: int|
                0 <= q < old(self)@.len() && !requested(ids@, old(self)@[q].0) ==> #[trigger] final(self)@[q] == old(self)@[q],
    {
        let mut wanted: Vec<Option<BodyId>> = Vec::new();
        let mut k: usize = 0;
        while k < N
            invariant
                k <= N,
                wanted.len() == k,
                forall|l: int| 0 <= l < k ==> #[trigger] wanted[l] == ids[l],
            decreases N - k,
        {
            wanted.push(ids[k]);
            k += 1;
        }
        assert(wanted@ =~= ids@);
        let slots = self.resolve(&wanted);
        let ghost s = self@;
        proof {
            assert(self.bodies.len() <= usize::MAX);
        }
        proof {
            assert forall|q: int|
                0 <= q < s.len() && !requested(ids@, s[q].0) implies (forall|k: int|
                0 <= k < slots.len() ==> #[trigger] slots[k] != Some(q as usize)) by {
                assert forall|k: int| 0 <= k < slots.len() implies #[trigger] slots[k] != Some(
                    q as usize,
                ) by {
                    if slots[k] == Some(q as usize) {
                        assert(slots[k] is Some);
                        assert(granted(s, ids@, k));
                        lemma_index_of(s, q);
                        assert(ids@[k] == Some(s[q].0));
                    }
                }
            }
        }
        let ghost t = final(self)@;
        let refs = self.borrow_slots(&slots);
        proof {
            assert forall|k: int| 0 <= k < N && #[trigger] refs[k] is Some implies Some(*refs[k].unwrap())
                == lookup(s, ids[k].unwrap()) && t[index_of(s, ids[k].unwrap())] == (
                ids[k].unwrap(),
                *final(refs[k].unwrap()),
            ) by {
                assert(slots[k] is Some);
                assert(granted(s, ids@, k));
            }
            assert forall|q: int| 0 <= q < t.len() implies (#[trigger] t[q]).0 == s[q].0 by {
                if exists|k: int| 0 <= k < slots.len() && #[trigger] slots[k] == Some(q as usize) {
                    let k = choose|k: int| 0 <= k < slots.len() && #[trigger] slots[k] == Some(q as usize);
                    assert(slots[k] is Some);
                }
            }
            assert forall|i: int, j: int| 0 <= i < j < t.len() implies (#[trigger] t[i]).0@ < (
            #[trigger] t[j]).0@ by {
                assert(s[i].0@ < s[j].0@);
            }
            assert forall|k: int, l: int|
                0 <= k < l < N && #[trigger] refs[k] is Some && #[trigger] refs[l] is Some implies ids[k] != ids[l]
                && index_of(s, ids[k].unwrap()) != index_of(s, ids[l].unwrap()) by {
                assert(slots[k] is Some && slots[l] is Some);
                assert(granted(s, ids@, l));
            }
        }
        match vec_into_array(refs) {
            Ok(out) => out,
            Err(_) => unreached(),
        }
    }

    /// Resolves each requested identity to its body, to be changed in place: see
    /// `maybe_get_disjoint_mut`, with every position asking for an identity.
    pub fn get_disjoint_mut<const N: usize>(&mut self, ids: [BodyId; N]) -> (out: [Option<&mut B>; N])
        requires
            old(self).wf(),
        ensures
            final(self).wf(),
            final(self)@.len() == old(self)@.len(),
            forall|k: int| 0 <= k < N ==> (#[trigger] out[k] is Some) == granted(old(self)@, all_wanted(ids@), k),
            forall|k: int| 0 <= k < N && #[trigger] out[k] is Some ==> Some(*out[k].unwrap()) == lookup(old(self)@, ids[k]),
            forall|k: int| 0 <= k < N && #[trigger] out[k] is Some ==> final(self)@[index_of(old(self)@, ids[k])] == (
                ids[k],
                *final(out[k].unwrap()),
            ),
            forall|k: int, l: int|
                0 <= k < l < N && #[trigger] out[k] is Some && #[trigger] out[l] is Some ==> ids[k] != ids[l]
                    && index_of(old(self)@, ids[k]) != index_of(old(self)@, ids[l]),
            forall|q: int|
                0 <= q < old(self)@.len() && !requested(all_wanted(ids@), old(self)@[q].0) ==> #[trigger] final(self)@[q] == old(self)@[q],
    {
        let mut wanted: Vec<Option<BodyId>> = Vec::new();
        let mut k: usize = 0;
        while k < N
            invariant
                k <= N,
                wanted.len() == k,
                forall|l: int| 0 <= l < k ==> #[trigger] wanted[l] == Some(ids[l]),
            decreases N - k,
        {
            wanted.push(Some(ids[k]));
            k += 1;
        }
        let all: [Option<BodyId>; N] = match vec_into_array(wanted) {
            Ok(all) => all,
            Err(_) => unreached(),
        };
        assert(all@ =~= all_wanted(ids@));
        self.maybe_get_disjoint_mut(all)
    }

    /// The entries in ascending order of identity.
    pub fn iter(&self) -> (items: Vec<(BodyId, &B)>)
        ensures
            items.len() == self@.len(),
            forall|i: int| 0 <= i < self@.len() ==> (#[trigger] items[i]).0 == self@[i].0 && *items[i].1 == self@[i].1,
    {
        let mut items: Vec<(BodyId, &B)> = Vec::new();
        let mut i: usize = 0;
        while i < self.bodies.len()
            invariant
                i <= self@.len(),
                items.len() == i,
                forall|k: int| 0 <= k < i ==> (#[trigger] items[k]).0 == self@[k].0 && *items[k].1 == self@[k].1,
            decreases self@.len() - i,
        {
            items.push((self.bodies[i].0, &self.bodies[i].1));
            i += 1;
        }
        items
    }

    /// The entries in ascending order of identity, each body to be changed in place.
    pub fn iter_mut(&mut self) -> (items: Vec<(BodyId, &mut B)>)
        ensures
            items.len() == old(self)@.len(),
            final(self)@.len() == old(self)@.len(),
            forall|i: int| 0 <= i < old(self)@.len() ==> (#[trigger] items[i]).0 == old(self)@[i].0 && *items[i].1 == old(self)@[i].1,
            forall|i: int| 0 <= i < old(self)@.len() ==> #[trigger] final(self)@[i] == (old(self)@[i].0, *final(items[i].1)),
            old(self).wf() ==> final(self).wf(),
    {
        let mut items: Vec<(BodyId, &mut B)> = Vec::new();
        let ghost fv: Seq<(BodyId, B)> = final(self).bodies@;
        let ghost ov: Seq<(BodyId, B)> = old(self).bodies@;
        let ghost total: usize = self.bodies.len();
        let ghost mut done: Seq<(BodyId, B)> = final(self).bodies@.take(0);
        let mut rest: &mut [(BodyId, B)] = self.bodies.as_mut_slice();
        let mut p: usize = 0;
        while rest.len() > 0
            invariant
                p + rest.len() == total,
                total == ov.len(),
                items.len() == p,
                rest@ == ov.subrange(p as int, total as int),
                fv == done + final(rest)@,
                done.len() == p,
                forall|q: int| 0 <= q < p ==> #[trigger] done[q] == (ov[q].0, *final(items[q].1)),
                forall|q: int| 0 <= q < p ==> (#[trigger] items[q]).0 == ov[q].0 && *items[q].1 == ov[q].1,
            decreases rest.len(),
        {
            let (head, tail) = rest.split_at_mut(1);
            let ghost fh = final(head)@;
            let ghost ft = final(tail)@;
            assert(head@[0] == ov[p as int]);
            let id = head[0].0;
            items.push((id, &mut head[0].1));
            proof {
                assert(fh.len() == 1);
                assert(fv == (done + fh) + ft) by {
                    assert(done + (fh + ft) =~= (done + fh) + ft);
                }
                done = done + fh;
            }
            rest = tail;
            p += 1;
        }
        proof {
            assert(fv =~= done);
            if ascending(ov) {
                assert forall|i: int, j: int| 0 <= i < j < fv.len() implies (#[trigger] fv[i]).0@ < (
                #[trigger] fv[j]).0@ by {
                    assert(ov[i].0@ < ov[j].0@);
                }
            }
        }
        items
    }

    /// Calls `f` once for every pair of distinct bodies, in ascending order of the first
    /// body and, for one first body, of the second, and puts what `f` returns in the
    /// place of the two bodies.
    pub fn iter_mut_pairs<F: Fn(BodyId, &B, BodyId, &B) -> (B, B)>(&mut self, f: F)
        requires
            forall|ia: BodyId, a: &B, ib: BodyId, b: &B| f.requires((ia, a, ib, b)),
        ensures
            pairs_swept(outcomes(f), old(self)@, final(self)@),
            same_ids(old(self)@, final(self)@),
            old(self).wf() ==> final(self).wf(),
    {
        let n = self.bodies.len();
        let ghost start = self@;
        let mut i: usize = 0;
        while i < n
            invariant
                i <= n,
                n == start.len(),
                self@.len() == n,
                forall|ia: BodyId, a: &B, ib: BodyId, b: &B| f.requires((ia, a, ib, b)),
                rows_swept(outcomes(f), start, self@, i as int),
                same_ids(start, self@),
            decreases n - i,
        {
            let ghost row_start = self@;
            let mut j: usize = i + 1;
            while j < n
                invariant
                    i < j <= n,
                    n == start.len(),
                    self@.len() == n,
                    row_start.len() == n,
                    forall|ia: BodyId, a: &B, ib: BodyId, b: &B| f.requires((ia, a, ib, b)),
                    row_swept(outcomes(f), row_start, self@, i as int, j as int),
                    same_ids(start, self@),
                decreases n - j,
            {
                let ghost mid = self@;
                let (a, b) = f(self.bodies[i].0, &self.bodies[i].1, self.bodies[j].0, &self.bodies[j].1);
                self.bodies[i].1 = a;
                self.bodies[j].1 = b;
                proof {
                    assert(pair_applied(outcomes(f), mid, self@, i as int, j as int));
                    assert(between(mid));
                }
                j += 1;
            }
            proof {
                assert(row_swept(outcomes(f), row_start, self@, i as int, n as int));
                assert(between(row_start));
            }
            i += 1;
        }
        proof {
            let t = self@;
            if ascending(start) {
                assert forall|i: int, j: int| 0 <= i < j < t.len() implies (#[trigger] t[i]).0@ < (
                #[trigger] t[j]).0@ by {
                    assert(start[i].0@ < start[j].0@);
                }
            }
        }
    }
}

/// Position `k` of `ids` asks for an identity that `s` holds and that no earlier position
/// asks for.
pub open spec fn granted<B>(s: Seq<(BodyId, B)>, ids: Seq<Option<BodyId>>, k: int) -> bool {
    &&& ids[k] is Some
    &&& holds(s, ids[k].unwrap())
    &&& forall|l: int| 0 <= l < k ==> #[trigger] ids[l] != ids[k]
}

/// Some position of `ids` asks for `id`.
pub open spec fn requested(ids: Seq<Option<BodyId>>, id: BodyId) -> bool {
    exists|k: int| 0 <= k < ids.len() && #[trigger] ids[k] == Some(id)
}

/// The request in which every position asks for the identity at that position of `ids`.
pub open spec fn all_wanted(ids: Seq<BodyId>) -> Seq<Option<BodyId>> {
    Seq::new(ids.len(), |k: int| Some(ids[k]))
}

/// `Vec`'s conversion into an array (`TryFrom<Vec<T>>` for `[T; N]`): a vector of `N`
/// elements becomes the array of its elements in order, and any other vector comes back
/// as it is.
#[verifier::external_body]
fn vec_into_array<T, const N: usize>(v: Vec<T>) -> (r: Result<[T; N], Vec<T>>)
    ensures
        v@.len() == N ==> r is Ok && r->Ok_0@ == v@,
        v@.len() != N ==> r is Err && r->Err_0@ == v@,
{
    v.try_into()
}

/// `after` has the identities of `before`, place by place.
pub open spec fn same_ids<B>(before: Seq<(BodyId, B)>, after: Seq<(BodyId, B)>) -> bool {
    &&& after.len() == before.len()
    &&& forall|k: int| 0 <= k < before.len() ==> (#[trigger] after[k]).0 == before[k].0
}

/// What one interaction may make of two bodies: the relation holds of the identity and
/// the body of the first, those of the second, and the pair of bodies that replaces them.
pub type PairRule<B> = spec_fn(BodyId, B, BodyId, B, (B, B)) -> bool;

/// The rule under which a pair of bodies becomes whatever a call of `f` on them may
/// return.
pub open spec fn outcomes<B, F: Fn(BodyId, &B, BodyId, &B) -> (B, B)>(f: F) -> PairRule<B> {
    |ia: BodyId, a: B, ib: BodyId, b: B, r: (B, B)| call_ensures(f, (ia, &a, ib, &b), r)
}

/// `after` is `before` with the bodies at `i` and `j` replaced as `rule` allows.
pub open spec fn pair_applied<B>(
    rule: PairRule<B>,
    before: Seq<(BodyId, B)>,
    after: Seq<(BodyId, B)>,
    i: int,
    j: int,
) -> bool {
    &&& after.len() == before.len()
    &&& rule(before[i].0, before[i].1, before[j].0, before[j].1, (after[i].1, after[j].1))
    &&& after[i].0 == before[i].0
    &&& after[j].0 == before[j].0
    &&& forall|k: int| 0 <= k < before.len() && k != i && k != j ==> #[trigger] after[k] == before[k]
}

/// Marks a sequence as the state between two steps of a sweep.
pub open spec fn between<B>(mid: Seq<(BodyId, B)>) -> bool {
    true
}

/// `after` comes from `before` by applying `rule` to the pairs `(i, i + 1)`, ...,
/// `(i, j - 1)` in this order.
pub open spec fn row_swept<B>(
    rule: PairRule<B>,
    before: Seq<(BodyId, B)>,
    after: Seq<(BodyId, B)>,
    i: int,
    j: int,
) -> bool
    decreases j - i,
{
    if j <= i + 1 {
        after == before
    } else {
        exists|mid: Seq<(BodyId, B)>| #[trigger]
            between(mid) && row_swept(rule, before, mid, i, j - 1) && pair_applied(
                rule,
                mid,
                after,
                i,
                j - 1,
            )
    }
}

/// `after` comes from `before` by sweeping the rows of the first bodies `0`, ..., `i - 1`
/// in this order, each row against every later body.
pub open spec fn rows_swept<B>(
    rule: PairRule<B>,
    before: Seq<(BodyId, B)>,
    after: Seq<(BodyId, B)>,
    i: int,
) -> bool
    decreases i,
{
    if i <= 0 {
        after == before
    } else {
        exists|mid: Seq<(BodyId, B)>| #[trigger]
            between(mid) && rows_swept(rule, before, mid, i - 1) && row_swept(
                rule,
                mid,
                after,
                i - 1,
                before.len() as int,
            )
    }
}

/// `after` comes from `before` by applying `rule` once to every pair of distinct places:
/// the pairs `(i, j)` with `i < j`, in ascending order of `i` and, for one `i`, of `j`.
pub open spec fn pairs_swept<B>(
    rule: PairRule<B>,
    before: Seq<(BodyId, B)>,
    after: Seq<(BodyId, B)>,
) -> bool {
    rows_swept(rule, before, after, before.len() as int)
}

/// `rule` allows one outcome for one pair.
pub open spec fn single_valued<B>(rule: PairRule<B>) -> bool {
    forall|ia: BodyId, a: B, ib: BodyId, b: B, r1: (B, B), r2: (B, B)|
        #![trigger rule(ia, a, ib, b, r1), rule(ia, a, ib, b, r2)]
        rule(ia, a, ib, b, r1) && rule(ia, a, ib, b, r2) ==> r1 == r2
}

/// Whatever `narrow` allows, `wide` allows too.
pub open spec fn within<B>(narrow: PairRule<B>, wide: PairRule<B>) -> bool {
    forall|ia: BodyId, a: B, ib: BodyId, b: B, r: (B, B)| #[trigger]
        narrow(ia, a, ib, b, r) ==> wide(ia, a, ib, b, r)
}

/// A row keeps the length of the sequence and the identities in it.
pub proof fn lemma_row_swept_ids<B>(
    rule: PairRule<B>,
    before: Seq<(BodyId, B)>,
    after: Seq<(BodyId, B)>,
    i: int,
    j: int,
)
    requires
        row_swept(rule, before, after, i, j),
        0 <= i,
        j <= before.len(),
    ensures
        same_ids(before, after),
    decreases j - i,
{
    if j > i + 1 {
        let mid = choose|mid: Seq<(BodyId, B)>| #[trigger]
            between(mid) && row_swept(rule, before, mid, i, j - 1) && pair_applied(rule, mid, after, i, j - 1);
        lemma_row_swept_ids(rule, before, mid, i, j - 1);
        assert forall|k: int| 0 <= k < before.len() implies (#[trigger] after[k]).0 == before[k].0 by {
            if k != i && k != j - 1 {
                assert(after[k] == mid[k]);
            }
            assert(mid[k].0 == before[k].0);
        }
    }
}

/// A sweep of rows keeps the length of the sequence and the identities in it.
pub proof fn lemma_rows_swept_ids<B>(
    rule: PairRule<B>,
    before: Seq<(BodyId, B)>,
    after: Seq<(BodyId, B)>,
    i: int,
)
    requires
        rows_swept(rule, before, after, i),
        i <= before.len(),
    ensures
        same_ids(before, after),
    decreases i,
{
    if i > 0 {
        let n = before.len() as int;
        let mid = choose|mid: Seq<(BodyId, B)>| #[trigger]
            between(mid) && rows_swept(rule, before, mid, i - 1) && row_swept(rule, mid, after, i - 1, n);
        lemma_rows_swept_ids(rule, before, mid, i - 1);
        lemma_row_swept_ids(rule, mid, after, i - 1, n);
        assert forall|k: int| 0 <= k < before.len() implies (#[trigger] after[k]).0 == before[k].0 by {
            assert(mid[k].0 == before[k].0);
        }
    }
}

/// A row swept under a rule is a row swept under every wider rule.
pub proof fn lemma_row_swept_within<B>(
    narrow: PairRule<B>,
    wide: PairRule<B>,
    before: Seq<(BodyId, B)>,
    after: Seq<(BodyId, B)>,
    i: int,
    j: int,
)
    requires
        within(narrow, wide),
        row_swept(narrow, before, after, i, j),
    ensures
        row_swept(wide, before, after, i, j),
    decreases j - i,
{
    if j > i + 1 {
        let mid = choose|mid: Seq<(BodyId, B)>| #[trigger]
            between(mid) && row_swept(narrow, before, mid, i, j - 1) && pair_applied(narrow, mid, after, i, j - 1);
        lemma_row_swept_within(narrow, wide, before, mid, i, j - 1);
        assert(narrow(mid[i].0, mid[i].1, mid[j - 1].0, mid[j - 1].1, (after[i].1, after[j - 1].1)));
        assert(between(mid) && row_swept(wide, before, mid, i, j - 1) && pair_applied(wide, mid, after, i, j - 1));
    }
}

/// Rows swept under a rule are rows swept under every wider rule.
pub proof fn lemma_rows_swept_within<B>(
    narrow: PairRule<B>,
    wide: PairRule<B>,
    before: Seq<(BodyId, B)>,
    after: Seq<(BodyId, B)>,
    i: int,
)
    requires
        within(narrow, wide),
        rows_swept(narrow, before, after, i),
    ensures
        rows_swept(wide, before, after, i),
    decreases i,
{
    if i > 0 {
        let n = before.len() as int;
        let mid = choose|mid: Seq<(BodyId, B)>| #[trigger]
            between(mid) && rows_swept(narrow, before, mid, i - 1) && row_swept(narrow, mid, after, i - 1, n);
        lemma_rows_swept_within(narrow, wide, before, mid, i - 1);
        lemma_row_swept_within(narrow, wide, mid, after, i - 1, n);
        assert(between(mid) && rows_swept(wide, before, mid, i - 1) && row_swept(wide, mid, after, i - 1, n));
    }
}

/// Under a single-valued rule a row has one outcome.
pub proof fn lemma_row_swept_single_valued<B>(
    rule: PairRule<B>,
    before: Seq<(BodyId, B)>,
    first: Seq<(BodyId, B)>,
    second: Seq<(BodyId, B)>,
    i: int,
    j: int,
)
    requires
        single_valued(rule),
        0 <= i,
        j <= before.len(),
        row_swept(rule, before, first, i, j),
        row_swept(rule, before, second, i, j),
    ensures
        first == second,
    decreases j - i,
{
    if j > i + 1 {
        let m1 = choose|mid: Seq<(BodyId, B)>| #[trigger]
            between(mid) && row_swept(rule, before, mid, i, j - 1) && pair_applied(rule, mid, first, i, j - 1);
        let m2 = choose|mid: Seq<(BodyId, B)>| #[trigger]
            between(mid) && row_swept(rule, before, mid, i, j - 1) && pair_applied(rule, mid, second, i, j - 1);
        lemma_row_swept_single_valued(rule, before, m1, m2, i, j - 1);
        lemma_row_swept_ids(rule, before, m1, i, j - 1);
        let r1 = (first[i].1, first[j - 1].1);
        let r2 = (second[i].1, second[j - 1].1);
        assert(rule(m1[i].0, m1[i].1, m1[j - 1].0, m1[j - 1].1, r1));
        assert(rule(m1[i].0, m1[i].1, m1[j - 1].0, m1[j - 1].1, r2));
        assert(r1 == r2);
        assert forall|k: int| 0 <= k < first.len() implies first[k] == second[k] by {
            if k != i && k != j - 1 {
                assert(first[k] == m1[k]);
                assert(second[k] == m1[k]);
            }
        }
        assert(first =~= second);
    }
}

/// Under a single-valued rule the sweep of the first `i` rows has one outcome.
pub proof fn lemma_rows_swept_single_valued<B>(
    rule: PairRule<B>,
    before: Seq<(BodyId, B)>,
    first: Seq<(BodyId, B)>,
    second: Seq<(BodyId, B)>,
    i: int,
)
    requires
        single_valued(rule),
        i <= before.len(),
        rows_swept(rule, before, first, i),
        rows_swept(rule, before, second, i),
    ensures
        first == second,
    decreases i,
{
    if i > 0 {
        let n = before.len() as int;
        let m1 = choose|mid: Seq<(BodyId, B)>| #[trigger]
            between(mid) && rows_swept(rule, before, mid, i - 1) && row_swept(rule, mid, first, i - 1, n);
        let m2 = choose|mid: Seq<(BodyId, B)>| #[trigger]
            between(mid) && rows_swept(rule, before, mid, i - 1) && row_swept(rule, mid, second, i - 1, n);
        lemma_rows_swept_single_valued(rule, before, m1, m2, i - 1);
        lemma_rows_swept_ids(rule, before, m1, i - 1);
        lemma_row_swept_single_valued(rule, m1, first, second, i - 1, n);
    }
}

/// A sweep over all pairs under a single-valued rule has one outcome: the same bodies
/// in, the same bodies out.
pub proof fn lemma_pairs_swept_single_valued<B>(
    rule: PairRule<B>,
    before: Seq<(BodyId, B)>,
    first: Seq<(BodyId, B)>,
    second: Seq<(BodyId, B)>,
)
    requires
        single_valued(rule),
        pairs_swept(rule, before, first),
        pairs_swept(rule, before, second),
    ensures
        first == second,
{
    lemma_rows_swept_single_valued(rule, before, first, second, before.len() as int);
}

/// `a` and `b` hold the same bodies in the same places, whatever their identities.
pub open spec fn same_bodies<B>(a: Seq<(BodyId, B)>, b: Seq<(BodyId, B)>) -> bool {
    &&& a.len() == b.len()
    &&& forall|k: int| 0 <= k < a.len() ==> (#[trigger] a[k]).1 == b[k].1
}

/// `rule` does not look at identities: what it allows for two bodies, it allows for them
/// under any identities.
pub open spec fn blind<B>(rule: PairRule<B>) -> bool {
    forall|ia: BodyId, ib: BodyId, ja: BodyId, jb: BodyId, a: B, b: B, r: (B, B)|
        #![trigger rule(ia, a, ib, b, r), rule(ja, a, jb, b, r)]
        rule(ia, a, ib, b, r) == rule(ja, a, jb, b, r)
}

/// Under a single-valued rule that does not look at identities, a row makes the same
/// bodies of the same bodies.
pub proof fn lemma_row_swept_blind<B>(
    rule: PairRule<B>,
    before: Seq<(BodyId, B)>,
    after: Seq<(BodyId, B)>,
    other_before: Seq<(BodyId, B)>,
    other_after: Seq<(BodyId, B)>,
    i: int,
    j: int,
)
    requires
        single_valued(rule),
        blind(rule),
        same_bodies(before, other_before),
        0 <= i,
        j <= before.len(),
        row_swept(rule, before, after, i, j),
        row_swept(rule, other_before, other_after, i, j),
    ensures
        same_bodies(after, other_after),
    decreases j - i,
{
    if j > i + 1 {
        let m1 = choose|mid: Seq<(BodyId, B)>| #[trigger]
            between(mid) && row_swept(rule, before, mid, i, j - 1) && pair_applied(rule, mid, after, i, j - 1);
        let m2 = choose|mid: Seq<(BodyId, B)>| #[trigger]
            between(mid) && row_swept(rule, other_before, mid, i, j - 1) && pair_applied(
                rule,
                mid,
                other_after,
                i,
                j - 1,
            );
        lemma_row_swept_blind(rule, before, m1, other_before, m2, i, j - 1);
        lemma_row_swept_ids(rule, before, m1, i, j - 1);
        let r1 = (after[i].1, after[j - 1].1);
        let r2 = (other_after[i].1, other_after[j - 1].1);
        assert(m1[i].1 == m2[i].1);
        assert(m1[j - 1].1 == m2[j - 1].1);
        assert(rule(m1[i].0, m1[i].1, m1[j - 1].0, m1[j - 1].1, r1));
        assert(rule(m2[i].0, m2[i].1, m2[j - 1].0, m2[j - 1].1, r2));
        assert(rule(m1[i].0, m1[i].1, m1[j - 1].0, m1[j - 1].1, r2));
        assert(r1 == r2);
        assert forall|k: int| 0 <= k < after.len() implies (#[trigger] after[k]).1 == other_after[k].1 by {
            if k != i && k != j - 1 {
                assert(after[k] == m1[k]);
                assert(other_after[k] == m2[k]);
                assert(m1[k].1 == m2[k].1);
            }
        }
    }
}

/// Under a single-valued rule that does not look at identities, the sweep of the first
/// `i` rows makes the same bodies of the same bodies.
pub proof fn lemma_rows_swept_blind<B>(
    rule: PairRule<B>,
    before: Seq<(BodyId, B)>,
    after: Seq<(BodyId, B)>,
    other_before: Seq<(BodyId, B)>,
    other_after: Seq<(BodyId, B)>,
    i: int,
)
    requires
        single_valued(rule),
        blind(rule),
        same_bodies(before, other_before),
        i <= before.len(),
        rows_swept(rule, before, after, i),
        rows_swept(rule, other_before, other_after, i),
    ensures
        same_bodies(after, other_after),
    decreases i,
{
    if i > 0 {
        let n = before.len() as int;
        let m1 = choose|mid: Seq<(BodyId, B)>| #[trigger]
            between(mid) && rows_swept(rule, before, mid, i - 1) && row_swept(rule, mid, after, i - 1, n);
        let m2 = choose|mid: Seq<(BodyId, B)>| #[trigger]
            between(mid) && rows_swept(rule, other_before, mid, i - 1) && row_swept(
                rule,
                mid,
                other_after,
                i - 1,
                n,
            );
        lemma_rows_swept_blind(rule, before, m1, other_before, m2, i - 1);
        lemma_rows_swept_ids(rule, before, m1, i - 1);
        lemma_row_swept_blind(rule, m1, after, m2, other_after, i - 1, n);
    }
}

/// A sweep over all pairs does not depend on identities: under a single-valued rule that
/// does not look at them, the same bodies in the same places come out as the same bodies.
pub proof fn lemma_pairs_swept_blind<B>(
    rule: PairRule<B>,
    before: Seq<(BodyId, B)>,
    after: Seq<(BodyId, B)>,
    other_before: Seq<(BodyId, B)>,
    other_after: Seq<(BodyId, B)>,
)
    requires
        single_valued(rule),
        blind(rule),
        same_bodies(before, other_before),
        pairs_swept(rule, before, after),
        pairs_swept(rule, other_before, other_after),
    ensures
        same_bodies(after, other_after),
{
    lemma_rows_swept_blind(rule, before, after, other_before, other_after, before.len() as int);
}

/// A clone of a body is the body: `clone` gives back what it was given.
pub open spec fn clones_are_equal<B: Clone>() -> bool {
    forall|a: B, b: B| #[trigger] cloned(a, b) ==> a == b
}

/// Where a clone of a body is the body, a copy of a list is the list.
pub proof fn lemma_copy_is_the_list<B: Clone>(origin: Seq<(BodyId, B)>, copy: Seq<(BodyId, B)>)
    requires
        clones_are_equal::<B>(),
        copy_of(origin, copy),
    ensures
        copy == origin,
{
    assert forall|k: int| 0 <= k < origin.len() implies copy[k] == origin[k] by {
        assert(copy[k].0 == origin[k].0);
        assert(cloned(origin[k].1, copy[k].1));
    }
    assert(copy =~= origin);
}

/// `copy` has the identities of `origin`, and each of its bodies is a clone of the body
/// in the same place.
pub open spec fn copy_of<B: Clone>(origin: Seq<(BodyId, B)>, copy: Seq<(BodyId, B)>) -> bool {
    &&& copy.len() == origin.len()
    &&& forall|k: int| 0 <= k < origin.len() ==> (#[trigger] copy[k]).0 == origin[k].0 && cloned(origin[k].1, copy[k].1)
}

impl<B: Clone> Clone for BodyList<B> {
    /// A list with the same identities, each body cloned.
    fn clone(&self) -> (list: Self)
        ensures
            copy_of(self@, list@),
            self.wf() ==> list.wf(),
    {
        let mut bodies: Vec<(BodyId, B)> = Vec::new();
        let mut i: usize = 0;
        while i < self.bodies.len()
            invariant
                i <= self@.len(),
                bodies.len() == i,
                forall|k: int| 0 <= k < i ==> (#[trigger] bodies[k]).0 == self@[k].0 && cloned(self@[k].1, bodies[k].1),
            decreases self@.len() - i,
        {
            bodies.push((self.bodies[i].0, self.bodies[i].1.clone()));
            i += 1;
        }
        proof {
            let s = self@;
            let t = bodies@;
            if ascending(s) {
                assert forall|i: int, j: int| 0 <= i < j < t.len() implies (#[trigger] t[i]).0@ < (
                #[trigger] t[j]).0@ by {
                    assert(s[i].0@ < s[j].0@);
                }
            }
        }
        BodyList { bodies }
    }
}

impl<B> Default for BodyList<B> {
    /// A list without bodies.
    fn default() -> (list: Self)
        ensures
            list@ == Seq::<(BodyId, B)>::empty(),
            list.wf(),
    {
        BodyList::new()
    }
}

} // verus!
