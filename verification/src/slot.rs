use vstd::prelude::*;

use crate::entity::EntityId;

verus! {

/// The Index Wrapper: a transient value a caller attaches to an entity to
/// request indexing. It carries exactly one key and is converted into the
/// Internal Index Slot representation at attach time; the wrapper itself is
/// never retained.
#[derive(Clone, Copy, PartialEq, Eq, Structural, Debug)]
pub struct Index(pub u64);

/// The Internal Index Slot cell: the persistent per-entity storage holding
/// one key. At most one slot exists per entity; attaching a second replaces
/// the first.
#[derive(Clone, Copy, PartialEq, Eq, Structural, Debug)]
pub struct InternalIndex(pub u64);

impl From<Index> for InternalIndex {
    /// Conversion from the wrapper into the slot cell is total and preserves
    /// the carried key.
    fn from(value: Index) -> (r: InternalIndex) {
        InternalIndex(value.0)
    }
}

impl vstd::std_specs::convert::FromSpecImpl<Index> for InternalIndex {
    open spec fn obeys_from_spec() -> bool {
        true
    }

    open spec fn from_spec(value: Index) -> InternalIndex {
        InternalIndex(value.0)
    }
}

/// One occupied cell of the sparse slot storage.
#[derive(Clone, Copy)]
struct Slot {
    entity: EntityId,
    cell: InternalIndex,
}

/// The key held by `e` in `s`, reading the first matching cell.
spec fn seq_key_of(s: Seq<Slot>, e: EntityId) -> Option<u64>
    decreases s.len(),
{
    if s.len() == 0 {
        None
    } else if s[0].entity == e {
        Some(s[0].cell.0)
    } else {
        seq_key_of(s.skip(1), e)
    }
}

/// No entity occupies two cells.
spec fn entities_distinct(s: Seq<Slot>) -> bool {
    forall|i: int, j: int| 0 <= i < j < s.len() ==> s[i].entity != s[j].entity
}

proof fn lemma_key_of_absent(s: Seq<Slot>, e: EntityId)
    ensures
        (seq_key_of(s, e) is None) <==> (forall|j: int| 0 <= j < s.len() ==> s[j].entity != e),
    decreases s.len(),
{
    if s.len() > 0 {
        lemma_key_of_absent(s.skip(1), e);
        if s[0].entity != e {
            if seq_key_of(s, e) is None {
                assert forall|j: int| 0 <= j < s.len() implies s[j].entity != e by {
                    if j > 0 {
                        assert(s.skip(1)[j - 1] == s[j]);
                    }
                }
            }
            if forall|j: int| 0 <= j < s.len() ==> s[j].entity != e {
                assert forall|j: int| 0 <= j < s.skip(1).len() implies s.skip(1)[j].entity != e by {
                    assert(s.skip(1)[j] == s[j + 1]);
                }
            }
        }
    }
}

proof fn lemma_key_of_remove(s: Seq<Slot>, i: int, e2: EntityId)
    requires
        entities_distinct(s),
        0 <= i < s.len(),
    ensures
        seq_key_of(s.remove(i), e2)
            == (if e2 == s[i].entity { None::<u64> } else { seq_key_of(s, e2) }),
    decreases s.len(),
{
    let t = s.remove(i);
    if i == 0 {
        assert(t =~= s.skip(1));
        if e2 == s[0].entity {
            assert forall|j: int| 0 <= j < s.skip(1).len() implies s.skip(1)[j].entity != e2 by {
                assert(s.skip(1)[j] == s[j + 1]);
            }
            lemma_key_of_absent(s.skip(1), e2);
            assert(seq_key_of(t, e2) is None);
        } else {
            assert(seq_key_of(s, e2) == seq_key_of(s.skip(1), e2));
        }
    } else {
        assert forall|a: int, b: int| 0 <= a < b < s.skip(1).len() implies
            s.skip(1)[a].entity != s.skip(1)[b].entity by {
            assert(s.skip(1)[a] == s[a + 1]);
            assert(s.skip(1)[b] == s[b + 1]);
        }
        lemma_key_of_remove(s.skip(1), i - 1, e2);
        assert(t.skip(1) =~= s.skip(1).remove(i - 1));
        assert(t[0] == s[0]);
        assert(s.skip(1)[i - 1] == s[i]);
        if e2 == s[0].entity {
            assert(s[0].entity != s[i].entity);
            assert(seq_key_of(t, e2) == Some(t[0].cell.0));
            assert(seq_key_of(s, e2) == Some(s[0].cell.0));
        } else {
            assert(seq_key_of(t, e2) == seq_key_of(t.skip(1), e2));
            assert(seq_key_of(t.skip(1), e2) == seq_key_of(s.skip(1).remove(i - 1), e2));
            assert(seq_key_of(s, e2) == seq_key_of(s.skip(1), e2));
        }
    }
}

proof fn lemma_key_of_push(s: Seq<Slot>, x: Slot, e2: EntityId)
    requires
        seq_key_of(s, x.entity) is None,
    ensures
        seq_key_of(s.push(x), e2)
            == (if e2 == x.entity { Some(x.cell.0) } else { seq_key_of(s, e2) }),
    decreases s.len(),
{
    if s.len() == 0 {
        assert(s.push(x)[0] == x);
        assert(s.push(x).len() == 1);
        assert(s.push(x).skip(1) =~= Seq::<Slot>::empty());
        assert(seq_key_of(Seq::<Slot>::empty(), e2) is None);
        assert(seq_key_of(s, e2) is None);
        if e2 == x.entity {
            assert(seq_key_of(s.push(x), e2) == Some(x.cell.0));
        } else {
            assert(seq_key_of(s.push(x), e2) == seq_key_of(s.push(x).skip(1), e2));
        }
    } else {
        assert(s.push(x)[0] == s[0]);
        assert(s[0].entity != x.entity);
        lemma_key_of_push(s.skip(1), x, e2);
        assert(s.push(x).skip(1) =~= s.skip(1).push(x));
        if e2 == s[0].entity {
            assert(seq_key_of(s.push(x), e2) == Some(s[0].cell.0));
            assert(seq_key_of(s, e2) == Some(s[0].cell.0));
        } else {
            assert(seq_key_of(s.push(x), e2) == seq_key_of(s.skip(1).push(x), e2));
            assert(seq_key_of(s, e2) == seq_key_of(s.skip(1), e2));
        }
    }
}

/// Sparse per-entity storage of the Internal Index Slots of one index.
///
/// Only entities that carry the index pay any storage; the mathematical view
/// is the partial map from entity to held key, read through
/// [`SlotMap::key_of`] or, as a `Map`, through `@`.
pub struct SlotMap {
    entries: Vec<Slot>,
}

impl View for SlotMap {
    type V = Map<EntityId, u64>;

    closed spec fn view(&self) -> Map<EntityId, u64> {
        Map::new(
            |e: EntityId| seq_key_of(self.entries@, e) is Some,
            |e: EntityId| seq_key_of(self.entries@, e)->Some_0,
        )
    }
}

impl SlotMap {
    /// The key held by `entity`'s slot, or `None` when it has no slot.
    pub closed spec fn key_of(self, entity: EntityId) -> Option<u64> {
        seq_key_of(self.entries@, entity)
    }

    /// Well-formed: no entity occupies two cells.
    pub closed spec fn wf(self) -> bool {
        entities_distinct(self.entries@)
    }

    /// The map view `@` is exactly the graph of [`SlotMap::key_of`].
    pub proof fn lemma_view_lookup(self, entity: EntityId)
        ensures
            self@.dom().contains(entity) == (self.key_of(entity) is Some),
            self@.dom().contains(entity) ==> self@[entity] == self.key_of(entity)->Some_0,
    {
    }

    /// Creates empty slot storage: no entity is indexed.
    pub fn new() -> (r: SlotMap)
        ensures
            r.wf(),
            r@ == Map::<EntityId, u64>::empty(),
            forall|e2: EntityId| #[trigger] r.key_of(e2) is None,
    {
        let r = SlotMap { entries: Vec::new() };
        proof {
            assert forall|e2: EntityId| #[trigger] r.key_of(e2) is None by {
                assert(r.entries@.len() == 0);
            }
            assert forall|e2: EntityId| !r@.dom().contains(e2) by {
                r.lemma_view_lookup(e2);
            }
            assert(r@ =~= Map::<EntityId, u64>::empty());
        }
        r
    }

    /// The typed read path: returns a copy of the key held by `entity`'s
    /// slot, or `None` when the entity has no slot. Absence is a normal
    /// outcome, not an error. The result is a copy, never a view into the
    /// slot, so no caller can desynchronize an index store through it; and
    /// because the result is a function of the storage alone, any number of
    /// reads without an intervening mutation return the same key.
    pub fn fetch(&self, entity: EntityId) -> (r: Option<u64>)
        ensures
            r == self.key_of(entity),
    {
        let ghost s0 = self.entries@;
        let n = self.entries.len();
        let mut i: usize = 0;
        proof {
            assert(s0.skip(0) =~= s0);
        }
        while i < n
            invariant
                i <= n,
                n == s0.len(),
                s0 == self.entries@,
                seq_key_of(s0, entity) == seq_key_of(s0.skip(i as int), entity),
            decreases n - i,
        {
            if self.entries[i].entity == entity {
                proof {
                    assert(s0.skip(i as int)[0] == s0[i as int]);
                }
                return Some(self.entries[i].cell.0);
            }
            proof {
                assert(s0.skip(i as int)[0] == s0[i as int]);
                assert(s0.skip(i as int).skip(1) =~= s0.skip(i as int + 1));
            }
            i += 1;
        }
        proof {
            assert(s0.skip(n as int) =~= Seq::<Slot>::empty());
        }
        None
    }

    /// Detaches `entity`'s slot if one is present and returns the key it
    /// held; detaching an entity without a slot changes nothing.
    pub fn detach(&mut self, entity: EntityId) -> (prev: Option<u64>)
        requires
            old(self).wf(),
        ensures
            final(self).wf(),
            prev == old(self).key_of(entity),
            forall|e2: EntityId| #[trigger] final(self).key_of(e2)
                == (if e2 == entity { None::<u64> } else { old(self).key_of(e2) }),
    {
        let ghost s0 = self.entries@;
        let n = self.entries.len();
        let mut i: usize = 0;
        proof {
            assert(s0.skip(0) =~= s0);
        }
        while i < n
            invariant
                i <= n,
                n == s0.len(),
                s0 == self.entries@,
                s0 == old(self).entries@,
                entities_distinct(s0),
                seq_key_of(s0, entity) == seq_key_of(s0.skip(i as int), entity),
            decreases n - i,
        {
            if self.entries[i].entity == entity {
                proof {
                    assert(s0.skip(i as int)[0] == s0[i as int]);
                }
                let k0 = self.entries[i].cell.0;
                self.entries.remove(i);
                proof {
                    assert forall|a: int, b: int| 0 <= a < b < self.entries@.len() implies
                        self.entries@[a].entity != self.entries@[b].entity by {
                        assert(self.entries@ == s0.remove(i as int));
                        if b < i as int {
                            assert(self.entries@[a] == s0[a]);
                            assert(self.entries@[b] == s0[b]);
                        } else if a < i as int {
                            assert(self.entries@[a] == s0[a]);
                            assert(self.entries@[b] == s0[b + 1]);
                        } else {
                            assert(self.entries@[a] == s0[a + 1]);
                            assert(self.entries@[b] == s0[b + 1]);
                        }
                    }
                    assert forall|e2: EntityId| #[trigger] self.key_of(e2)
                        == (if e2 == entity { None::<u64> } else { seq_key_of(s0, e2) }) by {
                        lemma_key_of_remove(s0, i as int, e2);
                        assert(self.entries@ == s0.remove(i as int));
                    }
                }
                return Some(k0);
            }
            proof {
                assert(s0.skip(i as int)[0] == s0[i as int]);
                assert(s0.skip(i as int).skip(1) =~= s0.skip(i as int + 1));
            }
            i += 1;
        }
        proof {
            assert(s0.skip(n as int) =~= Seq::<Slot>::empty());
            assert(seq_key_of(s0, entity) is None);
        }
        None
    }

    /// Attaches the wrapped key to `entity`. The wrapper is converted into
    /// an Internal Index Slot cell on the spot; a slot already held by the
    /// entity is replaced rather than duplicated. Returns the key of the
    /// replaced slot, if any.
    pub fn attach(&mut self, entity: EntityId, index: Index) -> (prev: Option<u64>)
        requires
            old(self).wf(),
        ensures
            final(self).wf(),
            prev == old(self).key_of(entity),
            forall|e2: EntityId| #[trigger] final(self).key_of(e2)
                == (if e2 == entity { Some(index.0) } else { old(self).key_of(e2) }),
    {
        let prev = self.detach(entity);
        let ghost mid = *self;
        let cell = InternalIndex::from(index);
        let slot = Slot { entity, cell };
        self.entries.push(slot);
        proof {
            assert(mid.key_of(entity) is None);
            assert(seq_key_of(mid.entries@, entity) is None);
            lemma_key_of_absent(mid.entries@, entity);
            assert forall|a: int, b: int| 0 <= a < b < self.entries@.len() implies
                self.entries@[a].entity != self.entries@[b].entity by {
                assert(self.entries@ == mid.entries@.push(slot));
                if b < mid.entries@.len() as int {
                    assert(self.entries@[a] == mid.entries@[a]);
                    assert(self.entries@[b] == mid.entries@[b]);
                } else {
                    assert(self.entries@[a] == mid.entries@[a]);
                    assert(self.entries@[b] == slot);
                }
            }
            assert forall|e2: EntityId| #[trigger] self.key_of(e2)
                == (if e2 == entity { Some(index.0) } else { old(self).key_of(e2) }) by {
                lemma_key_of_push(mid.entries@, slot, e2);
                assert(self.entries@ == mid.entries@.push(slot));
                assert(mid.key_of(e2) == seq_key_of(mid.entries@, e2));
            }
        }
        prev
    }
}

/// Read-path idempotence: any two reads through [`SlotMap::fetch`] against
/// the same slot state agree, because each result is pinned to the single
/// key (or absence) that the state assigns to the entity.
pub proof fn lemma_fetch_idempotent(s: SlotMap, entity: EntityId, r1: Option<u64>, r2: Option<u64>)
    requires
        r1 == s.key_of(entity),
        r2 == s.key_of(entity),
    ensures
        r1 == r2,
{
}

} // verus!
