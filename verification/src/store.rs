use vstd::prelude::*;

use crate::entity::EntityId;
use crate::hooks::EntityIndex;

verus! {

/// Internal-consistency failures surfaced by [`IndexStore::remove`]. Either
/// one means the slot storage and the store have drifted apart: an insert
/// was missed or a remove was doubled. They are fatal to the index, never
/// silently repaired.
#[derive(Clone, Copy, PartialEq, Eq, Structural, Debug)]
pub enum IndexError {
    /// The key has no record in the store at all.
    MissingKey,
    /// The key is recorded, but not for this entity.
    MissingHolder,
}

/// One key of the store together with the entities recorded under it.
struct StoreEntry {
    key: u64,
    holders: Vec<EntityId>,
}

/// Whether `e` is recorded under `k`, reading the first entry for `k`.
spec fn seq_contains(s: Seq<StoreEntry>, k: u64, e: EntityId) -> bool
    decreases s.len(),
{
    if s.len() == 0 {
        false
    } else if s[0].key == k {
        s[0].holders@.contains(e)
    } else {
        seq_contains(s.skip(1), k, e)
    }
}

/// Whether any entry records key `k`.
spec fn seq_has_key(s: Seq<StoreEntry>, k: u64) -> bool
    decreases s.len(),
{
    if s.len() == 0 {
        false
    } else if s[0].key == k {
        true
    } else {
        seq_has_key(s.skip(1), k)
    }
}

spec fn holders_distinct(h: Seq<EntityId>) -> bool {
    forall|i: int, j: int| 0 <= i < j < h.len() ==> h[i] != h[j]
}

/// A recorded key never maps to an empty or duplicated holder list.
spec fn entry_wf(en: StoreEntry) -> bool {
    en.holders@.len() > 0 && holders_distinct(en.holders@)
}

spec fn keys_distinct(s: Seq<StoreEntry>) -> bool {
    forall|i: int, j: int| 0 <= i < j < s.len() ==> s[i].key != s[j].key
}

spec fn store_wf(s: Seq<StoreEntry>) -> bool {
    keys_distinct(s) && (forall|i: int| 0 <= i < s.len() ==> entry_wf(#[trigger] s[i]))
}

proof fn lemma_no_key(s: Seq<StoreEntry>, k: u64, e: EntityId)
    requires
        forall|j: int| 0 <= j < s.len() ==> s[j].key != k,
    ensures
        !seq_has_key(s, k),
        !seq_contains(s, k, e),
    decreases s.len(),
{
    if s.len() > 0 {
        assert forall|j: int| 0 <= j < s.skip(1).len() implies s.skip(1)[j].key != k by {
            assert(s.skip(1)[j] == s[j + 1]);
        }
        lemma_no_key(s.skip(1), k, e);
    }
}

proof fn lemma_store_remove(s: Seq<StoreEntry>, i: int, k2: u64, e2: EntityId)
    requires
        keys_distinct(s),
        0 <= i < s.len(),
    ensures
        seq_contains(s.remove(i), k2, e2)
            == (if k2 == s[i].key { false } else { seq_contains(s, k2, e2) }),
        seq_has_key(s.remove(i), k2)
            == (if k2 == s[i].key { false } else { seq_has_key(s, k2) }),
    decreases s.len(),
{
    let t = s.remove(i);
    if i == 0 {
        assert(t =~= s.skip(1));
        if k2 == s[0].key {
            assert forall|j: int| 0 <= j < s.skip(1).len() implies s.skip(1)[j].key != k2 by {
                assert(s.skip(1)[j] == s[j + 1]);
            }
            lemma_no_key(s.skip(1), k2, e2);
        } else {
            assert(seq_contains(s, k2, e2) == seq_contains(s.skip(1), k2, e2));
            assert(seq_has_key(s, k2) == seq_has_key(s.skip(1), k2));
        }
    } else {
        assert forall|a: int, b: int| 0 <= a < b < s.skip(1).len() implies
            s.skip(1)[a].key != s.skip(1)[b].key by {
            assert(s.skip(1)[a] == s[a + 1]);
            assert(s.skip(1)[b] == s[b + 1]);
        }
        lemma_store_remove(s.skip(1), i - 1, k2, e2);
        assert(t.skip(1) =~= s.skip(1).remove(i - 1));
        assert(t[0] == s[0]);
        assert(s.skip(1)[i - 1] == s[i]);
        if k2 == s[0].key {
            assert(s[0].key != s[i].key);
            assert(seq_contains(t, k2, e2) == t[0].holders@.contains(e2));
            assert(seq_contains(s, k2, e2) == s[0].holders@.contains(e2));
        } else {
            assert(seq_contains(t, k2, e2) == seq_contains(t.skip(1), k2, e2));
            assert(seq_contains(s, k2, e2) == seq_contains(s.skip(1), k2, e2));
            assert(seq_has_key(t, k2) == seq_has_key(t.skip(1), k2));
            assert(seq_has_key(s, k2) == seq_has_key(s.skip(1), k2));
        }
    }
}

proof fn lemma_store_update(s: Seq<StoreEntry>, i: int, en: StoreEntry, k2: u64, e2: EntityId)
    requires
        keys_distinct(s),
        0 <= i < s.len(),
        en.key == s[i].key,
    ensures
        seq_contains(s.update(i, en), k2, e2)
            == (if k2 == s[i].key { en.holders@.contains(e2) } else { seq_contains(s, k2, e2) }),
        seq_has_key(s.update(i, en), k2) == seq_has_key(s, k2),
    decreases s.len(),
{
    let t = s.update(i, en);
    if i == 0 {
        assert(t[0] == en);
        assert(t.skip(1) =~= s.skip(1));
        if k2 != s[0].key {
            assert(seq_contains(t, k2, e2) == seq_contains(t.skip(1), k2, e2));
            assert(seq_contains(s, k2, e2) == seq_contains(s.skip(1), k2, e2));
            assert(seq_has_key(t, k2) == seq_has_key(t.skip(1), k2));
            assert(seq_has_key(s, k2) == seq_has_key(s.skip(1), k2));
        }
    } else {
        assert forall|a: int, b: int| 0 <= a < b < s.skip(1).len() implies
            s.skip(1)[a].key != s.skip(1)[b].key by {
            assert(s.skip(1)[a] == s[a + 1]);
            assert(s.skip(1)[b] == s[b + 1]);
        }
        lemma_store_update(s.skip(1), i - 1, en, k2, e2);
        assert(t.skip(1) =~= s.skip(1).update(i - 1, en));
        assert(t[0] == s[0]);
        assert(s.skip(1)[i - 1] == s[i]);
        if k2 == s[0].key {
            assert(s[0].key != s[i].key);
            assert(seq_contains(t, k2, e2) == t[0].holders@.contains(e2));
            assert(seq_contains(s, k2, e2) == s[0].holders@.contains(e2));
        } else {
            assert(seq_contains(t, k2, e2) == seq_contains(t.skip(1), k2, e2));
            assert(seq_contains(s, k2, e2) == seq_contains(s.skip(1), k2, e2));
            assert(seq_has_key(t, k2) == seq_has_key(t.skip(1), k2));
            assert(seq_has_key(s, k2) == seq_has_key(s.skip(1), k2));
        }
    }
}

proof fn lemma_store_push(s: Seq<StoreEntry>, en: StoreEntry, k2: u64, e2: EntityId)
    requires
        forall|j: int| 0 <= j < s.len() ==> s[j].key != en.key,
    ensures
        seq_contains(s.push(en), k2, e2)
            == (if k2 == en.key { en.holders@.contains(e2) } else { seq_contains(s, k2, e2) }),
        seq_has_key(s.push(en), k2) == (seq_has_key(s, k2) || k2 == en.key),
    decreases s.len(),
{
    if s.len() == 0 {
        assert(s.push(en)[0] == en);
        assert(s.push(en).len() == 1);
        assert(s.push(en).skip(1) =~= Seq::<StoreEntry>::empty());
        assert(!seq_contains(Seq::<StoreEntry>::empty(), k2, e2));
        assert(!seq_has_key(Seq::<StoreEntry>::empty(), k2));
        assert(!seq_contains(s, k2, e2));
        assert(!seq_has_key(s, k2));
        if k2 != en.key {
            assert(seq_contains(s.push(en), k2, e2)
                == seq_contains(s.push(en).skip(1), k2, e2));
            assert(seq_has_key(s.push(en), k2) == seq_has_key(s.push(en).skip(1), k2));
        }
    } else {
        assert(s.push(en)[0] == s[0]);
        assert(s[0].key != en.key);
        assert forall|j: int| 0 <= j < s.skip(1).len() implies s.skip(1)[j].key != en.key by {
            assert(s.skip(1)[j] == s[j + 1]);
        }
        lemma_store_push(s.skip(1), en, k2, e2);
        assert(s.push(en).skip(1) =~= s.skip(1).push(en));
        if k2 == s[0].key {
            assert(seq_contains(s.push(en), k2, e2) == s[0].holders@.contains(e2));
            assert(seq_contains(s, k2, e2) == s[0].holders@.contains(e2));
        } else {
            assert(seq_contains(s.push(en), k2, e2)
                == seq_contains(s.skip(1).push(en), k2, e2));
            assert(seq_contains(s, k2, e2) == seq_contains(s.skip(1), k2, e2));
            assert(seq_has_key(s.push(en), k2) == seq_has_key(s.skip(1).push(en), k2));
            assert(seq_has_key(s, k2) == seq_has_key(s.skip(1), k2));
        }
    }
}

proof fn lemma_holders_push(h: Seq<EntityId>, x: EntityId, e2: EntityId)
    ensures
        h.push(x).contains(e2) == (h.contains(e2) || e2 == x),
{
    if h.contains(e2) {
        let w = choose|w: int| 0 <= w < h.len() && h[w] == e2;
        assert(h.push(x)[w] == e2);
        assert(h.push(x).contains(e2));
    }
    if e2 == x {
        assert(h.push(x)[h.len() as int] == e2);
        assert(h.push(x).contains(e2));
    }
    if h.push(x).contains(e2) && e2 != x {
        let w = choose|w: int| 0 <= w < h.push(x).len() && h.push(x)[w] == e2;
        assert(w < h.len());
        assert(h[w] == e2);
        assert(h.contains(e2));
    }
}

proof fn lemma_holders_remove(h: Seq<EntityId>, j: int, e2: EntityId)
    requires
        holders_distinct(h),
        0 <= j < h.len(),
    ensures
        h.remove(j).contains(e2) == (h.contains(e2) && e2 != h[j]),
        holders_distinct(h.remove(j)),
{
    let t = h.remove(j);
    if t.contains(e2) {
        let w = choose|w: int| 0 <= w < t.len() && t[w] == e2;
        if w < j {
            assert(h[w] == e2);
        } else {
            assert(h[w + 1] == e2);
        }
        assert(h.contains(e2));
        assert(e2 != h[j]);
    }
    if h.contains(e2) && e2 != h[j] {
        let w = choose|w: int| 0 <= w < h.len() && h[w] == e2;
        assert(w != j);
        if w < j {
            assert(t[w] == e2);
        } else {
            assert(t[w - 1] == e2);
        }
        assert(t.contains(e2));
    }
    assert forall|a: int, b: int| 0 <= a < b < t.len() implies t[a] != t[b] by {
        if b < j {
            assert(t[a] == h[a]);
            assert(t[b] == h[b]);
        } else if a < j {
            assert(t[a] == h[a]);
            assert(t[b] == h[b + 1]);
        } else {
            assert(t[a] == h[a + 1]);
            assert(t[b] == h[b + 1]);
        }
    }
}

proof fn lemma_skip_to(s: Seq<StoreEntry>, i: int, k: u64, e: EntityId)
    requires
        0 <= i <= s.len(),
        forall|j: int| 0 <= j < i ==> s[j].key != k,
    ensures
        seq_contains(s, k, e) == seq_contains(s.skip(i), k, e),
        seq_has_key(s, k) == seq_has_key(s.skip(i), k),
    decreases i,
{
    if i > 0 {
        assert(s[0].key != k);
        assert forall|j: int| 0 <= j < i - 1 implies s.skip(1)[j].key != k by {
            assert(s.skip(1)[j] == s[j + 1]);
        }
        lemma_skip_to(s.skip(1), i - 1, k, e);
        assert(s.skip(1).skip(i - 1) =~= s.skip(i));
    } else {
        assert(s.skip(0) =~= s);
    }
}

proof fn lemma_key_witness(s: Seq<StoreEntry>, k: u64)
    requires
        seq_has_key(s, k),
        forall|i: int| 0 <= i < s.len() ==> entry_wf(#[trigger] s[i]),
    ensures
        exists|e: EntityId| seq_contains(s, k, e),
    decreases s.len(),
{
    if s[0].key == k {
        assert(entry_wf(s[0]));
        let h = s[0].holders@;
        assert(h.contains(h[0]));
        assert(seq_contains(s, k, h[0]));
    } else {
        assert forall|i: int| 0 <= i < s.skip(1).len() implies entry_wf(#[trigger] s.skip(1)[i]) by {
            assert(s.skip(1)[i] == s[i + 1]);
        }
        lemma_key_witness(s.skip(1), k);
        let e = choose|e: EntityId| seq_contains(s.skip(1), k, e);
        assert(seq_contains(s, k, e));
    }
}

/// The canonical Index Store: a mapping from key to the non-empty set of
/// entities recorded under it, mutated exclusively through the
/// [`EntityIndex`] callbacks fired at flush time.
pub struct IndexStore {
    entries: Vec<StoreEntry>,
}

impl IndexStore {
    /// Whether any entity at all is recorded under `k`. A key whose last
    /// holder is removed is pruned, never kept with an empty set.
    pub closed spec fn has_key(self, k: u64) -> bool {
        seq_has_key(self.entries@, k)
    }

    /// Creates an empty store: nothing is recorded.
    pub fn new() -> (r: IndexStore)
        ensures
            r.inv(),
            forall|k: u64, e: EntityId| !(#[trigger] r.holds(k, e)),
            forall|k: u64| !(#[trigger] r.has_key(k)),
    {
        let r = IndexStore { entries: Vec::new() };
        proof {
            assert(r.entries@.len() == 0);
        }
        r
    }

    /// Records `entity` under `key`, creating the key's record if it is new.
    pub fn insert(&mut self, key: u64, entity: EntityId)
        requires
            old(self).inv(),
            !old(self).holds(key, entity),
        ensures
            final(self).inv(),
            forall|k2: u64, e2: EntityId| #[trigger] final(self).holds(k2, e2)
                == (old(self).holds(k2, e2) || (k2 == key && e2 == entity)),
            forall|k2: u64| #[trigger] final(self).has_key(k2)
                == (old(self).has_key(k2) || k2 == key),
    {
        let ghost s0 = self.entries@;
        let n = self.entries.len();
        let mut i: usize = 0;
        proof {
            assert(s0.skip(0) =~= s0);
        }
        while i < n
            invariant
                i <= n,
                n == s0.len(),
                s0 == self.entries@,
                s0 == old(self).entries@,
                store_wf(s0),
                !seq_contains(s0, key, entity),
                seq_contains(s0, key, entity) == seq_contains(s0.skip(i as int), key, entity),
                seq_has_key(s0, key) == seq_has_key(s0.skip(i as int), key),
                forall|j: int| 0 <= j < i ==> s0[j].key != key,
            decreases n - i,
        {
            if self.entries[i].key == key {
                proof {
                    assert(s0.skip(i as int)[0] == s0[i as int]);
                }
                let mut entry = self.entries.remove(i);
                let ghost h0 = entry.holders@;
                entry.holders.push(entity);
                let ghost en = entry;
                self.entries.insert(i, entry);
                proof {
                    assert(self.entries@ =~= s0.update(i as int, en));
                    assert(entry_wf(s0[i as int]));
                    assert(h0 == s0[i as int].holders@);
                    lemma_skip_to(s0, i as int, key, entity);
                    assert(s0.skip(i as int)[0] == s0[i as int]);
                    assert(seq_contains(s0, key, entity) == h0.contains(entity));
                    assert(!h0.contains(entity));
                    assert forall|a: int, b: int| 0 <= a < b < en.holders@.len() implies
                        en.holders@[a] != en.holders@[b] by {
                        assert(en.holders@ == h0.push(entity));
                        if b < h0.len() as int {
                            assert(en.holders@[a] == h0[a]);
                            assert(en.holders@[b] == h0[b]);
                        } else {
                            assert(en.holders@[a] == h0[a]);
                            assert(en.holders@[b] == entity);
                            assert(h0.contains(h0[a]));
                        }
                    }
                    assert(entry_wf(en));
                    assert forall|a: int| 0 <= a < self.entries@.len() implies
                        entry_wf(#[trigger] self.entries@[a]) by {
                        if a != i as int {
                            assert(self.entries@[a] == s0[a]);
                        }
                    }
                    assert forall|k2: u64, e2: EntityId| #[trigger] self.holds(k2, e2)
                        == (seq_contains(s0, k2, e2) || (k2 == key && e2 == entity)) by {
                        lemma_store_update(s0, i as int, en, k2, e2);
                        lemma_holders_push(h0, entity, e2);
                        assert(en.holders@ == h0.push(entity));
                        if k2 == key {
                            lemma_skip_to(s0, i as int, key, e2);
                            assert(s0.skip(i as int)[0] == s0[i as int]);
                            assert(seq_contains(s0, key, e2) == h0.contains(e2));
                        }
                    }
                    assert forall|k2: u64| #[trigger] self.has_key(k2)
                        == (seq_has_key(s0, k2) || k2 == key) by {
                        lemma_store_update(s0, i as int, en, k2, entity);
                        if k2 == key {
                            lemma_skip_to(s0, i as int, key, entity);
                        }
                    }
                }
                return ;
            }
            proof {
                assert(s0.skip(i as int)[0] == s0[i as int]);
                assert(s0.skip(i as int).skip(1) =~= s0.skip(i as int + 1));
            }
            i += 1;
        }
        let mut holders: Vec<EntityId> = Vec::new();
        holders.push(entity);
        let entry = StoreEntry { key, holders };
        let ghost en = entry;
        self.entries.push(entry);
        proof {
            assert(en.holders@.len() == 1);
            assert(entry_wf(en));
            assert forall|a: int| 0 <= a < self.entries@.len() implies
                entry_wf(#[trigger] self.entries@[a]) by {
                if a < s0.len() as int {
                    assert(self.entries@[a] == s0[a]);
                }
            }
            assert forall|a: int, b: int| 0 <= a < b < self.entries@.len() implies
                self.entries@[a].key != self.entries@[b].key by {
                if b < s0.len() as int {
                    assert(self.entries@[a] == s0[a]);
                    assert(self.entries@[b] == s0[b]);
                } else {
                    assert(self.entries@[a] == s0[a]);
                    assert(self.entries@[b] == en);
                }
            }
            assert(self.entries@ == s0.push(en));
            assert forall|k2: u64, e2: EntityId| #[trigger] self.holds(k2, e2)
                == (seq_contains(s0, k2, e2) || (k2 == key && e2 == entity)) by {
                lemma_store_push(s0, en, k2, e2);
                lemma_no_key(s0, key, e2);
                assert(en.holders@ == Seq::<EntityId>::empty().push(entity));
                lemma_holders_push(Seq::<EntityId>::empty(), entity, e2);
                assert(!Seq::<EntityId>::empty().contains(e2));
            }
            assert forall|k2: u64| #[trigger] self.has_key(k2)
                == (seq_has_key(s0, k2) || k2 == key) by {
                lemma_store_push(s0, en, k2, entity);
            }
        }
    }

    /// Deletes the record of `entity` under `key`. Removing the key's last
    /// holder prunes the key entirely. A removal for which the store has no
    /// record signals a broken invariant between slot storage and store and
    /// is reported as the exact [`IndexError`], with the store untouched.
    pub fn remove(&mut self, key: u64, entity: EntityId) -> (r: Result<(), IndexError>)
        requires
            old(self).inv(),
        ensures
            final(self).inv(),
            r is Ok <==> old(self).holds(key, entity),
            (r == Err::<(), IndexError>(IndexError::MissingKey)) <==> !old(self).has_key(key),
            (r == Err::<(), IndexError>(IndexError::MissingHolder))
                <==> (old(self).has_key(key) && !old(self).holds(key, entity)),
            r is Err ==> (forall|k2: u64, e2: EntityId| #[trigger] final(self).holds(k2, e2)
                == old(self).holds(k2, e2)),
            r is Err ==> (forall|k2: u64| #[trigger] final(self).has_key(k2)
                == old(self).has_key(k2)),
            r is Ok ==> (forall|k2: u64, e2: EntityId| #[trigger] final(self).holds(k2, e2)
                == (old(self).holds(k2, e2) && !(k2 == key && e2 == entity))),
    {
        let ghost s0 = self.entries@;
        let n = self.entries.len();
        let mut i: usize = 0;
        while i < n
            invariant
                i <= n,
                n == s0.len(),
                s0 == self.entries@,
                s0 == old(self).entries@,
                store_wf(s0),
                forall|j: int| 0 <= j < i ==> s0[j].key != key,
            decreases n - i,
        {
            if self.entries[i].key == key {
                return self.remove_at(Ghost(s0), i, key, entity);
            }
            i += 1;
        }
        proof {
            lemma_skip_to(s0, n as int, key, entity);
            assert(s0.skip(n as int) =~= Seq::<StoreEntry>::empty());
            assert(!seq_has_key(s0, key));
            assert(!seq_contains(s0, key, entity));
        }
        Err(IndexError::MissingKey)
    }

    /// Removal once the first entry for `key` has been located at `i`.
    fn remove_at(&mut self, Ghost(s0): Ghost<Seq<StoreEntry>>, i: usize, key: u64, entity: EntityId)
        -> (r: Result<(), IndexError>)
        requires
            s0 == old(self).entries@,
            store_wf(s0),
            i < s0.len(),
            s0[i as int].key == key,
            forall|j: int| 0 <= j < i ==> s0[j].key != key,
        ensures
            final(self).inv(),
            r is Ok <==> old(self).holds(key, entity),
            (r == Err::<(), IndexError>(IndexError::MissingKey)) <==> !old(self).has_key(key),
            (r == Err::<(), IndexError>(IndexError::MissingHolder))
                <==> (old(self).has_key(key) && !old(self).holds(key, entity)),
            r is Err ==> (forall|k2: u64, e2: EntityId| #[trigger] final(self).holds(k2, e2)
                == old(self).holds(k2, e2)),
            r is Err ==> (forall|k2: u64| #[trigger] final(self).has_key(k2)
                == old(self).has_key(k2)),
            r is Ok ==> (forall|k2: u64, e2: EntityId| #[trigger] final(self).holds(k2, e2)
                == (old(self).holds(k2, e2) && !(k2 == key && e2 == entity))),
    {
        let ghost h0 = s0[i as int].holders@;
        let m = self.entries[i].holders.len();
        let mut j: usize = 0;
        while j < m
            invariant
                j <= m,
                m == h0.len(),
                s0 == self.entries@,
                s0 == old(self).entries@,
                store_wf(s0),
                i < s0.len(),
                s0[i as int].key == key,
                h0 == s0[i as int].holders@,
                forall|w: int| 0 <= w < i ==> s0[w].key != key,
                forall|w: int| 0 <= w < j ==> h0[w] != entity,
            decreases m - j,
        {
            if self.entries[i].holders[j] == entity {
                proof {
                    assert(h0[j as int] == entity);
                    assert(h0.contains(entity));
                    assert(entry_wf(s0[i as int]));
                    lemma_skip_to(s0, i as int, key, entity);
                    assert(s0.skip(i as int)[0] == s0[i as int]);
                    assert(seq_contains(s0, key, entity) == h0.contains(entity));
                    assert(seq_has_key(s0, key));
                }
                if self.entries[i].holders.len() == 1 {
                    self.entries.remove(i);
                    proof {
                        assert(self.entries@ == s0.remove(i as int));
                        assert forall|a: int, b: int| 0 <= a < b < self.entries@.len() implies
                            self.entries@[a].key != self.entries@[b].key by {
                            if b < i as int {
                                assert(self.entries@[a] == s0[a]);
                                assert(self.entries@[b] == s0[b]);
                            } else if a < i as int {
                                assert(self.entries@[a] == s0[a]);
                                assert(self.entries@[b] == s0[b + 1]);
                            } else {
                                assert(self.entries@[a] == s0[a + 1]);
                                assert(self.entries@[b] == s0[b + 1]);
                            }
                        }
                        assert forall|a: int| 0 <= a < self.entries@.len() implies
                            entry_wf(#[trigger] self.entries@[a]) by {
                            if a < i as int {
                                assert(self.entries@[a] == s0[a]);
                            } else {
                                assert(self.entries@[a] == s0[a + 1]);
                            }
                        }
                        assert(h0.len() == 1);
                        assert(h0[0] == entity);
                        assert forall|k2: u64, e2: EntityId| #[trigger] self.holds(k2, e2)
                            == (seq_contains(s0, k2, e2) && !(k2 == key && e2 == entity)) by {
                            lemma_store_remove(s0, i as int, k2, e2);
                            if k2 == key {
                                lemma_skip_to(s0, i as int, key, e2);
                                assert(s0.skip(i as int)[0] == s0[i as int]);
                                assert(seq_contains(s0, key, e2) == h0.contains(e2));
                                if seq_contains(s0, k2, e2) {
                                    let w = choose|w: int| 0 <= w < h0.len() && h0[w] == e2;
                                    assert(e2 == entity);
                                }
                            }
                        }
                    }
                } else {
                    let mut entry = self.entries.remove(i);
                    entry.holders.remove(j);
                    let ghost en = entry;
                    self.entries.insert(i, entry);
                    proof {
                        assert(self.entries@ =~= s0.update(i as int, en));
                        assert(en.holders@ == h0.remove(j as int));
                        lemma_holders_remove(h0, j as int, entity);
                        assert(en.holders@.len() == h0.len() - 1);
                        assert(entry_wf(en));
                        assert forall|a: int| 0 <= a < self.entries@.len() implies
                            entry_wf(#[trigger] self.entries@[a]) by {
                            if a != i as int {
                                assert(self.entries@[a] == s0[a]);
                            }
                        }
                        assert forall|k2: u64, e2: EntityId| #[trigger] self.holds(k2, e2)
                            == (seq_contains(s0, k2, e2) && !(k2 == key && e2 == entity)) by {
                            lemma_store_update(s0, i as int, en, k2, e2);
                            lemma_holders_remove(h0, j as int, e2);
                            if k2 == key {
                                lemma_skip_to(s0, i as int, key, e2);
                                assert(s0.skip(i as int)[0] == s0[i as int]);
                                assert(seq_contains(s0, key, e2) == h0.contains(e2));
                            }
                        }
                        assert forall|k2: u64| #[trigger] self.has_key(k2)
                            == seq_has_key(s0, k2) by {
                            lemma_store_update(s0, i as int, en, k2, entity);
                        }
                    }
                }
                return Ok(());
            }
            j += 1;
        }
        proof {
            assert(!h0.contains(entity));
            lemma_skip_to(s0, i as int, key, entity);
            assert(s0.skip(i as int)[0] == s0[i as int]);
            assert(seq_contains(s0, key, entity) == h0.contains(entity));
            assert(seq_has_key(s0, key));
        }
        Err(IndexError::MissingHolder)
    }

    /// Reads whether `entity` is recorded under `key`.
    pub fn has(&self, key: u64, entity: EntityId) -> (r: bool)
        ensures
            r == self.holds(key, entity),
    {
        let ghost s0 = self.entries@;
        let n = self.entries.len();
        let mut i: usize = 0;
        proof {
            assert(s0.skip(0) =~= s0);
        }
        while i < n
            invariant
                i <= n,
                n == s0.len(),
                s0 == self.entries@,
                seq_contains(s0, key, entity) == seq_contains(s0.skip(i as int), key, entity),
            decreases n - i,
        {
            if self.entries[i].key == key {
                proof {
                    assert(s0.skip(i as int)[0] == s0[i as int]);
                }
                return self.holder_scan(Ghost(s0), i, key, entity);
            }
            proof {
                assert(s0.skip(i as int)[0] == s0[i as int]);
                assert(s0.skip(i as int).skip(1) =~= s0.skip(i as int + 1));
            }
            i += 1;
        }
        proof {
            assert(s0.skip(n as int) =~= Seq::<StoreEntry>::empty());
        }
        false
    }

    /// Scans the holder list of the entry at `i` for `entity`.
    fn holder_scan(&self, Ghost(s0): Ghost<Seq<StoreEntry>>, i: usize, key: u64, entity: EntityId)
        -> (r: bool)
        requires
            s0 == self.entries@,
            i < s0.len(),
            s0[i as int].key == key,
            seq_contains(s0, key, entity) == s0[i as int].holders@.contains(entity),
        ensures
            r == self.holds(key, entity),
    {
        let ghost h0 = s0[i as int].holders@;
        let m = self.entries[i].holders.len();
        let mut j: usize = 0;
        while j < m
            invariant
                j <= m,
                m == h0.len(),
                s0 == self.entries@,
                i < s0.len(),
                h0 == s0[i as int].holders@,
                seq_contains(s0, key, entity) == h0.contains(entity),
                forall|w: int| 0 <= w < j ==> h0[w] != entity,
            decreases m - j,
        {
            if self.entries[i].holders[j] == entity {
                proof {
                    assert(h0[j as int] == entity);
                    assert(h0.contains(entity));
                }
                return true;
            }
            j += 1;
        }
        proof {
            assert(!h0.contains(entity));
        }
        false
    }

    /// Reads whether any entity is recorded under `key`.
    pub fn contains_key(&self, key: u64) -> (r: bool)
        ensures
            r == self.has_key(key),
    {
        let ghost s0 = self.entries@;
        let n = self.entries.len();
        let mut i: usize = 0;
        proof {
            assert(s0.skip(0) =~= s0);
        }
        while i < n
            invariant
                i <= n,
                n == s0.len(),
                s0 == self.entries@,
                seq_has_key(s0, key) == seq_has_key(s0.skip(i as int), key),
            decreases n - i,
        {
            if self.entries[i].key == key {
                proof {
                    assert(s0.skip(i as int)[0] == s0[i as int]);
                }
                return true;
            }
            proof {
                assert(s0.skip(i as int)[0] == s0[i as int]);
                assert(s0.skip(i as int).skip(1) =~= s0.skip(i as int + 1));
            }
            i += 1;
        }
        proof {
            assert(s0.skip(n as int) =~= Seq::<StoreEntry>::empty());
        }
        false
    }

    /// No orphan keys: a recorded key always has at least one holder, and a
    /// recorded holder always makes its key visible. In particular no key
    /// maps to an empty set.
    pub proof fn lemma_no_orphans(self, k: u64)
        requires
            self.inv(),
        ensures
            self.has_key(k) <==> exists|e: EntityId| self.holds(k, e),
    {
        if self.has_key(k) {
            lemma_key_witness(self.entries@, k);
            let e = choose|e: EntityId| seq_contains(self.entries@, k, e);
            assert(self.holds(k, e));
        }
        if exists|e: EntityId| self.holds(k, e) {
            let e = choose|e: EntityId| self.holds(k, e);
            lemma_contains_has_key(self.entries@, k, e);
        }
    }
}

proof fn lemma_contains_has_key(s: Seq<StoreEntry>, k: u64, e: EntityId)
    requires
        seq_contains(s, k, e),
    ensures
        seq_has_key(s, k),
    decreases s.len(),
{
    if s.len() > 0 && s[0].key != k {
        lemma_contains_has_key(s.skip(1), k, e);
    }
}

impl EntityIndex for IndexStore {
    /// Whether `entity` is recorded under `key`.
    closed spec fn holds(&self, key: u64, entity: EntityId) -> bool {
        seq_contains(self.entries@, key, entity)
    }

    /// Keys are unique, holder lists are non-empty and duplicate-free.
    closed spec fn inv(&self) -> bool {
        store_wf(self.entries@)
    }

    fn on_insert(&mut self, entity: EntityId, value: u64) {
        self.insert(value, entity);
    }

    fn on_remove(&mut self, entity: EntityId, value: u64) {
        let r = self.remove(value, entity);
        proof {
            assert(r is Ok);
        }
    }
}

} // verus!
