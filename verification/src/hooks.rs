use vstd::prelude::*;

use crate::entity::EntityId;
use crate::slot::Index;
use crate::slot::SlotMap;

verus! {

/// The Key Capability: the contract an index-store maintainer implements to
/// opt into indexing. The flush machinery is the only caller of these two
/// hooks; arbitrary application code never mutates the store directly, so
/// every store mutation is one of the two slot transitions below.
pub trait EntityIndex: Sized {
    /// Whether the store currently records `entity` under `key`.
    spec fn holds(&self, key: u64, entity: EntityId) -> bool;

    /// The implementer's own well-formedness invariant.
    spec fn inv(&self) -> bool;

    /// Invoked exactly once, right after a slot holding `value` was created
    /// for `entity` and before the enclosing flush completes. The record
    /// must be new: the flush machinery never announces the same holding
    /// twice.
    fn on_insert(&mut self, entity: EntityId, value: u64)
        requires
            old(self).inv(),
            !old(self).holds(value, entity),
        ensures
            final(self).inv(),
            forall|k: u64, e: EntityId| #[trigger] final(self).holds(k, e)
                == (old(self).holds(k, e) || (k == value && e == entity)),
    ;

    /// Invoked exactly once, with the value about to be discarded, right
    /// before `entity`'s slot is destroyed. A call for a holding the store
    /// has no record of would be a fatal internal-consistency failure (an
    /// insert was missed or a remove was doubled); the contract rules such
    /// calls out, and the flush machinery is proved never to make one.
    fn on_remove(&mut self, entity: EntityId, value: u64)
        requires
            old(self).inv(),
            old(self).holds(value, entity),
        ensures
            final(self).inv(),
            forall|k: u64, e: EntityId| #[trigger] final(self).holds(k, e)
                == (old(self).holds(k, e) && !(k == value && e == entity)),
    ;
}

/// One deferred structural mutation of a batch, applied at flush time.
#[derive(Clone, Copy, PartialEq, Eq, Structural, Debug)]
pub enum Command {
    /// Attach the wrapped key to the entity, replacing a slot it already
    /// holds.
    Attach(EntityId, Index),
    /// Detach the entity's slot, if it holds one.
    Detach(EntityId),
    /// Destroy the entity; its slot, if any, is torn down with it and still
    /// fires the removal hook with the last held value.
    Destroy(EntityId),
}

/// One Key Capability callback as fired during a flush, in firing order.
#[derive(Clone, Copy, PartialEq, Eq, Structural, Debug)]
pub enum HookEvent {
    /// `on_insert` fired for the entity with the given value.
    Inserted(EntityId, u64),
    /// `on_remove` fired for the entity with the given value.
    Removed(EntityId, u64),
}

/// The key an entity holds under the abstract slot state `m`.
pub open spec fn lookup(m: Map<EntityId, u64>, e: EntityId) -> Option<u64> {
    if m.dom().contains(e) {
        Some(m[e])
    } else {
        None
    }
}

/// The slot state after one command.
pub open spec fn apply_command(m: Map<EntityId, u64>, c: Command) -> Map<EntityId, u64> {
    match c {
        Command::Attach(e, ix) => m.insert(e, ix.0),
        Command::Detach(e) => m.remove(e),
        Command::Destroy(e) => m.remove(e),
    }
}

/// The slot state after a whole batch, applied in submission order.
pub open spec fn apply_batch(m: Map<EntityId, u64>, cs: Seq<Command>) -> Map<EntityId, u64>
    decreases cs.len(),
{
    if cs.len() == 0 {
        m
    } else {
        apply_batch(apply_command(m, cs[0]), cs.skip(1))
    }
}

/// The hook calls one command fires against slot state `m`: a replacement
/// announces the removal of the old value before the insertion of the new
/// one, and a detach or destroy of an entity without a slot fires nothing.
pub open spec fn command_trace(m: Map<EntityId, u64>, c: Command) -> Seq<HookEvent> {
    match c {
        Command::Attach(e, ix) => match lookup(m, e) {
            Some(k0) => seq![HookEvent::Removed(e, k0), HookEvent::Inserted(e, ix.0)],
            None => seq![HookEvent::Inserted(e, ix.0)],
        },
        Command::Detach(e) => match lookup(m, e) {
            Some(k0) => seq![HookEvent::Removed(e, k0)],
            None => Seq::empty(),
        },
        Command::Destroy(e) => match lookup(m, e) {
            Some(k0) => seq![HookEvent::Removed(e, k0)],
            None => Seq::empty(),
        },
    }
}

/// The hook calls a whole batch fires, in submission order.
pub open spec fn batch_trace(m: Map<EntityId, u64>, cs: Seq<Command>) -> Seq<HookEvent>
    decreases cs.len(),
{
    if cs.len() == 0 {
        Seq::empty()
    } else {
        command_trace(m, cs[0]) + batch_trace(apply_command(m, cs[0]), cs.skip(1))
    }
}

/// The synchronization invariant: the store records an entity under a key
/// exactly when the entity's slot holds that key. It holds at every flush
/// boundary, never necessarily mid-batch.
pub open spec fn synced<S: EntityIndex>(slots: SlotMap, store: S) -> bool {
    forall|k: u64, e: EntityId| #[trigger] store.holds(k, e) <==> slots.key_of(e) == Some(k)
}

proof fn lemma_apply_batch_snoc(m: Map<EntityId, u64>, cs: Seq<Command>, i: int)
    requires
        0 <= i < cs.len(),
    ensures
        apply_batch(m, cs.take(i + 1)) == apply_command(apply_batch(m, cs.take(i)), cs[i]),
    decreases i,
{
    let t1 = cs.take(i + 1);
    let m1 = apply_command(m, cs[0]);
    if i == 0 {
        assert(cs.take(0) =~= Seq::<Command>::empty());
        assert(t1.len() == 1);
        assert(t1[0] == cs[0]);
        assert(t1.skip(1) =~= Seq::<Command>::empty());
        assert(apply_batch(m1, t1.skip(1)) == m1);
        assert(apply_batch(m, t1) == apply_batch(m1, t1.skip(1)));
        assert(apply_batch(m, cs.take(0)) == m);
    } else {
        lemma_apply_batch_snoc(m1, cs.skip(1), i - 1);
        assert(t1[0] == cs[0]);
        assert(t1.skip(1) =~= cs.skip(1).take(i));
        assert(cs.take(i)[0] == cs[0]);
        assert(cs.take(i).skip(1) =~= cs.skip(1).take(i - 1));
        assert(cs.skip(1)[i - 1] == cs[i]);
        assert(apply_batch(m, t1) == apply_batch(m1, cs.skip(1).take(i)));
        assert(apply_batch(m, cs.take(i)) == apply_batch(m1, cs.skip(1).take(i - 1)));
    }
}

proof fn lemma_batch_trace_snoc(m: Map<EntityId, u64>, cs: Seq<Command>, i: int)
    requires
        0 <= i < cs.len(),
    ensures
        batch_trace(m, cs.take(i + 1))
            == batch_trace(m, cs.take(i)) + command_trace(apply_batch(m, cs.take(i)), cs[i]),
    decreases i,
{
    let t1 = cs.take(i + 1);
    if i == 0 {
        assert(cs.take(0) =~= Seq::<Command>::empty());
        assert(t1.len() == 1);
        assert(t1[0] == cs[0]);
        assert(t1.skip(1) =~= Seq::<Command>::empty());
        assert(batch_trace(apply_command(m, cs[0]), t1.skip(1)) == Seq::<HookEvent>::empty());
        assert(batch_trace(m, t1) == command_trace(m, cs[0]) + Seq::<HookEvent>::empty());
        assert(command_trace(m, cs[0]) + Seq::<HookEvent>::empty() =~= command_trace(m, cs[0]));
        assert(batch_trace(m, cs.take(0)) == Seq::<HookEvent>::empty());
        assert(Seq::<HookEvent>::empty() + command_trace(m, cs[0]) =~= command_trace(m, cs[0]));
    } else {
        let m1 = apply_command(m, cs[0]);
        lemma_batch_trace_snoc(m1, cs.skip(1), i - 1);
        assert(t1[0] == cs[0]);
        assert(t1.skip(1) =~= cs.skip(1).take(i));
        assert(cs.take(i)[0] == cs[0]);
        assert(cs.take(i).skip(1) =~= cs.skip(1).take(i - 1));
        assert(cs.skip(1)[i - 1] == cs[i]);
        let a = command_trace(m, cs[0]);
        let b = batch_trace(m1, cs.skip(1).take(i - 1));
        let c = command_trace(apply_batch(m1, cs.skip(1).take(i - 1)), cs[i]);
        assert(batch_trace(m, t1) == a + batch_trace(m1, cs.skip(1).take(i)));
        assert(batch_trace(m1, cs.skip(1).take(i)) == b + c);
        assert(batch_trace(m, cs.take(i)) == a + b);
        assert(apply_batch(m, cs.take(i)) == apply_batch(m1, cs.skip(1).take(i - 1)));
        assert(a + (b + c) =~= (a + b) + c);
    }
}

/// Applies a batch of structural mutations in submission order, firing the
/// Key Capability hooks synchronously: exactly one `on_insert` per slot
/// creation and one `on_remove` per slot destruction, the latter always
/// before the value is gone. Returns the fired hook calls in order.
///
/// This is the sole mutation path of slot storage and store alike, so the
/// synchronization invariant is re-established at every flush boundary: for
/// every key, the store's record is exactly the set of entities whose slot
/// holds that key.
pub fn flush<S: EntityIndex>(slots: &mut SlotMap, store: &mut S, batch: &Vec<Command>)
    -> (trace: Vec<HookEvent>)
    requires
        old(slots).wf(),
        old(store).inv(),
        synced(*old(slots), *old(store)),
    ensures
        final(slots).wf(),
        final(store).inv(),
        synced(*final(slots), *final(store)),
        final(slots)@ == apply_batch(old(slots)@, batch@),
        trace@ == batch_trace(old(slots)@, batch@),
{
    let ghost m0 = old(slots)@;
    let ghost mut m = m0;
    let mut trace: Vec<HookEvent> = Vec::new();
    let n = batch.len();
    let mut i: usize = 0;
    proof {
        assert(batch@.take(0) =~= Seq::<Command>::empty());
        assert forall|e2: EntityId| #[trigger] slots.key_of(e2) == lookup(m, e2) by {
            slots.lemma_view_lookup(e2);
        }
    }
    while i < n
        invariant
            i <= n,
            n == batch@.len(),
            slots.wf(),
            store.inv(),
            synced(*slots, *store),
            m == apply_batch(m0, batch@.take(i as int)),
            trace@ == batch_trace(m0, batch@.take(i as int)),
            forall|e2: EntityId| #[trigger] slots.key_of(e2) == lookup(m, e2),
        decreases n - i,
    {
        let cmd = batch[i];
        let ghost m_pre = m;
        let ghost t_pre = trace@;
        let ghost slots0 = *slots;
        let ghost store0 = *store;
        match cmd {
            Command::Attach(e, ix) => {
                let prev = slots.detach(e);
                let ghost slots1 = *slots;
                match prev {
                    Some(k0) => {
                        proof {
                            assert(store.holds(k0, e));
                        }
                        store.on_remove(e, k0);
                        trace.push(HookEvent::Removed(e, k0));
                    }
                    None => {}
                }
                let ghost store1 = *store;
                proof {
                    assert(slots1.key_of(e) is None);
                    if prev is Some {
                        assert(!store1.holds(ix.0, e));
                    } else {
                        assert(store1.holds(ix.0, e) <==> slots0.key_of(e) == Some(ix.0));
                        assert(!store1.holds(ix.0, e));
                    }
                }
                slots.attach(e, ix);
                store.on_insert(e, ix.0);
                trace.push(HookEvent::Inserted(e, ix.0));
                proof {
                    assert forall|k: u64, e2: EntityId| #[trigger] store.holds(k, e2)
                        <==> slots.key_of(e2) == Some(k) by {
                        assert(store.holds(k, e2)
                            == (store1.holds(k, e2) || (k == ix.0 && e2 == e)));
                        assert(slots.key_of(e2)
                            == (if e2 == e { Some(ix.0) } else { slots1.key_of(e2) }));
                        assert(slots1.key_of(e2)
                            == (if e2 == e { None::<u64> } else { slots0.key_of(e2) }));
                        if e2 != e {
                            assert(store1.holds(k, e2) == store0.holds(k, e2));
                            assert(store0.holds(k, e2) <==> slots0.key_of(e2) == Some(k));
                        } else {
                            assert(!store1.holds(k, e2)
                                || (store1.holds(k, e2) == store0.holds(k, e2)));
                            if store1.holds(k, e2) {
                                assert(store0.holds(k, e2));
                                assert(slots0.key_of(e) == Some(k));
                                assert(prev == Some(k));
                                assert(prev is Some);
                                assert(false);
                            }
                        }
                    }
                    assert(lookup(m_pre, e) == slots0.key_of(e));
                    if prev is Some {
                        assert(trace@ =~= t_pre + seq![
                            HookEvent::Removed(e, prev->Some_0),
                            HookEvent::Inserted(e, ix.0),
                        ]);
                    } else {
                        assert(trace@ =~= t_pre + seq![HookEvent::Inserted(e, ix.0)]);
                    }
                }
            }
            Command::Detach(e) | Command::Destroy(e) => {
                let prev = slots.detach(e);
                let ghost slots1 = *slots;
                match prev {
                    Some(k0) => {
                        proof {
                            assert(store.holds(k0, e));
                        }
                        store.on_remove(e, k0);
                        trace.push(HookEvent::Removed(e, k0));
                    }
                    None => {}
                }
                proof {
                    assert forall|k: u64, e2: EntityId| #[trigger] store.holds(k, e2)
                        <==> slots.key_of(e2) == Some(k) by {
                        assert(slots.key_of(e2)
                            == (if e2 == e { None::<u64> } else { slots0.key_of(e2) }));
                        if prev is Some {
                            assert(store.holds(k, e2)
                                == (store0.holds(k, e2) && !(k == prev->Some_0 && e2 == e)));
                        } else {
                            assert(store.holds(k, e2) == store0.holds(k, e2));
                        }
                        assert(store0.holds(k, e2) <==> slots0.key_of(e2) == Some(k));
                    }
                    assert(lookup(m_pre, e) == slots0.key_of(e));
                    if prev is Some {
                        assert(trace@ =~= t_pre + seq![HookEvent::Removed(e, prev->Some_0)]);
                    } else {
                        assert(trace@ =~= t_pre + Seq::<HookEvent>::empty());
                    }
                }
            }
        }
        proof {
            m = apply_command(m_pre, cmd);
            lemma_apply_batch_snoc(m0, batch@, i as int);
            lemma_batch_trace_snoc(m0, batch@, i as int);
            assert(command_trace(m_pre, cmd) == command_trace(apply_batch(m0, batch@.take(i as int)), batch@[i as int]));
            assert(trace@ == batch_trace(m0, batch@.take(i as int + 1)));
            assert forall|e2: EntityId| #[trigger] slots.key_of(e2) == lookup(m, e2) by {
                assert(slots0.key_of(e2) == lookup(m_pre, e2));
            }
        }
        i += 1;
    }
    proof {
        assert(batch@.take(n as int) =~= batch@);
        assert forall|e2: EntityId| #[trigger] slots@.dom().contains(e2) == m.dom().contains(e2) by {
            slots.lemma_view_lookup(e2);
            assert(slots.key_of(e2) == lookup(m, e2));
        }
        assert forall|e2: EntityId| slots@.dom().contains(e2) implies slots@[e2] == m[e2] by {
            slots.lemma_view_lookup(e2);
            assert(slots.key_of(e2) == lookup(m, e2));
        }
        assert(slots@.dom() =~= m.dom());
        assert(slots@ =~= m);
    }
    trace
}

/// Ordering law: attaching `k1`, detaching, then attaching `k2`, all for the
/// same previously unindexed entity and submitted in one batch, fire exactly
/// insert(k1), remove(k1), insert(k2), in that order.
pub proof fn lemma_hook_order(m: Map<EntityId, u64>, e: EntityId, k1: Index, k2: Index)
    requires
        !m.dom().contains(e),
    ensures
        batch_trace(m, seq![Command::Attach(e, k1), Command::Detach(e), Command::Attach(e, k2)])
            == seq![
                HookEvent::Inserted(e, k1.0),
                HookEvent::Removed(e, k1.0),
                HookEvent::Inserted(e, k2.0),
            ],
{
    let cs = seq![Command::Attach(e, k1), Command::Detach(e), Command::Attach(e, k2)];
    let m1 = m.insert(e, k1.0);
    let m2 = m1.remove(e);
    let m3 = m2.insert(e, k2.0);
    let cs1 = seq![Command::Detach(e), Command::Attach(e, k2)];
    let cs2 = seq![Command::Attach(e, k2)];
    assert(cs[0] == Command::Attach(e, k1));
    assert(cs.skip(1) =~= cs1);
    assert(cs1[0] == Command::Detach(e));
    assert(cs1.skip(1) =~= cs2);
    assert(cs2[0] == Command::Attach(e, k2));
    assert(cs2.skip(1) =~= Seq::<Command>::empty());
    assert(lookup(m, e) is None);
    assert(lookup(m1, e) == Some(k1.0));
    assert(lookup(m2, e) is None);
    assert(command_trace(m, cs[0]) == seq![HookEvent::Inserted(e, k1.0)]);
    assert(command_trace(m1, cs1[0]) == seq![HookEvent::Removed(e, k1.0)]);
    assert(command_trace(m2, cs2[0]) == seq![HookEvent::Inserted(e, k2.0)]);
    assert(apply_command(m, cs[0]) == m1);
    assert(apply_command(m1, cs1[0]) == m2);
    assert(apply_command(m2, cs2[0]) == m3);
    assert(batch_trace(m3, Seq::<Command>::empty()) == Seq::<HookEvent>::empty());
    assert(batch_trace(m2, cs2) == command_trace(m2, cs2[0]) + Seq::<HookEvent>::empty());
    assert(batch_trace(m1, cs1) == command_trace(m1, cs1[0]) + batch_trace(m2, cs2));
    assert(batch_trace(m, cs) == command_trace(m, cs[0]) + batch_trace(m1, cs1));
    assert(batch_trace(m, cs) =~= seq![
        HookEvent::Inserted(e, k1.0),
        HookEvent::Removed(e, k1.0),
        HookEvent::Inserted(e, k2.0),
    ]);
}

/// The synchronization invariant in set form: under `synced`, the set of
/// entities the store records under a key is exactly the set of entities
/// whose slot holds that key.
pub proof fn lemma_synced_exact<S: EntityIndex>(slots: SlotMap, store: S, k: u64)
    requires
        synced(slots, store),
    ensures
        Set::new(|e: EntityId| store.holds(k, e))
            == Set::new(|e: EntityId| slots.key_of(e) == Some(k)),
{
    let s1 = Set::new(|e: EntityId| store.holds(k, e));
    let s2 = Set::new(|e: EntityId| slots.key_of(e) == Some(k));
    assert forall|e: EntityId| #[trigger] s1.contains(e) == s2.contains(e) by {
        assert(store.holds(k, e) <==> slots.key_of(e) == Some(k));
    }
    assert(s1 =~= s2);
}

} // verus!
