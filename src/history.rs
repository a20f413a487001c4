use crate::component_set::ComponentKind;
use crate::world::{allowed, empty_world, step, Op, WorldModel};
use vstd::prelude::*;

verus! {

/// The registry after the calls `ops` on a new one, as the contracts of
/// `World`'s methods give it.
pub open spec fn replay<C>(ops: Seq<Op<C>>) -> WorldModel<C>
    decreases ops.len(),
{
    if ops.len() == 0 {
        empty_world()
    } else {
        step(replay(ops.drop_last()), ops.last())
    }
}

/// Every call of `ops` is made as its contract asks.
pub open spec fn admissible<C>(ops: Seq<Op<C>>) -> bool
    decreases ops.len(),
{
    ops.len() == 0 || (admissible(ops.drop_last()) && allowed(replay(ops.drop_last()), ops.last()))
}

/// `op` attaches a component of type `k`.
pub open spec fn attaches<C>(op: Op<C>, k: ComponentKind) -> bool {
    match op {
        Op::Attach { kind, .. } => kind == k,
        Op::NewEntity => false,
    }
}

/// One call keeps every storage aligned with the entity count.
pub proof fn lemma_step_aligned<C>(w: WorldModel<C>, op: Op<C>)
    requires
        w.aligned(),
        allowed(w, op),
    ensures
        step(w, op).aligned(),
{
    let s = step(w, op);
    assert forall|k: ComponentKind| #[trigger] s.storages.contains_key(k) implies s.storages[k].len()
        == s.entities_count by {
        if w.storages.contains_key(k) {
            assert(w.storages[k].len() == w.entities_count);
        }
    }
}

/// Alignment: after any sequence of calls made as their contracts ask,
/// every storage has one slot per entity.
pub proof fn lemma_replay_aligned<C>(ops: Seq<Op<C>>)
    requires
        admissible(ops),
    ensures
        replay(ops).aligned(),
    decreases ops.len(),
{
    if ops.len() > 0 {
        lemma_replay_aligned(ops.drop_last());
        lemma_step_aligned(replay(ops.drop_last()), ops.last());
    }
}

/// Attaching `v2` where `v1` was attached leaves `v2` alone at that slot,
/// exactly as attaching `v2` directly would, and the storage keeps one slot
/// per entity.
pub proof fn lemma_reattach_replaces<C>(
    w: WorldModel<C>,
    entity: usize,
    kind: ComponentKind,
    v1: C,
    v2: C,
)
    requires
        w.aligned(),
        entity < w.entities_count,
    ensures
        step(step(w, Op::Attach { entity, kind, value: v1 }), Op::Attach { entity, kind, value: v2 })
            == step(w, Op::Attach { entity, kind, value: v2 }),
        step(w, Op::Attach { entity, kind, value: v2 }).storages[kind][entity as int] == Some(v2),
        step(w, Op::Attach { entity, kind, value: v2 }).storages[kind].len() == w.entities_count,
{
    let twice = step(
        step(w, Op::Attach { entity, kind, value: v1 }),
        Op::Attach { entity, kind, value: v2 },
    );
    let direct = step(w, Op::Attach { entity, kind, value: v2 });
    if w.storages.contains_key(kind) {
        assert(w.storages[kind].len() == w.entities_count);
    }
    assert(twice.storages[kind] =~= direct.storages[kind]);
    assert(twice.storages =~= direct.storages);
}

/// Absence: after any sequence of calls, a storage exists for `k` exactly
/// when some call attached a component of type `k`.
pub proof fn lemma_replay_registered<C>(ops: Seq<Op<C>>, k: ComponentKind)
    ensures
        replay(ops).storages.contains_key(k) <==> exists|i: int|
            0 <= i < ops.len() && attaches(#[trigger] ops[i], k),
    decreases ops.len(),
{
    if ops.len() > 0 {
        let pre = ops.drop_last();
        lemma_replay_registered(pre, k);
        assert(replay(ops).storages.contains_key(k) <==> (replay(pre).storages.contains_key(k)
            || attaches(ops.last(), k)));
        if exists|i: int| 0 <= i < pre.len() && attaches(#[trigger] pre[i], k) {
            let i = choose|i: int| 0 <= i < pre.len() && attaches(#[trigger] pre[i], k);
            assert(ops[i] == pre[i]);
        }
        if exists|i: int| 0 <= i < ops.len() && attaches(#[trigger] ops[i], k) {
            let i = choose|i: int| 0 <= i < ops.len() && attaches(#[trigger] ops[i], k);
            if i < pre.len() {
                assert(pre[i] == ops[i]);
            }
        }
    } else {
        assert(replay(ops).storages == Map::<ComponentKind, Seq<Option<C>>>::empty());
    }
}

} // verus!
