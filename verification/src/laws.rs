//! The store's laws: properties that hold of every well-formed store and of
//! every migration, stated once and proved from the operations' contracts.

use vstd::prelude::*;

use crate::component::{ComponentId, ComponentValue};
use crate::entity::{count_at, EntityId};
use crate::Ecs;

verus! {

/// Density invariant: in a well-formed store, all columns of any archetype
/// have the same length, and that length equals the number of live entities
/// recorded against the archetype.
pub proof fn lemma_density(ecs: Ecs, a: int)
    requires
        ecs.wf(),
        0 <= a < ecs.n_archs(),
    ensures
        forall|j: int|
            0 <= j < ecs.arch_at(a).component_insts@.len() ==> (#[trigger] ecs.arch_at(
                a,
            ).component_insts@[j])@.len() == ecs.arch_at(a).rows,
        ecs.arch_at(a).rows == count_at(ecs.entity_index@, a),
{
    assert(ecs.arch_at(a).cols_wf());
}

/// Row validity: every live entity's record points below the length of its
/// archetype's columns.
pub proof fn lemma_row_validity(ecs: Ecs, e: EntityId)
    requires
        ecs.wf(),
        ecs.valid_eid(e),
    ensures
        ecs.rec_of(e).archetype.0 < ecs.n_archs(),
        ecs.rec_of(e).row < ecs.arch_at(ecs.rec_of(e).archetype.0 as int).rows,
{
    assert(ecs.slot_ok(e.index_spec() as int));
}

/// Archetype uniqueness: no two distinct archetype ids of a well-formed
/// store carry identical component-id sets.
pub proof fn lemma_archetype_uniqueness(ecs: Ecs, a1: int, a2: int)
    requires
        ecs.wf(),
        0 <= a1 < ecs.n_archs(),
        0 <= a2 < ecs.n_archs(),
        a1 != a2,
    ensures
        ecs.arch_at(a1).comp_set() != ecs.arch_at(a2).comp_set(),
{
    assert(ecs.arch_at(a1).comp_set() != ecs.arch_at(a2).comp_set());
}

/// Edge symmetry: when the cached add-edge for component `c` leads from
/// archetype `a` to archetype `b`, the rem-edge for `c` leads from `b` back
/// to `a`.
///
/// The premise asks that `a` does not already carry `c`: on an archetype
/// carrying `c` the add-edge is a self-loop, and its rem-edge leads to the
/// archetype without `c` rather than back.
pub proof fn lemma_edge_symmetry(ecs: Ecs, a: int, c: int)
    requires
        ecs.wf(),
        0 <= a < ecs.n_archs(),
        0 <= c < ecs.n_comps(),
        !ecs.arch_at(a).comp_set().contains(ComponentId(c as usize)),
    ensures
        ecs.arch_at(ecs.arch_at(a).edges@[c].add.0 as int).edges@[c].rem.0 == a,
{
    let cid = ComponentId(c as usize);
    assert(ecs.edge_ok(a, c));
    let b = ecs.arch_at(a).edges@[c].add.0 as int;
    assert(ecs.edge_ok(b, c));
    let a2 = ecs.arch_at(b).edges@[c].rem.0 as int;
    assert(ecs.arch_at(a2).comp_set() =~= ecs.arch_at(a).comp_set());
    if a2 != a {
        assert(ecs.arch_at(a2).comp_set() != ecs.arch_at(a).comp_set());
    }
}

/// Migration round-trip: adding a component an entity does not carry and
/// then removing it leaves the entity with its old component set, and every
/// other component's value unchanged.
pub proof fn lemma_migration_round_trip(
    pre: Ecs,
    mid: Ecs,
    post: Ecs,
    e: EntityId,
    c: ComponentId,
    v: ComponentValue,
)
    requires
        pre.valid_eid(e),
        !pre.comps_of(e).contains(c),
        Ecs::add_effect(pre, mid, e, c, v),
        Ecs::remove_effect(mid, post, e, c),
    ensures
        post.comps_of(e) == pre.comps_of(e),
        forall|c2: ComponentId| c2 != c ==> #[trigger] post.get_spec(e, c2) == pre.get_spec(e, c2),
        post.get_spec(e, c) is None,
{
    assert(post.comps_of(e) =~= pre.comps_of(e));
}

/// Lookup correctness after an addition: the added component reads back as
/// the value that was added.
pub proof fn lemma_lookup_after_add(pre: Ecs, post: Ecs, e: EntityId, c: ComponentId, v: ComponentValue)
    requires
        Ecs::add_effect(pre, post, e, c, v),
    ensures
        post.get_spec(e, c) == Some(v),
{
}

/// Lookup correctness after a removal: the removed component reads back as
/// absent.
pub proof fn lemma_lookup_after_remove(pre: Ecs, post: Ecs, e: EntityId, c: ComponentId)
    requires
        Ecs::remove_effect(pre, post, e, c),
    ensures
        post.get_spec(e, c) is None,
{
}

} // verus!
