//! An in-memory structured data store for heterogeneous entities.
//!
//! Each entity is a dynamically changing set of typed components. Entities
//! with the same exact component set share one archetype, which stores their
//! component instances contiguously, column per component. Adding or removing
//! a component migrates the entity's data between archetypes while keeping
//! every archetype's columns densely packed.

pub mod archetype;
pub mod component;
pub mod entity;
pub mod laws;

use vstd::prelude::*;

use crate::archetype::{Archetype, ArchetypeColumn, ArchetypeEdge, ArchetypeId};
use crate::component::{ComponentId, ComponentValue, EcsError};
use crate::entity::{count_at, points_at, EntityId, EntityRecord, EntitySlot};

verus! {

/// Entity Component System: the store facade over the entity index, the
/// component index, and the archetype transition graph's arena.
pub struct Ecs {
    /// Entities to their archetypes: slot `i` belongs to every `EntityId`
    /// whose packed index is `i`; only the id carrying the slot's current
    /// generation is live.
    pub entity_index: Vec<EntitySlot>,
    /// Components to where they are in archetypes: entry `[c][a]` is the
    /// column position of component `c` in archetype `a`, present exactly
    /// when `a` carries `c`.
    pub component_index: Vec<Vec<Option<ArchetypeColumn>>>,
    /// ArchetypeIds to their Archetypes: the arena owning every archetype,
    /// indexed by `ArchetypeId`.
    pub archetype_index: Vec<Archetype>,
}

/// An id built of members all below `c` never contains `ComponentId(c)`.
proof fn lemma_big_id_not_in(ids: Seq<ComponentId>, c: usize)
    requires
        forall|j: int| 0 <= j < ids.len() ==> (#[trigger] ids[j]).0 < c,
    ensures
        !ids.to_set().contains(ComponentId(c)),
{
    if ids.to_set().contains(ComponentId(c)) {
        let j = choose|j: int| 0 <= j < ids.len() && ids[j] == ComponentId(c);
        assert((ids[j]).0 < c);
    }
}

/// During registration, old archetype `a` has been given its edge for the
/// new component and is otherwise untouched.
spec fn old_arch_extended(pre: Ecs, cur: Ecs, a: int, n: int) -> bool {
    &&& cur.arch_at(a).id == pre.arch_at(a).id
    &&& cur.arch_at(a).component_ids == pre.arch_at(a).component_ids
    &&& cur.arch_at(a).component_insts == pre.arch_at(a).component_insts
    &&& cur.arch_at(a).rows == pre.arch_at(a).rows
    &&& cur.arch_at(a).edges@ == pre.arch_at(a).edges@.push(
        ArchetypeEdge { add: ArchetypeId((n + a) as usize), rem: ArchetypeId(a as usize) },
    )
}

/// During registration, the new archetype standing at index `a >= n` mirrors
/// the old archetype at `a - n` with the new component `ComponentId(c)`
/// appended: same columns order plus one empty column, no rows yet, and every
/// edge retargeted into the new generation of archetypes.
spec fn new_arch_built(pre: Ecs, cur: Ecs, a: int, n: int, c: int) -> bool {
    let na = cur.arch_at(a);
    let pa = pre.arch_at(a - n);
    &&& na.id == ArchetypeId(a as usize)
    &&& na.component_ids@ == pa.component_ids@.push(ComponentId(c as usize))
    &&& na.component_insts@.len() == pa.component_ids@.len() + 1
    &&& (forall|t: int|
        0 <= t < na.component_insts@.len() ==> (#[trigger] na.component_insts@[t])@.len() == 0)
    &&& na.rows == 0
    &&& na.edges@.len() == c + 1
    &&& (forall|k: int|
        0 <= k < c ==> #[trigger] na.edges@[k] == (ArchetypeEdge {
            add: ArchetypeId((n + pa.edges@[k].add.0) as usize),
            rem: ArchetypeId((n + pa.edges@[k].rem.0) as usize),
        }))
    &&& na.edges@[c] == (ArchetypeEdge {
        add: ArchetypeId(a as usize),
        rem: ArchetypeId((a - n) as usize),
    })
}

/// During registration, component `d`'s table has been doubled: the entry for
/// new archetype `n + t` mirrors the entry for old archetype `t`.
spec fn comp_index_mirrored(pre: Ecs, cur: Ecs, d: int, n: int) -> bool {
    &&& cur.component_index@[d]@.len() == 2 * n
    &&& (forall|t: int|
        0 <= t < n ==> #[trigger] cur.component_index@[d]@[t] == pre.component_index@[d]@[t])
    &&& (forall|t: int|
        n <= t < 2 * n ==> #[trigger] cur.component_index@[d]@[t] == pre.component_index@[d]@[t
            - n])
}

/// A member of a component list whose ids all lie below `c` lies below `c`.
proof fn lemma_member_small(ids: Seq<ComponentId>, c: usize, x: ComponentId)
    requires
        forall|j: int| 0 <= j < ids.len() ==> (#[trigger] ids[j]).0 < c,
        ids.to_set().contains(x),
    ensures
        x.0 < c,
{
    let j = choose|j: int| 0 <= j < ids.len() && ids[j] == x;
    assert((ids[j]).0 < c);
}

/// Registration leaves a well-formed store: after the eager extension has
/// doubled the arena, mirrored the component index, and wired every edge,
/// the store invariant holds again and no entity saw any change.
proof fn lemma_register_wf(pre: Ecs, post: Ecs, n: int, c: int)
    requires
        pre.wf(),
        n == pre.n_archs(),
        c == pre.n_comps(),
        0 <= c <= usize::MAX,
        2 * n <= usize::MAX,
        post.entity_index == pre.entity_index,
        post.n_comps() == c + 1,
        post.archetype_index@.len() == 2 * n,
        forall|k: int| 0 <= k < c ==> #[trigger] comp_index_mirrored(pre, post, k, n),
        post.component_index@[c]@.len() == 2 * n,
        forall|t: int| 0 <= t < n ==> #[trigger] post.component_index@[c]@[t] is None,
        forall|t: int|
            n <= t < 2 * n ==> #[trigger] post.component_index@[c]@[t] == Some(
                pre.arch_at(t - n).component_ids@.len() as usize,
            ),
        forall|a: int| 0 <= a < n ==> #[trigger] old_arch_extended(pre, post, a, n),
        forall|a: int| n <= a < 2 * n ==> #[trigger] new_arch_built(pre, post, a, n, c),
    ensures
        post.wf(),
        forall|a: int|
            0 <= a < n ==> {
                &&& (#[trigger] post.arch_at(a)).id == pre.arch_at(a).id
                &&& post.arch_at(a).component_ids == pre.arch_at(a).component_ids
                &&& post.arch_at(a).component_insts == pre.arch_at(a).component_insts
                &&& post.arch_at(a).rows == pre.arch_at(a).rows
                &&& post.arch_at(a).comp_set() == pre.arch_at(a).comp_set()
            },
        forall|e: EntityId| post.valid_eid(e) <==> pre.valid_eid(e),
        forall|e: EntityId| #[trigger] pre.valid_eid(e) ==> post.rec_of(e) == pre.rec_of(e)
            && post.comps_of(e) == pre.comps_of(e),
        forall|e: EntityId, cc: ComponentId| pre.valid_eid(e) ==> post.get_spec(e, cc)
            == pre.get_spec(e, cc),
{
    let cid = ComponentId(c as usize);
    assert forall|a: int| 0 <= a < n implies (#[trigger] post.arch_at(a)).comp_set() == pre.arch_at(
        a,
    ).comp_set() by {
        assert(old_arch_extended(pre, post, a, n));
    }
    assert forall|a: int| 0 <= a < n implies !(#[trigger] pre.arch_at(a)).comp_set().contains(
        cid,
    ) by {
        assert(pre.arch_at(a).graph_wf(a, c));
        lemma_big_id_not_in(pre.arch_at(a).component_ids@, c as usize);
    }
    assert forall|a: int| n <= a < 2 * n implies (#[trigger] post.arch_at(a)).comp_set()
        == pre.arch_at(a - n).comp_set().insert(cid) by {
        assert(new_arch_built(pre, post, a, n, c));
        pre.arch_at(a - n).component_ids@.lemma_push_to_set_commute(cid);
    }
    // archetype shapes
    assert(old_arch_extended(pre, post, 0, n));
    assert(post.arch_at(0).component_ids@.len() == 0);
    assert forall|a: int| 0 <= a < 2 * n implies (#[trigger] post.arch_at(a)).graph_wf(
        a,
        c + 1,
    ) by {
        if a < n {
            assert(old_arch_extended(pre, post, a, n));
            assert(pre.arch_at(a).graph_wf(a, c));
        } else {
            assert(new_arch_built(pre, post, a, n, c));
            let pa = pre.arch_at(a - n);
            assert(pa.graph_wf(a - n, c));
            let na = post.arch_at(a);
            assert forall|j1: int, j2: int|
                0 <= j1 < j2 < na.component_ids@.len() implies na.component_ids@[j1]
                != na.component_ids@[j2] by {
                assert(na.component_ids@[j1] == pa.component_ids@[j1]);
                if j2 == na.component_ids@.len() - 1 {
                    assert((pa.component_ids@[j1]).0 < c);
                } else {
                    assert(na.component_ids@[j2] == pa.component_ids@[j2]);
                }
            }
            assert forall|j: int| 0 <= j < na.component_ids@.len() implies (
            #[trigger] na.component_ids@[j]).0 < c + 1 by {
                if j < pa.component_ids@.len() {
                    assert(na.component_ids@[j] == pa.component_ids@[j]);
                }
            }
        }
    }
    assert forall|a: int| 0 <= a < 2 * n implies (#[trigger] post.arch_at(a)).cols_wf() by {
        if a < n {
            assert(old_arch_extended(pre, post, a, n));
            assert(pre.arch_at(a).cols_wf());
        } else {
            assert(new_arch_built(pre, post, a, n, c));
        }
    }
    // edges
    assert forall|a: int, k: int|
        0 <= a < 2 * n && 0 <= k < c + 1 implies #[trigger] post.edge_ok(a, k) by {
        let kid = ComponentId(k as usize);
        if a < n {
            assert(old_arch_extended(pre, post, a, n));
            if k < c {
                assert(pre.edge_ok(a, k));
                let e = pre.arch_at(a).edges@[k];
                assert(post.arch_at(a).edges@[k] == e);
                assert(post.arch_at(e.add.0 as int).comp_set() == pre.arch_at(
                    e.add.0 as int,
                ).comp_set());
                assert(post.arch_at(e.rem.0 as int).comp_set() == pre.arch_at(
                    e.rem.0 as int,
                ).comp_set());
            } else {
                assert(post.arch_at(a).edges@[k] == (ArchetypeEdge {
                    add: ArchetypeId((n + a) as usize),
                    rem: ArchetypeId(a as usize),
                }));
                assert(post.arch_at(n + a).comp_set() =~= post.arch_at(a).comp_set().insert(cid));
                assert(post.arch_at(a).comp_set() =~= post.arch_at(a).comp_set().remove(cid));
            }
        } else {
            assert(new_arch_built(pre, post, a, n, c));
            let pa = pre.arch_at(a - n);
            assert(pa.graph_wf(a - n, c));
            if k < c {
                assert(pre.edge_ok(a - n, k));
                let e = pa.edges@[k];
                assert(post.arch_at(a).edges@[k] == (ArchetypeEdge {
                    add: ArchetypeId((n + e.add.0) as usize),
                    rem: ArchetypeId((n + e.rem.0) as usize),
                }));
                assert(post.arch_at(n + e.add.0).comp_set() == pre.arch_at(
                    e.add.0 as int,
                ).comp_set().insert(cid));
                assert(post.arch_at(n + e.rem.0).comp_set() == pre.arch_at(
                    e.rem.0 as int,
                ).comp_set().insert(cid));
                assert(post.arch_at(n + e.add.0).comp_set() =~= post.arch_at(a).comp_set().insert(
                    kid,
                ));
                assert(post.arch_at(n + e.rem.0).comp_set() =~= post.arch_at(a).comp_set().remove(
                    kid,
                ));
            } else {
                assert(post.arch_at(a).edges@[k] == (ArchetypeEdge {
                    add: ArchetypeId(a as usize),
                    rem: ArchetypeId((a - n) as usize),
                }));
                assert(post.arch_at(a).comp_set().contains(cid));
                assert(post.arch_at(a).comp_set() =~= post.arch_at(a).comp_set().insert(cid));
                assert(pre.arch_at(a - n).comp_set() =~= post.arch_at(a).comp_set().remove(cid));
            }
        }
    }
    // uniqueness
    assert forall|a1: int, a2: int|
        #![trigger post.arch_at(a1).comp_set(), post.arch_at(a2).comp_set()]
        0 <= a1 < 2 * n && 0 <= a2 < 2 * n && a1 != a2 implies post.arch_at(a1).comp_set()
        != post.arch_at(a2).comp_set() by {
        if a1 < n && a2 < n {
            assert(pre.arch_at(a1).comp_set() != pre.arch_at(a2).comp_set());
        } else if a1 < n && n <= a2 {
            assert(post.arch_at(a2).comp_set().contains(cid));
            assert(!post.arch_at(a1).comp_set().contains(cid));
        } else if n <= a1 && a2 < n {
            assert(post.arch_at(a1).comp_set().contains(cid));
            assert(!post.arch_at(a2).comp_set().contains(cid));
        } else {
            let s1 = pre.arch_at(a1 - n).comp_set();
            let s2 = pre.arch_at(a2 - n).comp_set();
            assert(s1 != s2);
            assert(!(s1 =~= s2));
            let x = choose|x: ComponentId| s1.contains(x) != s2.contains(x);
            assert(pre.arch_at(a1 - n).graph_wf(a1 - n, c));
            assert(pre.arch_at(a2 - n).graph_wf(a2 - n, c));
            if s1.contains(x) {
                lemma_member_small(pre.arch_at(a1 - n).component_ids@, c as usize, x);
            } else {
                lemma_member_small(pre.arch_at(a2 - n).component_ids@, c as usize, x);
            }
            assert(x != cid);
            assert(post.arch_at(a1).comp_set().contains(x) != post.arch_at(a2).comp_set().contains(
                x,
            ));
        }
    }
    // component index
    assert forall|k: int| 0 <= k < c + 1 implies (#[trigger] post.component_index@[k])@.len() == 2
        * n by {
        if k < c {
            assert(comp_index_mirrored(pre, post, k, n));
        }
    }
    assert forall|k: int, a: int|
        0 <= k < c + 1 && 0 <= a < 2 * n implies #[trigger] post.col_ok(k, a) by {
        let kid = ComponentId(k as usize);
        if k < c {
            assert(comp_index_mirrored(pre, post, k, n));
            if a < n {
                assert(pre.col_ok(k, a));
                assert(old_arch_extended(pre, post, a, n));
                assert(post.component_index@[k]@[a] == pre.component_index@[k]@[a]);
                assert(post.arch_at(a).comp_set() == pre.arch_at(a).comp_set());
                assert(post.col_ok(k, a));
            } else {
                assert(pre.col_ok(k, a - n));
                assert(new_arch_built(pre, post, a, n, c));
                assert(post.component_index@[k]@[a] == pre.component_index@[k]@[a - n]);
                let pa = pre.arch_at(a - n);
                match pre.component_index@[k]@[a - n] {
                    Some(col) => {
                        assert(post.arch_at(a).component_ids@[col as int]
                            == pa.component_ids@[col as int]);
                    },
                    None => {
                        assert(!pa.comp_set().contains(kid));
                        assert(kid != cid);
                        assert(!post.arch_at(a).comp_set().contains(kid));
                    },
                }
                assert(post.col_ok(k, a));
            }
        } else {
            if a < n {
                assert(post.component_index@[k]@[a] is None);
                assert(!pre.arch_at(a).comp_set().contains(cid));
                assert(post.arch_at(a).comp_set() == pre.arch_at(a).comp_set());
                assert(post.col_ok(k, a));
            } else {
                assert(new_arch_built(pre, post, a, n, c));
                let pa = pre.arch_at(a - n);
                assert(pa.component_ids@.len() <= usize::MAX) by {
                    assert(pa.component_ids.len() == pa.component_ids@.len());
                }
                assert(post.component_index@[k]@[a] == Some(pa.component_ids@.len() as usize));
                assert(post.arch_at(a).component_ids@[pa.component_ids@.len() as int] == cid);
                assert(post.col_ok(k, a));
            }
        }
    }
    // entities and density
    assert forall|i: int| 0 <= i < post.entity_index@.len() implies #[trigger] post.slot_ok(i) by {
        assert(pre.slot_ok(i));
        if post.slot_live(i) {
            assert(old_arch_extended(pre, post, post.rec_at(i).archetype.0 as int, n));
        }
    }
    assert forall|i1: int, i2: int|
        #![trigger post.rec_at(i1), post.rec_at(i2)]
        0 <= i1 < post.entity_index@.len() && 0 <= i2 < post.entity_index@.len() && i1 != i2
            && post.slot_live(i1) && post.slot_live(i2) && post.rec_at(i1).archetype == post.rec_at(
            i2,
        ).archetype implies post.rec_at(i1).row != post.rec_at(i2).row by {
        assert(post.rec_at(i1) == pre.rec_at(i1));
        assert(post.rec_at(i2) == pre.rec_at(i2));
    }
    assert forall|a: int| 0 <= a < 2 * n implies (#[trigger] post.arch_at(a)).rows == count_at(
        post.entity_index@,
        a,
    ) by {
        if a < n {
            assert(old_arch_extended(pre, post, a, n));
            assert(pre.arch_at(a).rows == count_at(pre.entity_index@, a));
        } else {
            assert(new_arch_built(pre, post, a, n, c));
            assert forall|t: int| 0 <= t < post.entity_index@.len() implies points_at(
                #[trigger] post.entity_index@[t],
                a,
            ) == 0 by {
                assert(pre.slot_ok(t));
            }
            crate::entity::lemma_count_zero(post.entity_index@, a);
        }
    }
    // nothing entity-facing changed
    assert forall|e: EntityId| #[trigger] pre.valid_eid(e) implies post.rec_of(e) == pre.rec_of(e)
        && post.comps_of(e) == pre.comps_of(e) by {
        assert(pre.slot_ok(e.index_spec() as int));
        assert(old_arch_extended(pre, post, pre.rec_of(e).archetype.0 as int, n));
    }
    assert forall|e: EntityId, cc: ComponentId| pre.valid_eid(e) implies post.get_spec(e, cc)
        == pre.get_spec(e, cc) by {
        assert(pre.slot_ok(e.index_spec() as int));
        let aa = pre.rec_of(e).archetype.0 as int;
        assert(old_arch_extended(pre, post, aa, n));
        if cc.0 < c {
            assert(comp_index_mirrored(pre, post, cc.0 as int, n));
            assert(pre.col_ok(cc.0 as int, aa));
        }
    }
    assert forall|a: int|
        0 <= a < n implies {
        &&& (#[trigger] post.arch_at(a)).id == pre.arch_at(a).id
        &&& post.arch_at(a).component_ids == pre.arch_at(a).component_ids
        &&& post.arch_at(a).component_insts == pre.arch_at(a).component_insts
        &&& post.arch_at(a).rows == pre.arch_at(a).rows
        &&& post.arch_at(a).comp_set() == pre.arch_at(a).comp_set()
    } by {
        assert(old_arch_extended(pre, post, a, n));
    }
}

/// A migration out of archetype `ai` into `bi` leaves a well-formed store
/// with the effect `add_effect` describes: the moved entity carries the new
/// component, every other value sits where the compaction says it does.
#[verifier::rlimit(50)]
proof fn lemma_migrate_add_wf(
    pre: Ecs,
    post: Ecs,
    e: EntityId,
    c: ComponentId,
    v: ComponentValue,
    ai: int,
    bi: int,
    r0: int,
    colc: int,
)
    requires
        pre.wf(),
        pre.valid_eid(e),
        ai == pre.rec_of(e).archetype.0,
        r0 == pre.rec_of(e).row,
        0 <= bi < pre.n_archs(),
        ai != bi,
        c.0 < pre.n_comps(),
        !pre.arch_at(ai).comp_set().contains(c),
        pre.arch_at(ai).edges@[c.0 as int].add == ArchetypeId(bi as usize),
        pre.arch_at(bi).comp_set() == pre.arch_at(ai).comp_set().insert(c),
        post.component_index == pre.component_index,
        post.archetype_index@.len() == pre.n_archs(),
        forall|x: int|
            0 <= x < pre.n_archs() && x != ai && x != bi ==> #[trigger] post.arch_at(x)
                == pre.arch_at(x),
        post.arch_at(ai).id == pre.arch_at(ai).id,
        post.arch_at(ai).component_ids == pre.arch_at(ai).component_ids,
        post.arch_at(ai).edges == pre.arch_at(ai).edges,
        post.arch_at(ai).rows == pre.arch_at(ai).rows - 1,
        post.arch_at(ai).component_insts@.len() == pre.arch_at(ai).component_insts@.len(),
        forall|t: int|
            0 <= t < pre.arch_at(ai).component_insts@.len() ==> (#[trigger] post.arch_at(
                ai,
            ).component_insts@[t])@ == pre.arch_at(ai).component_insts@[t]@.remove(r0),
        post.arch_at(bi).id == pre.arch_at(bi).id,
        post.arch_at(bi).component_ids == pre.arch_at(bi).component_ids,
        post.arch_at(bi).edges == pre.arch_at(bi).edges,
        post.arch_at(bi).rows == pre.arch_at(bi).rows + 1,
        post.arch_at(bi).component_insts@.len() == pre.arch_at(bi).component_insts@.len(),
        0 <= colc < pre.arch_at(bi).component_ids@.len(),
        pre.arch_at(bi).component_ids@[colc] == c,
        (post.arch_at(bi).component_insts@[colc])@ == pre.arch_at(bi).component_insts@[colc]@.push(
            v,
        ),
        forall|cb: int|
            0 <= cb < pre.arch_at(bi).component_ids@.len() && cb != colc
                ==> #[trigger] migrated_col(
                pre,
                post,
                ai,
                bi,
                r0,
                pre.arch_at(ai).component_ids@.len() as int,
                cb,
            ),
        post.entity_index@.len() == pre.entity_index@.len(),
        forall|i: int|
            0 <= i < pre.entity_index@.len() && i != e.index_spec() ==> #[trigger] post.entity_index@[i]
                == crate::entity::fixup_slot(pre.entity_index@[i], ai, r0),
        post.entity_index@[e.index_spec() as int] == (EntitySlot {
            generation: e.gener_spec(),
            record: Some(
                EntityRecord { archetype: ArchetypeId(bi as usize), row: pre.arch_at(bi).rows },
            ),
        }),
    ensures
        post.wf(),
        Ecs::add_effect(pre, post, e, c, v),
{
    let idx = e.index_spec() as int;
    let na = pre.arch_at(ai).component_ids@.len() as int;
    let nb = pre.arch_at(bi).component_ids@.len() as int;
    assert(pre.slot_ok(idx));
    assert(pre.arch_at(ai).graph_wf(ai, pre.n_comps()));
    assert(pre.arch_at(bi).graph_wf(bi, pre.n_comps()));
    assert(pre.arch_at(ai).cols_wf());
    assert(pre.arch_at(bi).cols_wf());
    // Every destination column other than c's received exactly one value.
    assert forall|cb: int| 0 <= cb < nb && cb != colc implies {
        &&& pre.component_index@[(pre.arch_at(bi).component_ids@[cb]).0 as int]@[ai] is Some
        &&& {
            let t = pre.component_index@[(pre.arch_at(bi).component_ids@[cb]).0 as int]@[ai].unwrap();
            &&& 0 <= t < na
            &&& pre.arch_at(ai).component_ids@[t as int] == pre.arch_at(bi).component_ids@[cb]
            &&& (#[trigger] post.arch_at(bi).component_insts@[cb])@ == pre.arch_at(
                bi,
            ).component_insts@[cb]@.push(pre.arch_at(ai).component_insts@[t as int]@[r0])
        }
    } by {
        let dbc = pre.arch_at(bi).component_ids@[cb];
        assert(pre.arch_at(bi).component_ids@.contains(dbc));
        assert(pre.arch_at(bi).comp_set().contains(dbc));
        assert(dbc != c);
        assert(pre.arch_at(ai).comp_set().contains(dbc));
        assert(pre.col_ok(dbc.0 as int, ai));
        assert(pre.col_ok(dbc.0 as int, bi));
        assert(migrated_col(pre, post, ai, bi, r0, na, cb));
        let t = pre.component_index@[dbc.0 as int]@[ai].unwrap();
        assert(pre.arch_at(ai).component_ids@[t as int] == dbc);
    }
    // graph half
    lemma_graph_preserved(pre, post);
    // columns
    assert forall|a: int| 0 <= a < post.n_archs() implies (#[trigger] post.arch_at(a)).cols_wf() by {
        if a == ai {
            assert forall|t: int|
                0 <= t < post.arch_at(ai).component_insts@.len() implies (
            #[trigger] post.arch_at(ai).component_insts@[t])@.len() == post.arch_at(ai).rows by {
                assert(pre.arch_at(ai).component_insts@[t]@.len() == pre.arch_at(ai).rows);
            }
        } else if a == bi {
            assert forall|t: int|
                0 <= t < post.arch_at(bi).component_insts@.len() implies (
            #[trigger] post.arch_at(bi).component_insts@[t])@.len() == post.arch_at(bi).rows by {
                assert(pre.arch_at(bi).component_insts@[t]@.len() == pre.arch_at(bi).rows);
            }
        } else {
            assert(pre.arch_at(a).cols_wf());
        }
    }
    // entity records
    assert forall|i: int| 0 <= i < post.entity_index@.len() implies #[trigger] post.slot_ok(i) by {
        if i == idx {
        } else {
            assert(pre.slot_ok(i));
            assert(post.entity_index@[i] == crate::entity::fixup_slot(pre.entity_index@[i], ai, r0));
            if pre.slot_live(i) && pre.rec_at(i).archetype.0 == ai && pre.rec_at(i).row == r0 {
                assert(pre.rec_at(idx) == pre.rec_of(e));
                assert(false);
            }
        }
    }
    assert forall|i1: int, i2: int|
        #![trigger post.rec_at(i1), post.rec_at(i2)]
        0 <= i1 < post.entity_index@.len() && 0 <= i2 < post.entity_index@.len() && i1 != i2
            && post.slot_live(i1) && post.slot_live(i2) && post.rec_at(i1).archetype == post.rec_at(
            i2,
        ).archetype implies post.rec_at(i1).row != post.rec_at(i2).row by {
        if i1 != idx && i2 != idx {
            assert(pre.slot_ok(i1));
            assert(pre.slot_ok(i2));
            if pre.rec_at(i1).archetype.0 == ai && pre.rec_at(i1).row == r0 {
                assert(pre.rec_at(idx) == pre.rec_of(e));
                assert(false);
            }
            if pre.rec_at(i2).archetype.0 == ai && pre.rec_at(i2).row == r0 {
                assert(pre.rec_at(idx) == pre.rec_of(e));
                assert(false);
            }
        } else {
            let o = if i1 == idx { i2 } else { i1 };
            assert(pre.slot_ok(o));
            if pre.rec_at(o).archetype.0 == bi {
                assert(pre.rec_at(o).row < pre.arch_at(bi).rows);
            }
        }
    }
    // density
    assert forall|x: int| 0 <= x < post.n_archs() implies (#[trigger] post.arch_at(x)).rows
        == count_at(post.entity_index@, x) by {
        crate::entity::lemma_count_after_fixup_update(
            pre.entity_index@,
            post.entity_index@,
            idx,
            post.entity_index@[idx],
            ai,
            r0,
            x,
        );
        assert(pre.arch_at(x).rows == count_at(pre.entity_index@, x));
    }
    // the effect
    assert(post.valid_eid(e));
    assert forall|e2: EntityId| post.valid_eid(e2) <==> pre.valid_eid(e2) by {
        let i = e2.index_spec() as int;
        if 0 <= i < pre.entity_index@.len() && i != idx {
            assert(post.entity_index@[i] == crate::entity::fixup_slot(pre.entity_index@[i], ai, r0));
        }
    }
    assert(post.comps_of(e) == pre.comps_of(e).insert(c)) by {
        assert(post.arch_at(bi).comp_set() == pre.arch_at(bi).comp_set());
    }
    assert(post.get_spec(e, c) == Some(v)) by {
        assert(pre.col_ok(c.0 as int, bi));
        let col = pre.component_index@[c.0 as int]@[bi].unwrap();
        assert(pre.arch_at(bi).component_ids@[col as int] == c);
        assert(col == colc);
        assert(post.arch_at(bi).component_insts@[colc]@[pre.arch_at(bi).rows as int] == v);
    }
    assert forall|c2: ComponentId| c2 != c implies #[trigger] post.get_spec(e, c2) == pre.get_spec(
        e,
        c2,
    ) by {
        if c2.0 < pre.n_comps() {
            assert(pre.col_ok(c2.0 as int, bi));
            assert(pre.col_ok(c2.0 as int, ai));
            match pre.component_index@[c2.0 as int]@[bi] {
                Some(cb) => {
                    assert(pre.arch_at(bi).component_ids@[cb as int] == c2);
                    assert(cb != colc);
                    let t = pre.component_index@[c2.0 as int]@[ai].unwrap();
                    assert(post.arch_at(bi).component_insts@[cb as int]@[pre.arch_at(bi).rows as int]
                        == pre.arch_at(ai).component_insts@[t as int]@[r0]);
                },
                None => {
                    assert(!pre.arch_at(bi).comp_set().contains(c2));
                    if pre.arch_at(ai).comp_set().contains(c2) {
                        assert(pre.arch_at(bi).comp_set().contains(c2));
                    }
                    assert(pre.component_index@[c2.0 as int]@[ai] is None ==> pre.get_spec(e, c2)
                        is None);
                    if pre.component_index@[c2.0 as int]@[ai] is Some {
                        let t = pre.component_index@[c2.0 as int]@[ai].unwrap();
                        assert(pre.arch_at(ai).component_ids@[t as int] == c2);
                        assert(pre.arch_at(ai).component_ids@.contains(c2));
                        assert(false);
                    }
                },
            }
        }
    }
    assert forall|e2: EntityId|
        #[trigger] pre.valid_eid(e2) && e2.index_spec() != e.index_spec() implies post.comps_of(e2)
        == pre.comps_of(e2) && post.rec_of(e2) == fixed_rec(pre.rec_of(e2), pre.rec_of(e)) by {
        let i = e2.index_spec() as int;
        assert(post.entity_index@[i] == crate::entity::fixup_slot(pre.entity_index@[i], ai, r0));
        assert(pre.slot_ok(i));
        assert(post.arch_at(pre.rec_of(e2).archetype.0 as int).comp_set() == pre.arch_at(
            pre.rec_of(e2).archetype.0 as int,
        ).comp_set());
    }
    assert forall|e2: EntityId, c2: ComponentId|
        pre.valid_eid(e2) && e2.index_spec() != e.index_spec() implies post.get_spec(e2, c2)
        == pre.get_spec(e2, c2) by {
        let i = e2.index_spec() as int;
        assert(post.entity_index@[i] == crate::entity::fixup_slot(pre.entity_index@[i], ai, r0));
        assert(pre.slot_ok(i));
        let aa = pre.rec_of(e2).archetype.0 as int;
        let r2 = pre.rec_of(e2).row as int;
        if c2.0 < pre.n_comps() {
            assert(pre.col_ok(c2.0 as int, aa));
            match pre.component_index@[c2.0 as int]@[aa] {
                Some(t) => {
                    if aa == ai {
                        assert(pre.arch_at(ai).component_insts@[t as int]@.len() == pre.arch_at(
                            ai,
                        ).rows);
                        if r2 == r0 {
                            assert(pre.rec_at(idx) == pre.rec_of(e));
                            assert(false);
                        }
                        assert((post.arch_at(ai).component_insts@[t as int])@ == pre.arch_at(
                            ai,
                        ).component_insts@[t as int]@.remove(r0));
                        if r2 < r0 {
                            assert(post.arch_at(ai).component_insts@[t as int]@[r2] == pre.arch_at(
                                ai,
                            ).component_insts@[t as int]@[r2]);
                        } else {
                            assert(post.arch_at(ai).component_insts@[t as int]@[r2 - 1]
                                == pre.arch_at(ai).component_insts@[t as int]@[r2]);
                        }
                    } else if aa == bi {
                        assert(pre.arch_at(bi).component_ids@[t as int] == c2);
                        assert(r2 < pre.arch_at(bi).rows);
                        assert(pre.arch_at(bi).component_insts@[t as int]@.len() == pre.arch_at(
                            bi,
                        ).rows);
                        if t == colc {
                            assert(post.arch_at(bi).component_insts@[t as int]@[r2] == pre.arch_at(
                                bi,
                            ).component_insts@[t as int]@[r2]);
                        } else {
                            assert(post.arch_at(bi).component_insts@[t as int]@[r2] == pre.arch_at(
                                bi,
                            ).component_insts@[t as int]@[r2]);
                        }
                    } else {
                        assert(post.arch_at(aa) == pre.arch_at(aa));
                    }
                },
                None => {
                },
            }
        }
    }
}

/// A migration out of archetype `ai` into `bi` that drops component `c`
/// leaves a well-formed store with the effect `remove_effect` describes.
#[verifier::rlimit(50)]
proof fn lemma_migrate_remove_wf(
    pre: Ecs,
    post: Ecs,
    e: EntityId,
    c: ComponentId,
    out: ComponentValue,
    ai: int,
    bi: int,
    r0: int,
)
    requires
        pre.wf(),
        pre.valid_eid(e),
        ai == pre.rec_of(e).archetype.0,
        r0 == pre.rec_of(e).row,
        0 <= bi < pre.n_archs(),
        ai != bi,
        c.0 < pre.n_comps(),
        pre.arch_at(ai).comp_set().contains(c),
        pre.arch_at(ai).edges@[c.0 as int].rem == ArchetypeId(bi as usize),
        pre.arch_at(bi).comp_set() == pre.arch_at(ai).comp_set().remove(c),
        pre.component_index@[c.0 as int]@[ai] is Some,
        out == pre.arch_at(ai).component_insts@[pre.component_index@[c.0 as int]@[ai].unwrap() as int]@[r0],
        post.component_index == pre.component_index,
        post.archetype_index@.len() == pre.n_archs(),
        forall|x: int|
            0 <= x < pre.n_archs() && x != ai && x != bi ==> #[trigger] post.arch_at(x)
                == pre.arch_at(x),
        post.arch_at(ai).id == pre.arch_at(ai).id,
        post.arch_at(ai).component_ids == pre.arch_at(ai).component_ids,
        post.arch_at(ai).edges == pre.arch_at(ai).edges,
        post.arch_at(ai).rows == pre.arch_at(ai).rows - 1,
        post.arch_at(ai).component_insts@.len() == pre.arch_at(ai).component_insts@.len(),
        forall|t: int|
            0 <= t < pre.arch_at(ai).component_insts@.len() ==> (#[trigger] post.arch_at(
                ai,
            ).component_insts@[t])@ == pre.arch_at(ai).component_insts@[t]@.remove(r0),
        post.arch_at(bi).id == pre.arch_at(bi).id,
        post.arch_at(bi).component_ids == pre.arch_at(bi).component_ids,
        post.arch_at(bi).edges == pre.arch_at(bi).edges,
        post.arch_at(bi).rows == pre.arch_at(bi).rows + 1,
        post.arch_at(bi).component_insts@.len() == pre.arch_at(bi).component_insts@.len(),
        forall|cb: int|
            0 <= cb < pre.arch_at(bi).component_ids@.len() ==> #[trigger] migrated_col(
                pre,
                post,
                ai,
                bi,
                r0,
                pre.arch_at(ai).component_ids@.len() as int,
                cb,
            ),
        post.entity_index@.len() == pre.entity_index@.len(),
        forall|i: int|
            0 <= i < pre.entity_index@.len() && i != e.index_spec() ==> #[trigger] post.entity_index@[i]
                == crate::entity::fixup_slot(pre.entity_index@[i], ai, r0),
        post.entity_index@[e.index_spec() as int] == (EntitySlot {
            generation: e.gener_spec(),
            record: Some(
                EntityRecord { archetype: ArchetypeId(bi as usize), row: pre.arch_at(bi).rows },
            ),
        }),
    ensures
        post.wf(),
        Ecs::remove_effect(pre, post, e, c),
        pre.get_spec(e, c) == Some(out),
{
    let idx = e.index_spec() as int;
    let na = pre.arch_at(ai).component_ids@.len() as int;
    let nb = pre.arch_at(bi).component_ids@.len() as int;
    assert(pre.slot_ok(idx));
    assert(pre.arch_at(ai).graph_wf(ai, pre.n_comps()));
    assert(pre.arch_at(bi).graph_wf(bi, pre.n_comps()));
    assert(pre.arch_at(ai).cols_wf());
    assert(pre.arch_at(bi).cols_wf());
    assert(pre.col_ok(c.0 as int, ai));
    // Every destination column received exactly one value.
    assert forall|cb: int| 0 <= cb < nb implies {
        &&& pre.component_index@[(pre.arch_at(bi).component_ids@[cb]).0 as int]@[ai] is Some
        &&& {
            let t = pre.component_index@[(pre.arch_at(bi).component_ids@[cb]).0 as int]@[ai].unwrap();
            &&& 0 <= t < na
            &&& pre.arch_at(ai).component_ids@[t as int] == pre.arch_at(bi).component_ids@[cb]
            &&& (#[trigger] post.arch_at(bi).component_insts@[cb])@ == pre.arch_at(
                bi,
            ).component_insts@[cb]@.push(pre.arch_at(ai).component_insts@[t as int]@[r0])
        }
    } by {
        let dbc = pre.arch_at(bi).component_ids@[cb];
        assert(pre.arch_at(bi).component_ids@.contains(dbc));
        assert(pre.arch_at(bi).comp_set().contains(dbc));
        assert(dbc != c);
        assert(pre.arch_at(ai).comp_set().contains(dbc));
        assert(pre.col_ok(dbc.0 as int, ai));
        assert(pre.col_ok(dbc.0 as int, bi));
        assert(migrated_col(pre, post, ai, bi, r0, na, cb));
        let t = pre.component_index@[dbc.0 as int]@[ai].unwrap();
        assert(pre.arch_at(ai).component_ids@[t as int] == dbc);
    }
    lemma_graph_preserved(pre, post);
    assert forall|a: int| 0 <= a < post.n_archs() implies (#[trigger] post.arch_at(a)).cols_wf() by {
        if a == ai {
            assert forall|t: int|
                0 <= t < post.arch_at(ai).component_insts@.len() implies (
            #[trigger] post.arch_at(ai).component_insts@[t])@.len() == post.arch_at(ai).rows by {
                assert(pre.arch_at(ai).component_insts@[t]@.len() == pre.arch_at(ai).rows);
            }
        } else if a == bi {
            assert forall|t: int|
                0 <= t < post.arch_at(bi).component_insts@.len() implies (
            #[trigger] post.arch_at(bi).component_insts@[t])@.len() == post.arch_at(bi).rows by {
                assert(pre.arch_at(bi).component_insts@[t]@.len() == pre.arch_at(bi).rows);
            }
        } else {
            assert(pre.arch_at(a).cols_wf());
        }
    }
    assert forall|i: int| 0 <= i < post.entity_index@.len() implies #[trigger] post.slot_ok(i) by {
        if i == idx {
        } else {
            assert(pre.slot_ok(i));
            assert(post.entity_index@[i] == crate::entity::fixup_slot(pre.entity_index@[i], ai, r0));
            if pre.slot_live(i) && pre.rec_at(i).archetype.0 == ai && pre.rec_at(i).row == r0 {
                assert(pre.rec_at(idx) == pre.rec_of(e));
                assert(false);
            }
        }
    }
    assert forall|i1: int, i2: int|
        #![trigger post.rec_at(i1), post.rec_at(i2)]
        0 <= i1 < post.entity_index@.len() && 0 <= i2 < post.entity_index@.len() && i1 != i2
            && post.slot_live(i1) && post.slot_live(i2) && post.rec_at(i1).archetype == post.rec_at(
            i2,
        ).archetype implies post.rec_at(i1).row != post.rec_at(i2).row by {
        if i1 != idx && i2 != idx {
            assert(pre.slot_ok(i1));
            assert(pre.slot_ok(i2));
            if pre.rec_at(i1).archetype.0 == ai && pre.rec_at(i1).row == r0 {
                assert(pre.rec_at(idx) == pre.rec_of(e));
                assert(false);
            }
            if pre.rec_at(i2).archetype.0 == ai && pre.rec_at(i2).row == r0 {
                assert(pre.rec_at(idx) == pre.rec_of(e));
                assert(false);
            }
        } else {
            let o = if i1 == idx { i2 } else { i1 };
            assert(pre.slot_ok(o));
            if pre.rec_at(o).archetype.0 == bi {
                assert(pre.rec_at(o).row < pre.arch_at(bi).rows);
            }
        }
    }
    assert forall|x: int| 0 <= x < post.n_archs() implies (#[trigger] post.arch_at(x)).rows
        == count_at(post.entity_index@, x) by {
        crate::entity::lemma_count_after_fixup_update(
            pre.entity_index@,
            post.entity_index@,
            idx,
            post.entity_index@[idx],
            ai,
            r0,
            x,
        );
        assert(pre.arch_at(x).rows == count_at(pre.entity_index@, x));
    }
    assert(post.valid_eid(e));
    assert forall|e2: EntityId| post.valid_eid(e2) <==> pre.valid_eid(e2) by {
        let i = e2.index_spec() as int;
        if 0 <= i < pre.entity_index@.len() && i != idx {
            assert(post.entity_index@[i] == crate::entity::fixup_slot(pre.entity_index@[i], ai, r0));
        }
    }
    assert(post.comps_of(e) == pre.comps_of(e).remove(c)) by {
        assert(post.arch_at(bi).comp_set() == pre.arch_at(bi).comp_set());
    }
    assert(pre.get_spec(e, c) == Some(out));
    assert(post.get_spec(e, c) is None) by {
        assert(pre.col_ok(c.0 as int, bi));
        assert(!pre.arch_at(bi).comp_set().contains(c));
    }
    assert forall|c2: ComponentId| c2 != c implies #[trigger] post.get_spec(e, c2) == pre.get_spec(
        e,
        c2,
    ) by {
        if c2.0 < pre.n_comps() {
            assert(pre.col_ok(c2.0 as int, bi));
            assert(pre.col_ok(c2.0 as int, ai));
            match pre.component_index@[c2.0 as int]@[bi] {
                Some(cb) => {
                    assert(pre.arch_at(bi).component_ids@[cb as int] == c2);
                    let t = pre.component_index@[c2.0 as int]@[ai].unwrap();
                    assert(post.arch_at(bi).component_insts@[cb as int]@[pre.arch_at(bi).rows as int]
                        == pre.arch_at(ai).component_insts@[t as int]@[r0]);
                },
                None => {
                    assert(!pre.arch_at(bi).comp_set().contains(c2));
                    if pre.arch_at(ai).comp_set().contains(c2) {
                        assert(pre.arch_at(bi).comp_set().contains(c2));
                    }
                    if pre.component_index@[c2.0 as int]@[ai] is Some {
                        let t = pre.component_index@[c2.0 as int]@[ai].unwrap();
                        assert(pre.arch_at(ai).component_ids@[t as int] == c2);
                        assert(pre.arch_at(ai).component_ids@.contains(c2));
                        assert(false);
                    }
                },
            }
        }
    }
    assert forall|e2: EntityId|
        #[trigger] pre.valid_eid(e2) && e2.index_spec() != e.index_spec() implies post.comps_of(e2)
        == pre.comps_of(e2) && post.rec_of(e2) == fixed_rec(pre.rec_of(e2), pre.rec_of(e)) by {
        let i = e2.index_spec() as int;
        assert(post.entity_index@[i] == crate::entity::fixup_slot(pre.entity_index@[i], ai, r0));
        assert(pre.slot_ok(i));
        assert(post.arch_at(pre.rec_of(e2).archetype.0 as int).comp_set() == pre.arch_at(
            pre.rec_of(e2).archetype.0 as int,
        ).comp_set());
    }
    assert forall|e2: EntityId, c2: ComponentId|
        pre.valid_eid(e2) && e2.index_spec() != e.index_spec() implies post.get_spec(e2, c2)
        == pre.get_spec(e2, c2) by {
        let i = e2.index_spec() as int;
        assert(post.entity_index@[i] == crate::entity::fixup_slot(pre.entity_index@[i], ai, r0));
        assert(pre.slot_ok(i));
        let aa = pre.rec_of(e2).archetype.0 as int;
        let r2 = pre.rec_of(e2).row as int;
        if c2.0 < pre.n_comps() {
            assert(pre.col_ok(c2.0 as int, aa));
            match pre.component_index@[c2.0 as int]@[aa] {
                Some(t) => {
                    if aa == ai {
                        assert(pre.arch_at(ai).component_insts@[t as int]@.len() == pre.arch_at(
                            ai,
                        ).rows);
                        if r2 == r0 {
                            assert(pre.rec_at(idx) == pre.rec_of(e));
                            assert(false);
                        }
                        assert((post.arch_at(ai).component_insts@[t as int])@ == pre.arch_at(
                            ai,
                        ).component_insts@[t as int]@.remove(r0));
                        if r2 < r0 {
                            assert(post.arch_at(ai).component_insts@[t as int]@[r2] == pre.arch_at(
                                ai,
                            ).component_insts@[t as int]@[r2]);
                        } else {
                            assert(post.arch_at(ai).component_insts@[t as int]@[r2 - 1]
                                == pre.arch_at(ai).component_insts@[t as int]@[r2]);
                        }
                    } else if aa == bi {
                        assert(r2 < pre.arch_at(bi).rows);
                        assert(pre.arch_at(bi).component_insts@[t as int]@.len() == pre.arch_at(
                            bi,
                        ).rows);
                        assert(post.arch_at(bi).component_insts@[t as int]@[r2] == pre.arch_at(
                            bi,
                        ).component_insts@[t as int]@[r2]);
                    } else {
                        assert(post.arch_at(aa) == pre.arch_at(aa));
                    }
                },
                None => {
                },
            }
        }
    }
}

/// Destroying an entity compacts its row out of its archetype, frees its
/// slot and bumps the slot's generation; the store stays well formed and no
/// other entity's components move.
#[verifier::rlimit(50)]
proof fn lemma_destroy_wf(pre: Ecs, post: Ecs, e: EntityId, ai: int, r0: int)
    requires
        pre.wf(),
        pre.valid_eid(e),
        ai == pre.rec_of(e).archetype.0,
        r0 == pre.rec_of(e).row,
        post.component_index == pre.component_index,
        post.archetype_index@.len() == pre.n_archs(),
        forall|x: int|
            0 <= x < pre.n_archs() && x != ai ==> #[trigger] post.arch_at(x) == pre.arch_at(x),
        post.arch_at(ai).id == pre.arch_at(ai).id,
        post.arch_at(ai).component_ids == pre.arch_at(ai).component_ids,
        post.arch_at(ai).edges == pre.arch_at(ai).edges,
        post.arch_at(ai).rows == pre.arch_at(ai).rows - 1,
        post.arch_at(ai).component_insts@.len() == pre.arch_at(ai).component_insts@.len(),
        forall|t: int|
            0 <= t < pre.arch_at(ai).component_insts@.len() ==> (#[trigger] post.arch_at(
                ai,
            ).component_insts@[t])@ == pre.arch_at(ai).component_insts@[t]@.remove(r0),
        post.entity_index@.len() == pre.entity_index@.len(),
        forall|i: int|
            0 <= i < pre.entity_index@.len() && i != e.index_spec() ==> #[trigger] post.entity_index@[i]
                == crate::entity::fixup_slot(pre.entity_index@[i], ai, r0),
        post.entity_index@[e.index_spec() as int].record is None,
    ensures
        post.wf(),
        !post.valid_eid(e),
        forall|e2: EntityId|
            e2.index_spec() != e.index_spec() ==> (post.valid_eid(e2) <==> pre.valid_eid(e2)),
        forall|e2: EntityId|
            e2.index_spec() == e.index_spec() ==> !post.valid_eid(e2),
        forall|e2: EntityId|
            #[trigger] pre.valid_eid(e2) && e2.index_spec() != e.index_spec() ==> post.comps_of(e2)
                == pre.comps_of(e2) && post.rec_of(e2) == fixed_rec(pre.rec_of(e2), pre.rec_of(e)),
        forall|e2: EntityId, c2: ComponentId|
            pre.valid_eid(e2) && e2.index_spec() != e.index_spec() ==> post.get_spec(e2, c2)
                == pre.get_spec(e2, c2),
{
    let idx = e.index_spec() as int;
    assert(pre.slot_ok(idx));
    assert(pre.arch_at(ai).cols_wf());
    lemma_graph_preserved(pre, post);
    assert forall|a: int| 0 <= a < post.n_archs() implies (#[trigger] post.arch_at(a)).cols_wf() by {
        if a == ai {
            assert forall|t: int|
                0 <= t < post.arch_at(ai).component_insts@.len() implies (
            #[trigger] post.arch_at(ai).component_insts@[t])@.len() == post.arch_at(ai).rows by {
                assert(pre.arch_at(ai).component_insts@[t]@.len() == pre.arch_at(ai).rows);
            }
        } else {
            assert(pre.arch_at(a).cols_wf());
        }
    }
    assert forall|i: int| 0 <= i < post.entity_index@.len() implies #[trigger] post.slot_ok(i) by {
        if i == idx {
        } else {
            assert(pre.slot_ok(i));
            assert(post.entity_index@[i] == crate::entity::fixup_slot(pre.entity_index@[i], ai, r0));
            if pre.slot_live(i) && pre.rec_at(i).archetype.0 == ai && pre.rec_at(i).row == r0 {
                assert(pre.rec_at(idx) == pre.rec_of(e));
                assert(false);
            }
        }
    }
    assert forall|i1: int, i2: int|
        #![trigger post.rec_at(i1), post.rec_at(i2)]
        0 <= i1 < post.entity_index@.len() && 0 <= i2 < post.entity_index@.len() && i1 != i2
            && post.slot_live(i1) && post.slot_live(i2) && post.rec_at(i1).archetype == post.rec_at(
            i2,
        ).archetype implies post.rec_at(i1).row != post.rec_at(i2).row by {
        if i1 != idx && i2 != idx {
            assert(pre.slot_ok(i1));
            assert(pre.slot_ok(i2));
            if pre.rec_at(i1).archetype.0 == ai && pre.rec_at(i1).row == r0 {
                assert(pre.rec_at(idx) == pre.rec_of(e));
                assert(false);
            }
            if pre.rec_at(i2).archetype.0 == ai && pre.rec_at(i2).row == r0 {
                assert(pre.rec_at(idx) == pre.rec_of(e));
                assert(false);
            }
        }
    }
    assert forall|x: int| 0 <= x < post.n_archs() implies (#[trigger] post.arch_at(x)).rows
        == count_at(post.entity_index@, x) by {
        crate::entity::lemma_count_after_fixup_update(
            pre.entity_index@,
            post.entity_index@,
            idx,
            post.entity_index@[idx],
            ai,
            r0,
            x,
        );
        assert(pre.arch_at(x).rows == count_at(pre.entity_index@, x));
    }
    assert forall|e2: EntityId|
        e2.index_spec() != e.index_spec() implies (post.valid_eid(e2) <==> pre.valid_eid(e2)) by {
        let i = e2.index_spec() as int;
        if 0 <= i < pre.entity_index@.len() {
            assert(post.entity_index@[i] == crate::entity::fixup_slot(pre.entity_index@[i], ai, r0));
        }
    }
    assert forall|e2: EntityId|
        #[trigger] pre.valid_eid(e2) && e2.index_spec() != e.index_spec() implies post.comps_of(e2)
        == pre.comps_of(e2) && post.rec_of(e2) == fixed_rec(pre.rec_of(e2), pre.rec_of(e)) by {
        let i = e2.index_spec() as int;
        assert(post.entity_index@[i] == crate::entity::fixup_slot(pre.entity_index@[i], ai, r0));
        assert(pre.slot_ok(i));
        assert(post.arch_at(pre.rec_of(e2).archetype.0 as int).comp_set() == pre.arch_at(
            pre.rec_of(e2).archetype.0 as int,
        ).comp_set());
    }
    assert forall|e2: EntityId, c2: ComponentId|
        pre.valid_eid(e2) && e2.index_spec() != e.index_spec() implies post.get_spec(e2, c2)
        == pre.get_spec(e2, c2) by {
        let i = e2.index_spec() as int;
        assert(post.entity_index@[i] == crate::entity::fixup_slot(pre.entity_index@[i], ai, r0));
        assert(pre.slot_ok(i));
        let aa = pre.rec_of(e2).archetype.0 as int;
        let r2 = pre.rec_of(e2).row as int;
        if c2.0 < pre.n_comps() {
            assert(pre.col_ok(c2.0 as int, aa));
            match pre.component_index@[c2.0 as int]@[aa] {
                Some(t) => {
                    if aa == ai {
                        assert(pre.arch_at(ai).component_insts@[t as int]@.len() == pre.arch_at(
                            ai,
                        ).rows);
                        if r2 == r0 {
                            assert(pre.rec_at(idx) == pre.rec_of(e));
                            assert(false);
                        }
                        assert((post.arch_at(ai).component_insts@[t as int])@ == pre.arch_at(
                            ai,
                        ).component_insts@[t as int]@.remove(r0));
                        if r2 < r0 {
                            assert(post.arch_at(ai).component_insts@[t as int]@[r2] == pre.arch_at(
                                ai,
                            ).component_insts@[t as int]@[r2]);
                        } else {
                            assert(post.arch_at(ai).component_insts@[t as int]@[r2 - 1]
                                == pre.arch_at(ai).component_insts@[t as int]@[r2]);
                        }
                    } else {
                        assert(post.arch_at(aa) == pre.arch_at(aa));
                    }
                },
                None => {
                },
            }
        }
    }
}

/// Where another entity's record ends up when the row `vac.row` of archetype
/// `vac.archetype` is vacated and compacted: records past the vacated row in
/// the same archetype slide down by one, all others stay.
pub open spec fn fixed_rec(r2: EntityRecord, vac: EntityRecord) -> EntityRecord {
    if r2.archetype == vac.archetype && r2.row > vac.row {
        EntityRecord { archetype: r2.archetype, row: (r2.row - 1) as usize }
    } else {
        r2
    }
}

/// During a migration out of archetype `ai` into `bi`, the first `j` columns
/// of `ai` have been moved: column `cb` of `bi` has received the value from
/// row `r` of its component's column in `ai` exactly when that component
/// stands in one of `ai`'s first `j` columns.
spec fn migrated_col(pre: Ecs, cur: Ecs, ai: int, bi: int, r: int, j: int, cb: int) -> bool {
    let dbc = pre.arch_at(bi).component_ids@[cb];
    let bcol = cur.arch_at(bi).component_insts@[cb];
    let pcol = pre.arch_at(bi).component_insts@[cb];
    match pre.component_index@[dbc.0 as int]@[ai] {
        Some(t) => if t < j {
            bcol@ == pcol@.push(pre.arch_at(ai).component_insts@[t as int]@[r])
        } else {
            bcol == pcol
        },
        None => bcol == pcol,
    }
}

/// The transition graph's structure survives any operation that touches only
/// columns, row counts, and the entity index: when every archetype keeps its
/// id, component list and edges, and the component index is untouched, the
/// graph-facing half of the store invariant carries over.
pub proof fn lemma_graph_preserved(pre: Ecs, post: Ecs)
    requires
        pre.archetypes_wf(),
        pre.edges_wf(),
        pre.archetypes_unique(),
        pre.component_index_wf(),
        post.component_index == pre.component_index,
        post.archetype_index@.len() == pre.archetype_index@.len(),
        forall|a: int|
            0 <= a < pre.n_archs() ==> {
                &&& (#[trigger] post.arch_at(a)).id == pre.arch_at(a).id
                &&& post.arch_at(a).component_ids == pre.arch_at(a).component_ids
                &&& post.arch_at(a).edges == pre.arch_at(a).edges
            },
    ensures
        post.n_archs() == pre.n_archs(),
        post.n_comps() == pre.n_comps(),
        post.n_archs() >= 1,
        post.arch_at(0).component_ids@.len() == 0,
        forall|a: int|
            0 <= a < post.n_archs() ==> (#[trigger] post.arch_at(a)).graph_wf(a, post.n_comps()),
        post.edges_wf(),
        post.archetypes_unique(),
        post.component_index_wf(),
        forall|a: int|
            0 <= a < post.n_archs() ==> (#[trigger] post.arch_at(a)).comp_set() == pre.arch_at(
                a,
            ).comp_set(),
{
    assert forall|a: int| 0 <= a < post.n_archs() implies (#[trigger] post.arch_at(a)).graph_wf(
        a,
        post.n_comps(),
    ) by {
        assert(pre.arch_at(a).graph_wf(a, pre.n_comps()));
    }
    assert forall|a: int| 0 <= a < post.n_archs() implies (#[trigger] post.arch_at(a)).comp_set()
        == pre.arch_at(a).comp_set() by {
        assert(pre.arch_at(a).graph_wf(a, pre.n_comps()));
    }
    assert forall|a: int, c: int|
        0 <= a < post.n_archs() && 0 <= c < post.n_comps() implies #[trigger] post.edge_ok(
        a,
        c,
    ) by {
        assert(pre.edge_ok(a, c));
        let e = pre.arch_at(a).edges@[c];
        assert(post.arch_at(a).comp_set() == pre.arch_at(a).comp_set());
        assert(post.arch_at(e.add.0 as int).comp_set() == pre.arch_at(e.add.0 as int).comp_set());
        assert(post.arch_at(e.rem.0 as int).comp_set() == pre.arch_at(e.rem.0 as int).comp_set());
    }
    assert forall|a1: int, a2: int|
        #![trigger post.arch_at(a1).comp_set(), post.arch_at(a2).comp_set()]
        0 <= a1 < post.n_archs() && 0 <= a2 < post.n_archs() && a1 != a2 implies post.arch_at(
        a1,
    ).comp_set() != post.arch_at(a2).comp_set() by {
        assert(pre.arch_at(a1).comp_set() != pre.arch_at(a2).comp_set());
    }
    assert forall|c: int| 0 <= c < post.n_comps() implies (#[trigger] post.component_index@[c])@.len()
        == post.n_archs() by {
        assert(pre.component_index@[c]@.len() == pre.n_archs());
    }
    assert forall|c: int, a: int|
        0 <= c < post.n_comps() && 0 <= a < post.n_archs() implies #[trigger] post.col_ok(c, a) by {
        assert(pre.col_ok(c, a));
        assert(post.arch_at(a).comp_set() == pre.arch_at(a).comp_set());
    }
}

impl Ecs {
    /// How many component types have been registered.
    pub open spec fn n_comps(self) -> int {
        self.component_index@.len() as int
    }

    /// How many archetypes exist.
    pub open spec fn n_archs(self) -> int {
        self.archetype_index@.len() as int
    }

    /// The archetype standing at arena index `a`.
    pub open spec fn arch_at(self, a: int) -> Archetype {
        self.archetype_index@[a]
    }

    /// Every archetype has the shape the store relies on, and archetype 0 is
    /// the empty-component-set archetype every new entity starts in.
    pub open spec fn archetypes_wf(self) -> bool {
        &&& self.n_archs() >= 1
        &&& self.arch_at(0).component_ids@.len() == 0
        &&& forall|a: int|
            0 <= a < self.n_archs() ==> (#[trigger] self.arch_at(a)).graph_wf(a, self.n_comps())
        &&& forall|a: int| 0 <= a < self.n_archs() ==> (#[trigger] self.arch_at(a)).cols_wf()
    }

    /// The edge cached on archetype `a` for component `c` points both ways
    /// at the archetypes holding `a`'s set with `c` inserted and removed.
    pub open spec fn edge_ok(self, a: int, c: int) -> bool {
        let e = self.arch_at(a).edges@[c];
        &&& e.add.0 < self.n_archs()
        &&& e.rem.0 < self.n_archs()
        &&& self.arch_at(e.add.0 as int).comp_set() == self.arch_at(a).comp_set().insert(
            ComponentId(c as usize),
        )
        &&& self.arch_at(e.rem.0 as int).comp_set() == self.arch_at(a).comp_set().remove(
            ComponentId(c as usize),
        )
    }

    /// Every cached edge of every archetype is correct.
    pub open spec fn edges_wf(self) -> bool {
        forall|a: int, c: int|
            0 <= a < self.n_archs() && 0 <= c < self.n_comps() ==> #[trigger] self.edge_ok(a, c)
    }

    /// No two distinct archetypes have the same component set.
    pub open spec fn archetypes_unique(self) -> bool {
        forall|a1: int, a2: int|
            #![trigger self.arch_at(a1).comp_set(), self.arch_at(a2).comp_set()]
            0 <= a1 < self.n_archs() && 0 <= a2 < self.n_archs() && a1 != a2
                ==> self.arch_at(a1).comp_set() != self.arch_at(a2).comp_set()
    }

    /// The component index entry for component `c` and archetype `a` is the
    /// column of `c` in `a` exactly when `a` carries `c`.
    pub open spec fn col_ok(self, c: int, a: int) -> bool {
        match self.component_index@[c]@[a] {
            Some(col) => col < self.arch_at(a).component_ids@.len() && self.arch_at(
                a,
            ).component_ids@[col as int] == ComponentId(c as usize),
            None => !self.arch_at(a).comp_set().contains(ComponentId(c as usize)),
        }
    }

    /// The component index covers every component and archetype, correctly.
    pub open spec fn component_index_wf(self) -> bool {
        &&& forall|c: int|
            0 <= c < self.n_comps() ==> (#[trigger] self.component_index@[c])@.len()
                == self.n_archs()
        &&& forall|c: int, a: int|
            0 <= c < self.n_comps() && 0 <= a < self.n_archs() ==> #[trigger] self.col_ok(c, a)
    }

    /// Whether slot `i` currently holds a live entity.
    pub open spec fn slot_live(self, i: int) -> bool {
        self.entity_index@[i].record is Some
    }

    /// The record stored in slot `i`.
    pub open spec fn rec_at(self, i: int) -> EntityRecord {
        self.entity_index@[i].record.unwrap()
    }

    /// A live slot's record points at an existing archetype and a row within
    /// that archetype's length.
    pub open spec fn slot_ok(self, i: int) -> bool {
        self.slot_live(i) ==> {
            &&& self.rec_at(i).archetype.0 < self.n_archs()
            &&& self.rec_at(i).row < self.arch_at(self.rec_at(i).archetype.0 as int).rows
        }
    }

    /// Every slot is valid, and no two live entities of one archetype share
    /// a row.
    pub open spec fn entities_wf(self) -> bool {
        &&& forall|i: int| 0 <= i < self.entity_index@.len() ==> #[trigger] self.slot_ok(i)
        &&& forall|i1: int, i2: int|
            #![trigger self.rec_at(i1), self.rec_at(i2)]
            0 <= i1 < self.entity_index@.len() && 0 <= i2 < self.entity_index@.len() && i1 != i2
                && self.slot_live(i1) && self.slot_live(i2) && self.rec_at(i1).archetype
                == self.rec_at(i2).archetype ==> self.rec_at(i1).row != self.rec_at(i2).row
    }

    /// Every archetype's length equals the number of live entities recorded
    /// against it.
    pub open spec fn density_wf(self) -> bool {
        forall|a: int|
            0 <= a < self.n_archs() ==> (#[trigger] self.arch_at(a)).rows == count_at(
                self.entity_index@,
                a,
            )
    }

    /// The store's full invariant: every constructor establishes it and
    /// every operation preserves it.
    pub open spec fn wf(self) -> bool {
        &&& self.archetypes_wf()
        &&& self.edges_wf()
        &&& self.archetypes_unique()
        &&& self.component_index_wf()
        &&& self.entities_wf()
        &&& self.density_wf()
    }

    /// Whether `e` names a live entity: its slot exists, is live, and holds
    /// the generation packed into `e`. Lookup goes by slot index and
    /// generation; the flag bits are the caller's and do not take part.
    pub open spec fn valid_eid(self, e: EntityId) -> bool {
        &&& e.index_spec() < self.entity_index@.len()
        &&& self.entity_index@[e.index_spec() as int].generation == e.gener_spec()
        &&& self.entity_index@[e.index_spec() as int].record is Some
    }

    /// The record of live entity `e`.
    pub open spec fn rec_of(self, e: EntityId) -> EntityRecord {
        self.rec_at(e.index_spec() as int)
    }

    /// The component set of live entity `e`.
    pub open spec fn comps_of(self, e: EntityId) -> Set<ComponentId> {
        self.arch_at(self.rec_of(e).archetype.0 as int).comp_set()
    }

    /// What `get_component` returns for live entity `e` and component `c`:
    /// the value in `e`'s row of `c`'s column, or `None` when `e`'s
    /// archetype does not carry `c`.
    pub open spec fn get_spec(self, e: EntityId, c: ComponentId) -> Option<ComponentValue> {
        let a = self.rec_of(e).archetype.0 as int;
        if c.0 < self.n_comps() && self.component_index@[c.0 as int]@[a] is Some {
            let col = self.component_index@[c.0 as int]@[a].unwrap();
            Some(self.arch_at(a).component_insts@[col as int]@[self.rec_of(e).row as int])
        } else {
            None
        }
    }

    /// What a successful `add_component(e, c, v)` does to the store: `e` now
    /// carries `c` with value `v`, every other component of `e` keeps its
    /// value, every other entity keeps its components and values, and rows
    /// slide down by one exactly for the entities of `e`'s old archetype that
    /// stood past `e`'s vacated row.
    pub open spec fn add_effect(pre: Ecs, post: Ecs, e: EntityId, c: ComponentId, v: ComponentValue) -> bool {
        &&& post.n_comps() == pre.n_comps()
        &&& post.n_archs() == pre.n_archs()
        &&& post.entity_index@.len() == pre.entity_index@.len()
        &&& post.valid_eid(e)
        &&& (forall|e2: EntityId| post.valid_eid(e2) <==> pre.valid_eid(e2))
        &&& ({
            let b = pre.arch_at(pre.rec_of(e).archetype.0 as int).edges@[c.0 as int].add;
            post.rec_of(e) == (EntityRecord { archetype: b, row: pre.arch_at(b.0 as int).rows })
        })
        &&& post.comps_of(e) == pre.comps_of(e).insert(c)
        &&& post.get_spec(e, c) == Some(v)
        &&& (forall|c2: ComponentId|
            c2 != c ==> #[trigger] post.get_spec(e, c2) == pre.get_spec(e, c2))
        &&& (forall|e2: EntityId|
            #[trigger] pre.valid_eid(e2) && e2.index_spec() != e.index_spec() ==> post.comps_of(
                e2,
            ) == pre.comps_of(e2))
        &&& (forall|e2: EntityId, c2: ComponentId|
            pre.valid_eid(e2) && e2.index_spec() != e.index_spec() ==> post.get_spec(e2, c2)
                == pre.get_spec(e2, c2))
        &&& (forall|e2: EntityId|
            #[trigger] pre.valid_eid(e2) && e2.index_spec() != e.index_spec() ==> post.rec_of(e2)
                == fixed_rec(pre.rec_of(e2), pre.rec_of(e)))
    }

    /// What a successful `remove_component(e, c)` does to the store, the
    /// mirror image of `add_effect`: `c` leaves `e`, everything else stays.
    pub open spec fn remove_effect(pre: Ecs, post: Ecs, e: EntityId, c: ComponentId) -> bool {
        &&& post.n_comps() == pre.n_comps()
        &&& post.n_archs() == pre.n_archs()
        &&& post.entity_index@.len() == pre.entity_index@.len()
        &&& post.valid_eid(e)
        &&& (forall|e2: EntityId| post.valid_eid(e2) <==> pre.valid_eid(e2))
        &&& ({
            let b = pre.arch_at(pre.rec_of(e).archetype.0 as int).edges@[c.0 as int].rem;
            post.rec_of(e) == (EntityRecord { archetype: b, row: pre.arch_at(b.0 as int).rows })
        })
        &&& post.comps_of(e) == pre.comps_of(e).remove(c)
        &&& post.get_spec(e, c) is None
        &&& (forall|c2: ComponentId|
            c2 != c ==> #[trigger] post.get_spec(e, c2) == pre.get_spec(e, c2))
        &&& (forall|e2: EntityId|
            #[trigger] pre.valid_eid(e2) && e2.index_spec() != e.index_spec() ==> post.comps_of(
                e2,
            ) == pre.comps_of(e2))
        &&& (forall|e2: EntityId, c2: ComponentId|
            pre.valid_eid(e2) && e2.index_spec() != e.index_spec() ==> post.get_spec(e2, c2)
                == pre.get_spec(e2, c2))
        &&& (forall|e2: EntityId|
            #[trigger] pre.valid_eid(e2) && e2.index_spec() != e.index_spec() ==> post.rec_of(e2)
                == fixed_rec(pre.rec_of(e2), pre.rec_of(e)))
    }

    /// Creates an empty store holding only the empty-component-set archetype.
    pub fn new() -> (r: Ecs)
        ensures
            r.wf(),
            r.n_comps() == 0,
            r.n_archs() == 1,
            r.entity_index@.len() == 0,
    {
        let empty = Archetype {
            id: ArchetypeId(0),
            component_ids: Vec::new(),
            component_insts: Vec::new(),
            edges: Vec::new(),
            rows: 0,
        };
        let mut archetype_index: Vec<Archetype> = Vec::new();
        archetype_index.push(empty);
        let r = Ecs {
            entity_index: Vec::new(),
            component_index: Vec::new(),
            archetype_index,
        };
        proof {
            assert(r.arch_at(0).graph_wf(0, 0));
            assert(count_at(r.entity_index@, 0) == 0);
        }
        r
    }

    /// Creates a new component type and eagerly extends the transition graph:
    /// for every archetype that currently exists, the archetype carrying that
    /// component set plus the new component is materialized at once, wired to
    /// its source by a mutual edge, and fully connected for every other
    /// component, so every later add-transition is a cached O(1) lookup.
    ///
    /// Registration doubles the archetype count, so the arena must have room.
    pub fn new_component(&mut self) -> (r: ComponentId)
        requires
            old(self).wf(),
            old(self).archetype_index@.len() * 2 <= usize::MAX,
        ensures
            final(self).wf(),
            r == ComponentId(old(self).n_comps() as usize),
            final(self).n_comps() == old(self).n_comps() + 1,
            final(self).n_archs() == 2 * old(self).n_archs(),
            final(self).entity_index == old(self).entity_index,
            forall|a: int|
                0 <= a < old(self).n_archs() ==> {
                    &&& (#[trigger] final(self).arch_at(a)).id == old(self).arch_at(a).id
                    &&& final(self).arch_at(a).component_ids == old(self).arch_at(a).component_ids
                    &&& final(self).arch_at(a).component_insts == old(self).arch_at(
                        a,
                    ).component_insts
                    &&& final(self).arch_at(a).rows == old(self).arch_at(a).rows
                    &&& final(self).arch_at(a).comp_set() == old(self).arch_at(a).comp_set()
                },
            forall|e: EntityId| final(self).valid_eid(e) <==> old(self).valid_eid(e),
            forall|e: EntityId| #[trigger] old(self).valid_eid(e) ==> final(self).rec_of(e) == old(
                self,
            ).rec_of(e) && final(self).comps_of(e) == old(self).comps_of(e),
            forall|e: EntityId, cc: ComponentId| old(self).valid_eid(e) ==> final(self).get_spec(
                e,
                cc,
            ) == old(self).get_spec(e, cc),
    {
        let c = self.component_index.len();
        let n = self.archetype_index.len();
        let ghost pre = *self;

        // Double every registered component's table: the entry for the coming
        // archetype n + t mirrors the entry for old archetype t, since the new
        // archetype keeps its source's column order as a prefix.
        let mut d: usize = 0;
        while d < c
            invariant
                d <= c,
                pre.wf(),
                n == pre.n_archs(),
                c == pre.n_comps(),
                2 * n <= usize::MAX,
                self.entity_index == pre.entity_index,
                self.archetype_index == pre.archetype_index,
                self.component_index@.len() == c,
                forall|k: int|
                    d <= k < c ==> #[trigger] self.component_index@[k] == pre.component_index@[k],
                forall|k: int| 0 <= k < d ==> #[trigger] comp_index_mirrored(pre, *self, k, n as int),
            decreases c - d,
        {
            let mut i: usize = 0;
            while i < n
                invariant
                    i <= n,
                    d < c,
                    pre.wf(),
                    n == pre.n_archs(),
                    c == pre.n_comps(),
                    2 * n <= usize::MAX,
                    self.entity_index == pre.entity_index,
                    self.archetype_index == pre.archetype_index,
                    self.component_index@.len() == c,
                    forall|k: int|
                        d < k < c ==> #[trigger] self.component_index@[k]
                            == pre.component_index@[k],
                    forall|k: int|
                        0 <= k < d ==> #[trigger] comp_index_mirrored(pre, *self, k, n as int),
                    self.component_index@[d as int]@.len() == n + i,
                    forall|t: int|
                        0 <= t < n ==> #[trigger] self.component_index@[d as int]@[t]
                            == pre.component_index@[d as int]@[t],
                    forall|t: int|
                        n <= t < n + i ==> #[trigger] self.component_index@[d as int]@[t]
                            == pre.component_index@[d as int]@[t - n],
                decreases n - i,
            {
                let entry = self.component_index[d][i];
                let ghost prev = *self;
                let inner = &mut self.component_index[d];
                inner.push(entry);
                proof {
                    assert forall|k: int| 0 <= k < d implies #[trigger] comp_index_mirrored(
                        pre,
                        *self,
                        k,
                        n as int,
                    ) by {
                        assert(comp_index_mirrored(pre, prev, k, n as int));
                        assert(self.component_index@[k] == prev.component_index@[k]);
                    }
                }
                i += 1;
            }
            d += 1;
            proof {
                assert(comp_index_mirrored(pre, *self, d - 1, n as int));
            }
        }

        // The new component's own table: no old archetype carries it; the new
        // archetype n + t carries it in its last column.
        let mut newc: Vec<Option<ArchetypeColumn>> = Vec::new();
        let mut i: usize = 0;
        while i < n
            invariant
                i <= n,
                newc@.len() == i,
                forall|t: int| 0 <= t < i ==> #[trigger] newc@[t] is None,
            decreases n - i,
        {
            newc.push(None);
            i += 1;
        }

        // Materialize the new archetypes and wire the edges on both sides.
        let ghost mid = *self;
        let mut i: usize = 0;
        while i < n
            invariant
                i <= n,
                pre.wf(),
                n == pre.n_archs(),
                c == pre.n_comps(),
                2 * n <= usize::MAX,
                self.entity_index == pre.entity_index,
                self.component_index == mid.component_index,
                self.component_index@.len() == c,
                forall|k: int|
                    0 <= k < c ==> #[trigger] comp_index_mirrored(pre, *self, k, n as int),
                self.archetype_index@.len() == n + i,
                forall|a: int|
                    0 <= a < i ==> #[trigger] old_arch_extended(pre, *self, a, n as int),
                forall|a: int| i <= a < n ==> #[trigger] self.arch_at(a) == pre.arch_at(a),
                forall|a: int|
                    n <= a < n + i ==> #[trigger] new_arch_built(pre, *self, a, n as int, c as int),
                newc@.len() == n + i,
                forall|t: int| 0 <= t < n ==> #[trigger] newc@[t] is None,
                forall|t: int|
                    n <= t < n + i ==> #[trigger] newc@[t] == Some(
                        pre.arch_at(t - n).component_ids@.len() as ArchetypeColumn,
                    ),
            decreases n - i,
        {
            proof {
                assert(self.arch_at(i as int) == pre.arch_at(i as int));
                assert(pre.arch_at(i as int).graph_wf(i as int, c as int));
            }
            let m = self.archetype_index[i].component_ids.len();
            let mut ids2: Vec<ComponentId> = Vec::new();
            let mut j: usize = 0;
            while j < m
                invariant
                    j <= m,
                    i < n,
                    self.archetype_index@.len() == n + i,
                    self.arch_at(i as int) == pre.arch_at(i as int),
                    m == pre.arch_at(i as int).component_ids@.len(),
                    ids2@ == pre.arch_at(i as int).component_ids@.subrange(0, j as int),
                decreases m - j,
            {
                let x = self.archetype_index[i].component_ids[j];
                ids2.push(x);
                proof {
                    assert(ids2@ =~= pre.arch_at(i as int).component_ids@.subrange(
                        0,
                        j + 1 as int,
                    ));
                }
                j += 1;
            }
            proof {
                assert(ids2@ =~= pre.arch_at(i as int).component_ids@);
            }
            ids2.push(ComponentId(c));

            let mut insts2: Vec<Vec<ComponentValue>> = Vec::new();
            let mut j: usize = 0;
            while j < m
                invariant
                    j <= m,
                    insts2@.len() == j,
                    forall|t: int| 0 <= t < j ==> (#[trigger] insts2@[t])@.len() == 0,
                decreases m - j,
            {
                insts2.push(Vec::new());
                j += 1;
            }
            insts2.push(Vec::new());

            let mut edges2: Vec<ArchetypeEdge> = Vec::new();
            let mut j: usize = 0;
            while j < c
                invariant
                    j <= c,
                    i < n,
                    pre.wf(),
                    n == pre.n_archs(),
                    c == pre.n_comps(),
                    2 * n <= usize::MAX,
                    self.archetype_index@.len() == n + i,
                    self.arch_at(i as int) == pre.arch_at(i as int),
                    edges2@.len() == j,
                    forall|k: int|
                        0 <= k < j ==> #[trigger] edges2@[k] == (ArchetypeEdge {
                            add: ArchetypeId(
                                (n + pre.arch_at(i as int).edges@[k].add.0) as usize,
                            ),
                            rem: ArchetypeId(
                                (n + pre.arch_at(i as int).edges@[k].rem.0) as usize,
                            ),
                        }),
                decreases c - j,
            {
                proof {
                    assert(pre.edge_ok(i as int, j as int));
                    assert(pre.arch_at(i as int).graph_wf(i as int, c as int));
                }
                let ed = self.archetype_index[i].edges[j];
                edges2.push(ArchetypeEdge { add: ArchetypeId(n + ed.add.0), rem: ArchetypeId(n + ed.rem.0) });
                j += 1;
            }
            edges2.push(ArchetypeEdge { add: ArchetypeId(n + i), rem: ArchetypeId(i) });

            let ghost before = *self;
            let oldarch = &mut self.archetype_index[i];
            oldarch.edges.push(ArchetypeEdge { add: ArchetypeId(n + i), rem: ArchetypeId(i) });
            newc.push(Some(m));
            self.archetype_index.push(
                Archetype {
                    id: ArchetypeId(n + i),
                    component_ids: ids2,
                    component_insts: insts2,
                    edges: edges2,
                    rows: 0,
                },
            );
            proof {
                assert(old_arch_extended(pre, *self, i as int, n as int));
                assert(new_arch_built(pre, *self, (n + i) as int, n as int, c as int));
                assert forall|a: int| 0 <= a < i implies #[trigger] old_arch_extended(
                    pre,
                    *self,
                    a,
                    n as int,
                ) by {
                    assert(old_arch_extended(pre, before, a, n as int));
                    assert(self.arch_at(a) == before.arch_at(a));
                }
                assert forall|a: int| n <= a < n + i implies #[trigger] new_arch_built(
                    pre,
                    *self,
                    a,
                    n as int,
                    c as int,
                ) by {
                    assert(new_arch_built(pre, before, a, n as int, c as int));
                    assert(self.arch_at(a) == before.arch_at(a));
                }
                assert forall|k: int| 0 <= k < c implies #[trigger] comp_index_mirrored(
                    pre,
                    *self,
                    k,
                    n as int,
                ) by {
                    assert(comp_index_mirrored(pre, before, k, n as int));
                    assert(self.component_index@[k] == before.component_index@[k]);
                }
                assert forall|a: int| i + 1 <= a < n implies #[trigger] self.arch_at(a)
                    == pre.arch_at(a) by {
                    assert(before.arch_at(a) == pre.arch_at(a));
                    assert(self.arch_at(a) == before.arch_at(a));
                }
            }
            i += 1;
        }
        let ghost done = *self;
        self.component_index.push(newc);
        proof {
            let post = *self;
            assert(post.archetype_index == done.archetype_index);
            assert forall|k: int| 0 <= k < c implies #[trigger] comp_index_mirrored(
                pre,
                post,
                k,
                n as int,
            ) by {
                assert(comp_index_mirrored(pre, done, k, n as int));
                assert(post.component_index@[k] == done.component_index@[k]);
            }
            assert forall|a: int| 0 <= a < n implies #[trigger] old_arch_extended(
                pre,
                post,
                a,
                n as int,
            ) by {
                assert(old_arch_extended(pre, done, a, n as int));
            }
            assert forall|a: int| n <= a < 2 * n implies #[trigger] new_arch_built(
                pre,
                post,
                a,
                n as int,
                c as int,
            ) by {
                assert(new_arch_built(pre, done, a, n as int, c as int));
            }
            assert(post.component_index@[c as int]@ == newc@);
            lemma_register_wf(pre, post, n as int, c as int);
        }
        ComponentId(c)
    }

    /// The record of live entity `ent_id`.
    pub fn get_record(&self, ent_id: &EntityId) -> (r: &EntityRecord)
        requires
            self.valid_eid(*ent_id),
        ensures
            *r == self.rec_of(*ent_id),
    {
        let idx = ent_id.get_index() as usize;
        match &self.entity_index[idx].record {
            Some(rec) => rec,
            None => vstd::pervasive::unreached(),
        }
    }

    /// Overwrites the record of live entity `ent_id` and returns the stored
    /// record.
    ///
    /// This is low-level index surgery: it moves the entity's bookkeeping
    /// without moving any column data, so the caller must restore the
    /// store's invariant itself before using the other operations again.
    pub fn replace_record(&mut self, ent_id: EntityId, rec: EntityRecord) -> (r: EntityRecord)
        requires
            old(self).valid_eid(ent_id),
        ensures
            r == rec,
            final(self).entity_index@ == old(self).entity_index@.update(
                ent_id.index_spec() as int,
                EntitySlot { generation: ent_id.gener_spec(), record: Some(rec) },
            ),
            final(self).component_index == old(self).component_index,
            final(self).archetype_index == old(self).archetype_index,
    {
        let idx = ent_id.get_index() as usize;
        let gener = ent_id.get_gener();
        self.entity_index.set(idx, EntitySlot { generation: gener, record: Some(rec) });
        rec
    }

    /// A mutable borrow of the record of live entity `ent_id`.
    ///
    /// Writing through the borrow is the same low-level index surgery as
    /// `replace_record`: the caller must keep the store's invariant.
    pub fn get_record_mut(&mut self, ent_id: &EntityId) -> (r: &mut EntityRecord)
        requires
            old(self).valid_eid(*ent_id),
        ensures
            *r == old(self).rec_of(*ent_id),
            final(self).entity_index@ == old(self).entity_index@.update(
                ent_id.index_spec() as int,
                EntitySlot { generation: ent_id.gener_spec(), record: Some(*final(r)) },
            ),
            final(self).component_index == old(self).component_index,
            final(self).archetype_index == old(self).archetype_index,
    {
        let idx = ent_id.get_index() as usize;
        match &mut self.entity_index[idx].record {
            Some(rec) => rec,
            None => vstd::pervasive::unreached(),
        }
    }

    /// Gets a component of an entity.
    ///
    /// `Ok(None)` is the normal outcome for an entity that does not carry
    /// the component; only an unknown or stale entity id is an error.
    ///
    /// Time complexity: O(1).
    pub fn get_component(&self, ent_id: &EntityId, comp_id: &ComponentId) -> (r: Result<
        Option<ComponentValue>,
        EcsError,
    >)
        requires
            self.wf(),
        ensures
            match r {
                Ok(v) => self.valid_eid(*ent_id) && v == self.get_spec(*ent_id, *comp_id),
                Err(e) => e == EcsError::UnknownEntity && !self.valid_eid(*ent_id),
            },
    {
        let idx = ent_id.get_index() as usize;
        if idx >= self.entity_index.len() {
            return Err(EcsError::UnknownEntity);
        }
        let slot = &self.entity_index[idx];
        if slot.generation != ent_id.get_gener() {
            return Err(EcsError::UnknownEntity);
        }
        let rec = match &slot.record {
            Some(rec) => rec,
            None => {
                return Err(EcsError::UnknownEntity);
            },
        };
        proof {
            assert(self.slot_ok(idx as int));
        }
        if comp_id.0 >= self.component_index.len() {
            return Ok(None);
        }
        let a = rec.archetype.0;
        match self.component_index[comp_id.0][a] {
            None => Ok(None),
            Some(col) => {
                assert(self.col_ok(comp_id.0 as int, a as int));
                Ok(Some(self.archetype_index[a].component_insts[col][rec.row]))
            },
        }
    }

    /// Whether live entity `ent_id` currently carries component `comp_id`.
    pub fn has_component(&self, ent_id: &EntityId, comp_id: &ComponentId) -> (r: Result<
        bool,
        EcsError,
    >)
        requires
            self.wf(),
        ensures
            match r {
                Ok(b) => self.valid_eid(*ent_id) && b == self.comps_of(*ent_id).contains(*comp_id),
                Err(e) => e == EcsError::UnknownEntity && !self.valid_eid(*ent_id),
            },
    {
        let idx = ent_id.get_index() as usize;
        if idx >= self.entity_index.len() {
            return Err(EcsError::UnknownEntity);
        }
        let slot = &self.entity_index[idx];
        if slot.generation != ent_id.get_gener() {
            return Err(EcsError::UnknownEntity);
        }
        let rec = match &slot.record {
            Some(rec) => rec,
            None => {
                return Err(EcsError::UnknownEntity);
            },
        };
        proof {
            assert(self.slot_ok(idx as int));
        }
        if comp_id.0 >= self.component_index.len() {
            proof {
                let a = self.rec_of(*ent_id).archetype.0 as int;
                assert(self.arch_at(a).graph_wf(a, self.n_comps()));
                if self.comps_of(*ent_id).contains(*comp_id) {
                    let j = choose|j: int|
                        0 <= j < self.arch_at(a).component_ids@.len() && self.arch_at(
                            a,
                        ).component_ids@[j] == *comp_id;
                    assert(self.arch_at(a).component_ids@[j].0 < self.n_comps());
                }
            }
            return Ok(false);
        }
        let a = rec.archetype.0;
        proof {
            assert(self.col_ok(comp_id.0 as int, a as int));
            if self.component_index@[comp_id.0 as int]@[a as int] is Some {
                let col = self.component_index@[comp_id.0 as int]@[a as int].unwrap();
                assert(self.arch_at(a as int).component_ids@.contains(
                    self.arch_at(a as int).component_ids@[col as int],
                ));
            }
        }
        Ok(self.component_index[comp_id.0][a].is_some())
    }

    /// The index of a freed slot, or `None` when every slot is live.
    fn find_free_slot(&self) -> (r: Option<usize>)
        ensures
            match r {
                Some(i) => i < self.entity_index@.len() && self.entity_index@[i as int].record
                    is None,
                None => forall|i: int|
                    0 <= i < self.entity_index@.len() ==> (#[trigger] self.entity_index@[i]).record
                        is Some,
            },
    {
        let n = self.entity_index.len();
        let mut i: usize = 0;
        while i < n
            invariant
                i <= n,
                n == self.entity_index@.len(),
                forall|k: int|
                    0 <= k < i ==> (#[trigger] self.entity_index@[k]).record is Some,
            decreases n - i,
        {
            if self.entity_index[i].record.is_none() {
                return Some(i);
            }
            i += 1;
        }
        None
    }

    /// Allocates a fresh entity, recycling a freed slot when one exists, and
    /// places it at the next row of the empty-component-set archetype.
    ///
    /// The slot index must still fit the id's 32-bit index field.
    pub fn create_entity(&mut self) -> (r: EntityId)
        requires
            old(self).wf(),
            old(self).entity_index@.len() < 0xffff_ffff,
        ensures
            final(self).wf(),
            final(self).valid_eid(r),
            r.flags_spec() == 0,
            !old(self).valid_eid(r),
            final(self).rec_of(r) == (EntityRecord {
                archetype: ArchetypeId(0),
                row: old(self).arch_at(0).rows,
            }),
            final(self).comps_of(r) == Set::<ComponentId>::empty(),
            final(self).component_index == old(self).component_index,
            final(self).n_archs() == old(self).n_archs(),
            final(self).entity_index@.len() <= old(self).entity_index@.len() + 1,
            forall|a: int| 0 < a < old(self).n_archs() ==> final(self).arch_at(a) == old(self).arch_at(a),
            final(self).arch_at(0).component_ids == old(self).arch_at(0).component_ids,
            final(self).arch_at(0).component_insts == old(self).arch_at(0).component_insts,
            final(self).arch_at(0).edges == old(self).arch_at(0).edges,
            final(self).arch_at(0).id == old(self).arch_at(0).id,
            final(self).arch_at(0).rows == old(self).arch_at(0).rows + 1,
            forall|e: EntityId| #[trigger] old(self).valid_eid(e) ==> final(self).valid_eid(e)
                && final(self).rec_of(e) == old(self).rec_of(e),
            forall|e: EntityId| #[trigger] final(self).valid_eid(e) && e.index_spec()
                != r.index_spec() ==> old(self).valid_eid(e),
            forall|e: EntityId| #[trigger] final(self).valid_eid(e) ==> old(self).valid_eid(e) || (
            e.index_spec() == r.index_spec() && e.gener_spec() == r.gener_spec()),
            r.index_spec() < old(self).entity_index@.len() ==> r.gener_spec() == old(
                self,
            ).entity_index@[r.index_spec() as int].generation,
            forall|e: EntityId, c: ComponentId| old(self).valid_eid(e) ==> final(self).get_spec(
                e,
                c,
            ) == old(self).get_spec(e, c),
    {
        proof {
            crate::entity::lemma_count_le_len(self.entity_index@, 0);
        }
        let row0 = self.archetype_index[0].rows;
        let rec = EntityRecord { archetype: ArchetypeId(0), row: row0 };
        let free = self.find_free_slot();
        let ghost pre = *self;
        let (idx, gener): (usize, u16) = match free {
            Some(i) => {
                let g = self.entity_index[i].generation;
                self.entity_index.set(i, EntitySlot { generation: g, record: Some(rec) });
                proof {
                    crate::entity::lemma_count_update(
                        pre.entity_index@,
                        i as int,
                        self.entity_index@[i as int],
                        0,
                    );
                }
                (i, g)
            },
            None => {
                let i = self.entity_index.len();
                self.entity_index.push(EntitySlot { generation: 0, record: Some(rec) });
                proof {
                    crate::entity::lemma_count_push(
                        pre.entity_index@,
                        self.entity_index@[i as int],
                        0,
                    );
                }
                (i, 0)
            },
        };
        self.archetype_index[0].rows = row0 + 1;
        let e = EntityId::new(#[verifier::truncate] (idx as u32), gener, 0);
        proof {
            let post = *self;
            let n = post.entity_index@.len();
            assert(pre.wf());
            assert forall|a: int|
                0 <= a < pre.n_archs() implies {
                &&& (#[trigger] post.arch_at(a)).id == pre.arch_at(a).id
                &&& post.arch_at(a).component_ids == pre.arch_at(a).component_ids
                &&& post.arch_at(a).edges == pre.arch_at(a).edges
                &&& post.arch_at(a).component_insts == pre.arch_at(a).component_insts
            } by {
                assert(pre.arch_at(a) == pre.archetype_index@[a]);
            }
            lemma_graph_preserved(pre, post);
            assert forall|a: int| 0 <= a < post.n_archs() implies (#[trigger] post.arch_at(a)).rows
                == count_at(post.entity_index@, a) by {
                assert(pre.arch_at(a).rows == count_at(pre.entity_index@, a));
                if a == 0 {
                } else {
                    if free is Some {
                        crate::entity::lemma_count_update(
                            pre.entity_index@,
                            free.unwrap() as int,
                            post.entity_index@[free.unwrap() as int],
                            a,
                        );
                    } else {
                        crate::entity::lemma_count_push(
                            pre.entity_index@,
                            post.entity_index@[pre.entity_index@.len() as int],
                            a,
                        );
                    }
                }
            }
            assert(post.arch_at(0).cols_wf());
            assert forall|i: int| 0 <= i < n implies #[trigger] post.slot_ok(i) by {
                if i != idx && post.slot_live(i) {
                    assert(pre.slot_ok(i));
                }
            }
            assert forall|i1: int, i2: int|
                #![trigger post.rec_at(i1), post.rec_at(i2)]
                0 <= i1 < n && 0 <= i2 < n && i1 != i2 && post.slot_live(i1) && post.slot_live(i2)
                    && post.rec_at(i1).archetype == post.rec_at(i2).archetype implies post.rec_at(
                i1,
            ).row != post.rec_at(i2).row by {
                if i1 != idx && i2 != idx {
                    assert(post.rec_at(i1) == pre.rec_at(i1));
                    assert(post.rec_at(i2) == pre.rec_at(i2));
                } else {
                    let o = if i1 == idx { i2 } else { i1 };
                    assert(pre.slot_ok(o));
                    assert(pre.rec_at(o).row < pre.arch_at(0).rows);
                }
            }
            assert forall|ee: EntityId, c: ComponentId| pre.valid_eid(ee) implies post.get_spec(
                ee,
                c,
            ) == pre.get_spec(ee, c) by {
                assert(pre.slot_ok(ee.index_spec() as int));
                let aa = pre.rec_of(ee).archetype.0 as int;
                if c.0 < pre.n_comps() {
                    assert(pre.col_ok(c.0 as int, aa));
                    if aa == 0 && pre.component_index@[c.0 as int]@[aa] is Some {
                        let col = pre.component_index@[c.0 as int]@[aa].unwrap();
                        assert(col < pre.arch_at(0).component_ids@.len());
                    }
                }
            }
            assert forall|a: int| 0 <= a < post.n_archs() implies (#[trigger] post.arch_at(
                a,
            )).cols_wf() by {
                assert(pre.arch_at(a).cols_wf());
            }
            assert(post.comps_of(e) =~= Set::<ComponentId>::empty());
        }
        e
    }

    /// Slides every live entity of archetype `a` recorded past row `r` down
    /// by one row, after that row has been compacted away.
    fn fixup_rows(&mut self, a: usize, r: usize)
        ensures
            final(self).entity_index@.len() == old(self).entity_index@.len(),
            forall|i: int|
                0 <= i < old(self).entity_index@.len() ==> final(self).entity_index@[i]
                    == crate::entity::fixup_slot(old(self).entity_index@[i], a as int, r as int),
            final(self).component_index == old(self).component_index,
            final(self).archetype_index == old(self).archetype_index,
    {
        let n = self.entity_index.len();
        let mut i: usize = 0;
        while i < n
            invariant
                i <= n,
                n == self.entity_index@.len(),
                n == old(self).entity_index@.len(),
                forall|k: int|
                    0 <= k < i ==> self.entity_index@[k] == crate::entity::fixup_slot(
                        old(self).entity_index@[k],
                        a as int,
                        r as int,
                    ),
                forall|k: int| i <= k < n ==> self.entity_index@[k] == old(self).entity_index@[k],
                self.component_index == old(self).component_index,
                self.archetype_index == old(self).archetype_index,
            decreases n - i,
        {
            let slot = self.entity_index[i];
            match slot.record {
                Some(rec) => {
                    if rec.archetype.0 == a && rec.row > r {
                        self.entity_index.set(
                            i,
                            EntitySlot {
                                generation: slot.generation,
                                record: Some(
                                    EntityRecord { archetype: rec.archetype, row: rec.row - 1 },
                                ),
                            },
                        );
                    }
                },
                None => {},
            }
            i += 1;
        }
    }

    /// Adds component `comp_id` with value `comp_inst` to entity `ent_id`,
    /// migrating the entity's data into the archetype carrying its old
    /// component set plus `comp_id` and compacting the vacated row.
    ///
    /// Adding a component the entity already carries is an error; callers
    /// that cannot know should ask `has_component` first.
    ///
    /// Time complexity: O(columns of the old archetype + entities).
    pub fn add_component(&mut self, ent_id: &EntityId, comp_id: &ComponentId, comp_inst: ComponentValue) -> (r: Result<(), EcsError>)
        requires
            old(self).wf(),
        ensures
            final(self).wf(),
            match r {
                Ok(()) => old(self).valid_eid(*ent_id) && comp_id.0 < old(self).n_comps() && !old(
                    self,
                ).comps_of(*ent_id).contains(*comp_id) && Ecs::add_effect(
                    *old(self),
                    *final(self),
                    *ent_id,
                    *comp_id,
                    comp_inst,
                ),
                Err(err) => *final(self) == *old(self) && (if !old(self).valid_eid(*ent_id) {
                    err == EcsError::UnknownEntity
                } else if comp_id.0 >= old(self).n_comps() {
                    err == EcsError::UnknownComponent
                } else {
                    err == EcsError::ComponentAlreadyPresent && old(self).comps_of(
                        *ent_id,
                    ).contains(*comp_id)
                }),
            },
    {
        let idx = ent_id.get_index() as usize;
        if idx >= self.entity_index.len() {
            return Err(EcsError::UnknownEntity);
        }
        let slot = self.entity_index[idx];
        if slot.generation != ent_id.get_gener() {
            return Err(EcsError::UnknownEntity);
        }
        let rec = match slot.record {
            Some(rec) => rec,
            None => {
                return Err(EcsError::UnknownEntity);
            },
        };
        if comp_id.0 >= self.component_index.len() {
            return Err(EcsError::UnknownComponent);
        }
        let ai = rec.archetype.0;
        let r0 = rec.row;
        proof {
            assert(self.slot_ok(idx as int));
            assert(self.col_ok(comp_id.0 as int, ai as int));
        }
        if self.component_index[comp_id.0][ai].is_some() {
            proof {
                let col = self.component_index@[comp_id.0 as int]@[ai as int].unwrap();
                assert(self.arch_at(ai as int).component_ids@.contains(
                    self.arch_at(ai as int).component_ids@[col as int],
                ));
            }
            return Err(EcsError::ComponentAlreadyPresent);
        }
        proof {
            assert(self.edge_ok(ai as int, comp_id.0 as int));
        }
        let bi = self.archetype_index[ai].get_add(comp_id).0;
        proof {
            assert(self.arch_at(bi as int).comp_set().contains(*comp_id));
            assert(bi != ai);
        }
        let new_row = self.archetype_index[bi].rows;
        let ghost pre = *self;
        proof {
            crate::entity::lemma_count_present(pre.entity_index@, idx as int, ai as int);
            crate::entity::lemma_count_missing(pre.entity_index@, idx as int, bi as int);
        }

        // Copy every shared column value from the vacated row of the source
        // into a fresh row of the destination, compacting the source as we go.
        let acount = self.archetype_index[ai].component_ids.len();
        let mut j: usize = 0;
        while j < acount
            invariant
                j <= acount,
                pre.wf(),
                ai < pre.n_archs(),
                bi < pre.n_archs(),
                ai != bi,
                acount == pre.arch_at(ai as int).component_ids@.len(),
                r0 < pre.arch_at(ai as int).rows,
                pre.arch_at(bi as int).comp_set() == pre.arch_at(ai as int).comp_set().insert(
                    ComponentId(comp_id.0),
                ),
                comp_id.0 < pre.n_comps(),
                !pre.arch_at(ai as int).comp_set().contains(ComponentId(comp_id.0)),
                self.entity_index == pre.entity_index,
                self.component_index == pre.component_index,
                self.archetype_index@.len() == pre.n_archs(),
                forall|x: int|
                    0 <= x < pre.n_archs() && x != ai && x != bi ==> #[trigger] self.arch_at(x)
                        == pre.arch_at(x),
                self.arch_at(ai as int).id == pre.arch_at(ai as int).id,
                self.arch_at(ai as int).component_ids == pre.arch_at(ai as int).component_ids,
                self.arch_at(ai as int).edges == pre.arch_at(ai as int).edges,
                self.arch_at(ai as int).rows == pre.arch_at(ai as int).rows,
                self.arch_at(ai as int).component_insts@.len() == acount,
                forall|t: int|
                    0 <= t < j ==> (#[trigger] self.arch_at(ai as int).component_insts@[t])@
                        == pre.arch_at(ai as int).component_insts@[t]@.remove(r0 as int),
                forall|t: int|
                    j <= t < acount ==> #[trigger] self.arch_at(ai as int).component_insts@[t]
                        == pre.arch_at(ai as int).component_insts@[t],
                self.arch_at(bi as int).id == pre.arch_at(bi as int).id,
                self.arch_at(bi as int).component_ids == pre.arch_at(bi as int).component_ids,
                self.arch_at(bi as int).edges == pre.arch_at(bi as int).edges,
                self.arch_at(bi as int).rows == pre.arch_at(bi as int).rows,
                self.arch_at(bi as int).component_insts@.len() == pre.arch_at(
                    bi as int,
                ).component_insts@.len(),
                forall|cb: int|
                    0 <= cb < pre.arch_at(bi as int).component_ids@.len()
                        ==> #[trigger] migrated_col(
                        pre,
                        *self,
                        ai as int,
                        bi as int,
                        r0 as int,
                        j as int,
                        cb,
                    ),
            decreases acount - j,
        {
            let d = self.archetype_index[ai].component_ids[j];
            proof {
                assert(pre.arch_at(ai as int).graph_wf(ai as int, pre.n_comps()));
                assert(pre.col_ok(d.0 as int, ai as int));
                assert(pre.arch_at(ai as int).component_ids@.contains(d));
                assert(pre.arch_at(bi as int).comp_set().contains(d));
                assert(pre.col_ok(d.0 as int, bi as int));
                // the component index names exactly this column of the source
                let t0 = pre.component_index@[d.0 as int]@[ai as int].unwrap();
                assert(pre.arch_at(ai as int).component_ids@[t0 as int] == d);
                assert(pre.arch_at(ai as int).ids_distinct());
                assert(t0 == j);
            }
            let colb = match self.component_index[d.0][bi] {
                Some(cb) => cb,
                None => vstd::pervasive::unreached(),
            };
            let ghost before = *self;
            proof {
                assert(migrated_col(pre, before, ai as int, bi as int, r0 as int, j as int, colb as int));
                assert(pre.arch_at(bi as int).cols_wf());
                assert(pre.arch_at(ai as int).cols_wf());
            }
            let v = self.archetype_index[ai].component_insts[j].remove(r0);
            let ghost mid = *self;
            self.archetype_index[bi].component_insts[colb].push(v);
            proof {
                assert(self.arch_at(ai as int).component_insts@[j as int]@ == pre.arch_at(
                    ai as int,
                ).component_insts@[j as int]@.remove(r0 as int));
                assert(pre.arch_at(bi as int).component_ids@[colb as int] == d);
                assert forall|cb: int|
                    0 <= cb < pre.arch_at(bi as int).component_ids@.len()
                        implies #[trigger] migrated_col(
                    pre,
                    *self,
                    ai as int,
                    bi as int,
                    r0 as int,
                    j + 1 as int,
                    cb,
                ) by {
                    assert(migrated_col(pre, before, ai as int, bi as int, r0 as int, j as int, cb));
                    let dbc = pre.arch_at(bi as int).component_ids@[cb];
                    if cb != colb {
                        assert(self.arch_at(bi as int).component_insts@[cb] == before.arch_at(
                            bi as int,
                        ).component_insts@[cb]);
                        if pre.component_index@[dbc.0 as int]@[ai as int] is Some {
                            let t = pre.component_index@[dbc.0 as int]@[ai as int].unwrap();
                            assert(pre.col_ok(dbc.0 as int, ai as int));
                            assert(pre.arch_at(ai as int).component_ids@[t as int] == dbc);
                            assert(pre.arch_at(bi as int).ids_distinct());
                            if t == j {
                                assert(dbc == d);
                                assert(cb == colb);
                            }
                        }
                    } else {
                        assert(v == pre.arch_at(ai as int).component_insts@[j as int]@[r0 as int]);
                    }
                }
                assert forall|x: int|
                    0 <= x < pre.n_archs() && x != ai && x != bi implies #[trigger] self.arch_at(x)
                    == pre.arch_at(x) by {
                    assert(before.arch_at(x) == pre.arch_at(x));
                    assert(mid.arch_at(x) == before.arch_at(x));
                    assert(self.arch_at(x) == mid.arch_at(x));
                }
            }
            j += 1;
        }

        // Install the new component's value in the destination's own column.
        proof {
            assert(pre.arch_at(bi as int).comp_set().contains(*comp_id));
            assert(pre.col_ok(comp_id.0 as int, bi as int));
        }
        let colc = match self.component_index[comp_id.0][bi] {
            Some(cb) => cb,
            None => vstd::pervasive::unreached(),
        };
        let ghost beforec = *self;
        proof {
            assert(pre.col_ok(comp_id.0 as int, ai as int));
            assert(migrated_col(
                pre,
                beforec,
                ai as int,
                bi as int,
                r0 as int,
                acount as int,
                colc as int,
            ));
        }
        self.archetype_index[bi].component_insts[colc].push(comp_inst);

        // Lengths: the destination gained a row, the source lost one.
        let br = self.archetype_index[bi].rows;
        self.archetype_index[bi].rows = br + 1;
        let ar = self.archetype_index[ai].rows;
        self.archetype_index[ai].rows = ar - 1;

        // Move the entity's record, then compact the vacated row out of every
        // other record of the source archetype.
        let gener = ent_id.get_gener();
        self.entity_index.set(
            idx,
            EntitySlot {
                generation: gener,
                record: Some(EntityRecord { archetype: ArchetypeId(bi), row: new_row }),
            },
        );
        let ghost mid3 = *self;
        self.fixup_rows(ai, r0);
        proof {
            let post = *self;
            let nb = pre.arch_at(bi as int).component_ids@.len() as int;
            assert forall|x: int|
                0 <= x < pre.n_archs() && x != ai && x != bi implies #[trigger] post.arch_at(x)
                == pre.arch_at(x) by {
                assert(beforec.arch_at(x) == pre.arch_at(x));
            }
            assert forall|cb: int|
                0 <= cb < nb && cb != colc implies #[trigger] migrated_col(
                pre,
                post,
                ai as int,
                bi as int,
                r0 as int,
                acount as int,
                cb,
            ) by {
                assert(migrated_col(pre, beforec, ai as int, bi as int, r0 as int, acount as int, cb));
                assert(post.arch_at(bi as int).component_insts@[cb] == beforec.arch_at(
                    bi as int,
                ).component_insts@[cb]);
            }
            assert forall|t: int|
                0 <= t < acount implies (#[trigger] post.arch_at(ai as int).component_insts@[t])@
                == pre.arch_at(ai as int).component_insts@[t]@.remove(r0 as int) by {
                assert((beforec.arch_at(ai as int).component_insts@[t])@ == pre.arch_at(
                    ai as int,
                ).component_insts@[t]@.remove(r0 as int));
                assert(post.arch_at(ai as int).component_insts@[t] == beforec.arch_at(
                    ai as int,
                ).component_insts@[t]);
            }
            assert((post.arch_at(bi as int).component_insts@[colc as int])@ == pre.arch_at(
                bi as int,
            ).component_insts@[colc as int]@.push(comp_inst));
            assert forall|i: int|
                0 <= i < pre.entity_index@.len() && i != idx implies #[trigger] post.entity_index@[i]
                == crate::entity::fixup_slot(pre.entity_index@[i], ai as int, r0 as int) by {
                assert(mid3.entity_index@[i] == pre.entity_index@[i]);
            }
            assert(post.entity_index@[idx as int] == mid3.entity_index@[idx as int]);
            lemma_migrate_add_wf(pre, *self, *ent_id, *comp_id, comp_inst, ai as int, bi as int, r0 as int, colc as int);
        }
        Ok(())
    }

    /// Removes component `comp_id` from entity `ent_id` and returns the
    /// removed instance, migrating the entity's remaining data into the
    /// archetype carrying its old component set minus `comp_id` and
    /// compacting the vacated row.
    ///
    /// Time complexity: O(columns of the old archetype + entities).
    pub fn remove_component(&mut self, ent_id: &EntityId, comp_id: &ComponentId) -> (r: Result<
        ComponentValue,
        EcsError,
    >)
        requires
            old(self).wf(),
        ensures
            final(self).wf(),
            match r {
                Ok(out) => old(self).valid_eid(*ent_id) && old(self).comps_of(*ent_id).contains(
                    *comp_id,
                ) && old(self).get_spec(*ent_id, *comp_id) == Some(out) && Ecs::remove_effect(
                    *old(self),
                    *final(self),
                    *ent_id,
                    *comp_id,
                ),
                Err(err) => *final(self) == *old(self) && (if !old(self).valid_eid(*ent_id) {
                    err == EcsError::UnknownEntity
                } else {
                    err == EcsError::ComponentNotPresent && !old(self).comps_of(*ent_id).contains(
                        *comp_id,
                    )
                }),
            },
    {
        let idx = ent_id.get_index() as usize;
        if idx >= self.entity_index.len() {
            return Err(EcsError::UnknownEntity);
        }
        let slot = self.entity_index[idx];
        if slot.generation != ent_id.get_gener() {
            return Err(EcsError::UnknownEntity);
        }
        let rec = match slot.record {
            Some(rec) => rec,
            None => {
                return Err(EcsError::UnknownEntity);
            },
        };
        let ai = rec.archetype.0;
        let r0 = rec.row;
        proof {
            assert(self.slot_ok(idx as int));
            assert(self.arch_at(ai as int).graph_wf(ai as int, self.n_comps()));
        }
        if comp_id.0 >= self.component_index.len() {
            proof {
                if self.comps_of(*ent_id).contains(*comp_id) {
                    lemma_member_small(
                        self.arch_at(ai as int).component_ids@,
                        self.component_index.len(),
                        *comp_id,
                    );
                }
            }
            return Err(EcsError::ComponentNotPresent);
        }
        proof {
            assert(self.col_ok(comp_id.0 as int, ai as int));
        }
        let colca = match self.component_index[comp_id.0][ai] {
            Some(ca) => ca,
            None => {
                return Err(EcsError::ComponentNotPresent);
            },
        };
        proof {
            assert(self.arch_at(ai as int).component_ids@.contains(
                self.arch_at(ai as int).component_ids@[colca as int],
            ));
            assert(self.edge_ok(ai as int, comp_id.0 as int));
            assert(self.arch_at(ai as int).cols_wf());
        }
        let bi = self.archetype_index[ai].get_rem(comp_id).0;
        proof {
            assert(!self.arch_at(bi as int).comp_set().contains(*comp_id));
            assert(bi != ai);
        }
        let out = self.archetype_index[ai].component_insts[colca][r0];
        let new_row = self.archetype_index[bi].rows;
        let ghost pre = *self;
        proof {
            crate::entity::lemma_count_present(pre.entity_index@, idx as int, ai as int);
            crate::entity::lemma_count_missing(pre.entity_index@, idx as int, bi as int);
        }

        // Move every kept column value from the vacated row of the source
        // into a fresh row of the destination; the removed component's value
        // is compacted away with its row.
        let acount = self.archetype_index[ai].component_ids.len();
        let mut j: usize = 0;
        while j < acount
            invariant
                j <= acount,
                pre.wf(),
                ai < pre.n_archs(),
                bi < pre.n_archs(),
                ai != bi,
                acount == pre.arch_at(ai as int).component_ids@.len(),
                r0 < pre.arch_at(ai as int).rows,
                pre.arch_at(bi as int).comp_set() == pre.arch_at(ai as int).comp_set().remove(
                    ComponentId(comp_id.0),
                ),
                comp_id.0 < pre.n_comps(),
                self.entity_index == pre.entity_index,
                self.component_index == pre.component_index,
                self.archetype_index@.len() == pre.n_archs(),
                forall|x: int|
                    0 <= x < pre.n_archs() && x != ai && x != bi ==> #[trigger] self.arch_at(x)
                        == pre.arch_at(x),
                self.arch_at(ai as int).id == pre.arch_at(ai as int).id,
                self.arch_at(ai as int).component_ids == pre.arch_at(ai as int).component_ids,
                self.arch_at(ai as int).edges == pre.arch_at(ai as int).edges,
                self.arch_at(ai as int).rows == pre.arch_at(ai as int).rows,
                self.arch_at(ai as int).component_insts@.len() == acount,
                forall|t: int|
                    0 <= t < j ==> (#[trigger] self.arch_at(ai as int).component_insts@[t])@
                        == pre.arch_at(ai as int).component_insts@[t]@.remove(r0 as int),
                forall|t: int|
                    j <= t < acount ==> #[trigger] self.arch_at(ai as int).component_insts@[t]
                        == pre.arch_at(ai as int).component_insts@[t],
                self.arch_at(bi as int).id == pre.arch_at(bi as int).id,
                self.arch_at(bi as int).component_ids == pre.arch_at(bi as int).component_ids,
                self.arch_at(bi as int).edges == pre.arch_at(bi as int).edges,
                self.arch_at(bi as int).rows == pre.arch_at(bi as int).rows,
                self.arch_at(bi as int).component_insts@.len() == pre.arch_at(
                    bi as int,
                ).component_insts@.len(),
                forall|cb: int|
                    0 <= cb < pre.arch_at(bi as int).component_ids@.len()
                        ==> #[trigger] migrated_col(
                        pre,
                        *self,
                        ai as int,
                        bi as int,
                        r0 as int,
                        j as int,
                        cb,
                    ),
            decreases acount - j,
        {
            let d = self.archetype_index[ai].component_ids[j];
            proof {
                assert(pre.arch_at(ai as int).graph_wf(ai as int, pre.n_comps()));
                assert(pre.col_ok(d.0 as int, ai as int));
                assert(pre.arch_at(ai as int).component_ids@.contains(d));
                let t0 = pre.component_index@[d.0 as int]@[ai as int].unwrap();
                assert(pre.arch_at(ai as int).component_ids@[t0 as int] == d);
                assert(pre.arch_at(ai as int).ids_distinct());
                assert(t0 == j);
                assert(pre.col_ok(d.0 as int, bi as int));
            }
            let ghost before = *self;
            proof {
                assert(pre.arch_at(bi as int).cols_wf());
                assert(pre.arch_at(ai as int).cols_wf());
            }
            let v = self.archetype_index[ai].component_insts[j].remove(r0);
            let ghost mid = *self;
            match self.component_index[d.0][bi] {
                Some(colb) => {
                    proof {
                        assert(migrated_col(
                            pre,
                            before,
                            ai as int,
                            bi as int,
                            r0 as int,
                            j as int,
                            colb as int,
                        ));
                        assert(pre.arch_at(bi as int).component_ids@[colb as int] == d);
                    }
                    self.archetype_index[bi].component_insts[colb].push(v);
                    proof {
                        assert forall|cb: int|
                            0 <= cb < pre.arch_at(bi as int).component_ids@.len()
                                implies #[trigger] migrated_col(
                            pre,
                            *self,
                            ai as int,
                            bi as int,
                            r0 as int,
                            j + 1 as int,
                            cb,
                        ) by {
                            assert(migrated_col(
                                pre,
                                before,
                                ai as int,
                                bi as int,
                                r0 as int,
                                j as int,
                                cb,
                            ));
                            let dbc = pre.arch_at(bi as int).component_ids@[cb];
                            if cb != colb {
                                assert(self.arch_at(bi as int).component_insts@[cb]
                                    == before.arch_at(bi as int).component_insts@[cb]);
                                if pre.component_index@[dbc.0 as int]@[ai as int] is Some {
                                    let t = pre.component_index@[dbc.0 as int]@[ai as int].unwrap();
                                    assert(pre.col_ok(dbc.0 as int, ai as int));
                                    assert(pre.arch_at(ai as int).component_ids@[t as int] == dbc);
                                    assert(pre.arch_at(bi as int).ids_distinct());
                                    if t == j {
                                        assert(dbc == d);
                                        assert(cb == colb);
                                    }
                                }
                            } else {
                                assert(v == pre.arch_at(ai as int).component_insts@[j as int]@[r0 as int]);
                            }
                        }
                    }
                },
                None => {
                    proof {
                        assert(pre.col_ok(d.0 as int, bi as int));
                        assert(!pre.arch_at(bi as int).comp_set().contains(d));
                        assert forall|cb: int|
                            0 <= cb < pre.arch_at(bi as int).component_ids@.len()
                                implies #[trigger] migrated_col(
                            pre,
                            *self,
                            ai as int,
                            bi as int,
                            r0 as int,
                            j + 1 as int,
                            cb,
                        ) by {
                            assert(migrated_col(
                                pre,
                                before,
                                ai as int,
                                bi as int,
                                r0 as int,
                                j as int,
                                cb,
                            ));
                            assert(self.arch_at(bi as int).component_insts@[cb] == before.arch_at(
                                bi as int,
                            ).component_insts@[cb]);
                            let dbc = pre.arch_at(bi as int).component_ids@[cb];
                            if pre.component_index@[dbc.0 as int]@[ai as int] is Some {
                                let t = pre.component_index@[dbc.0 as int]@[ai as int].unwrap();
                                assert(pre.col_ok(dbc.0 as int, ai as int));
                                assert(pre.arch_at(ai as int).component_ids@[t as int] == dbc);
                                if t == j {
                                    assert(dbc == d);
                                    assert(pre.arch_at(bi as int).component_ids@.contains(d));
                                    assert(pre.arch_at(bi as int).comp_set().contains(d));
                                    assert(false);
                                }
                            }
                        }
                    }
                },
            }
            proof {
                assert forall|x: int|
                    0 <= x < pre.n_archs() && x != ai && x != bi implies #[trigger] self.arch_at(x)
                    == pre.arch_at(x) by {
                    assert(before.arch_at(x) == pre.arch_at(x));
                    assert(mid.arch_at(x) == before.arch_at(x));
                    assert(self.arch_at(x) == mid.arch_at(x));
                }
            }
            j += 1;
        }

        // Lengths: the destination gained a row, the source lost one.
        let ghost beforec = *self;
        let br = self.archetype_index[bi].rows;
        self.archetype_index[bi].rows = br + 1;
        let ar = self.archetype_index[ai].rows;
        self.archetype_index[ai].rows = ar - 1;

        // Move the entity's record, then compact the vacated row out of every
        // other record of the source archetype.
        let gener = ent_id.get_gener();
        self.entity_index.set(
            idx,
            EntitySlot {
                generation: gener,
                record: Some(EntityRecord { archetype: ArchetypeId(bi), row: new_row }),
            },
        );
        let ghost mid3 = *self;
        self.fixup_rows(ai, r0);
        proof {
            let post = *self;
            let nb = pre.arch_at(bi as int).component_ids@.len() as int;
            assert forall|x: int|
                0 <= x < pre.n_archs() && x != ai && x != bi implies #[trigger] post.arch_at(x)
                == pre.arch_at(x) by {
                assert(beforec.arch_at(x) == pre.arch_at(x));
            }
            assert forall|cb: int|
                0 <= cb < nb implies #[trigger] migrated_col(
                pre,
                post,
                ai as int,
                bi as int,
                r0 as int,
                acount as int,
                cb,
            ) by {
                assert(migrated_col(pre, beforec, ai as int, bi as int, r0 as int, acount as int, cb));
                assert(post.arch_at(bi as int).component_insts@[cb] == beforec.arch_at(
                    bi as int,
                ).component_insts@[cb]);
            }
            assert forall|t: int|
                0 <= t < acount implies (#[trigger] post.arch_at(ai as int).component_insts@[t])@
                == pre.arch_at(ai as int).component_insts@[t]@.remove(r0 as int) by {
                assert((beforec.arch_at(ai as int).component_insts@[t])@ == pre.arch_at(
                    ai as int,
                ).component_insts@[t]@.remove(r0 as int));
                assert(post.arch_at(ai as int).component_insts@[t] == beforec.arch_at(
                    ai as int,
                ).component_insts@[t]);
            }
            assert forall|i: int|
                0 <= i < pre.entity_index@.len() && i != idx implies #[trigger] post.entity_index@[i]
                == crate::entity::fixup_slot(pre.entity_index@[i], ai as int, r0 as int) by {
                assert(mid3.entity_index@[i] == pre.entity_index@[i]);
            }
            assert(post.entity_index@[idx as int] == mid3.entity_index@[idx as int]);
            lemma_migrate_remove_wf(pre, *self, *ent_id, *comp_id, out, ai as int, bi as int, r0 as int);
        }
        Ok(out)
    }

    /// Destroys entity `ent_id`: compacts its row out of its archetype,
    /// frees its slot, and increments the slot's generation, so that every
    /// id minted for the destroyed entity is rejected from then on, even
    /// after the slot is reused.
    pub fn destroy_entity(&mut self, ent_id: &EntityId) -> (r: Result<(), EcsError>)
        requires
            old(self).wf(),
        ensures
            final(self).wf(),
            match r {
                Ok(()) => old(self).valid_eid(*ent_id) && {
                    &&& final(self).entity_index@.len() == old(self).entity_index@.len()
                    &&& final(self).n_archs() == old(self).n_archs()
                    &&& final(self).n_comps() == old(self).n_comps()
                    &&& !final(self).valid_eid(*ent_id)
                    &&& final(self).entity_index@[ent_id.index_spec() as int].record is None
                    &&& final(self).entity_index@[ent_id.index_spec() as int].generation
                        == crate::entity::next_generation(
                        old(self).entity_index@[ent_id.index_spec() as int].generation,
                    )
                    &&& forall|e2: EntityId|
                        e2.index_spec() == ent_id.index_spec() ==> !final(self).valid_eid(e2)
                    &&& forall|e2: EntityId|
                        e2.index_spec() != ent_id.index_spec() ==> (final(self).valid_eid(e2)
                            <==> old(self).valid_eid(e2))
                    &&& forall|e2: EntityId|
                        #[trigger] old(self).valid_eid(e2) && e2.index_spec()
                            != ent_id.index_spec() ==> final(self).comps_of(e2) == old(
                            self,
                        ).comps_of(e2) && final(self).rec_of(e2) == fixed_rec(
                            old(self).rec_of(e2),
                            old(self).rec_of(*ent_id),
                        )
                    &&& forall|e2: EntityId, c2: ComponentId|
                        old(self).valid_eid(e2) && e2.index_spec() != ent_id.index_spec()
                            ==> final(self).get_spec(e2, c2) == old(self).get_spec(e2, c2)
                },
                Err(err) => err == EcsError::UnknownEntity && !old(self).valid_eid(*ent_id)
                    && *final(self) == *old(self),
            },
    {
        let idx = ent_id.get_index() as usize;
        if idx >= self.entity_index.len() {
            return Err(EcsError::UnknownEntity);
        }
        let slot = self.entity_index[idx];
        if slot.generation != ent_id.get_gener() {
            return Err(EcsError::UnknownEntity);
        }
        let rec = match slot.record {
            Some(rec) => rec,
            None => {
                return Err(EcsError::UnknownEntity);
            },
        };
        let ai = rec.archetype.0;
        let r0 = rec.row;
        proof {
            assert(self.slot_ok(idx as int));
            assert(self.arch_at(ai as int).cols_wf());
        }
        let ghost pre = *self;
        proof {
            crate::entity::lemma_count_present(pre.entity_index@, idx as int, ai as int);
        }

        // Compact the vacated row out of every column of the archetype.
        let acount = self.archetype_index[ai].component_insts.len();
        let mut j: usize = 0;
        while j < acount
            invariant
                j <= acount,
                pre.wf(),
                ai < pre.n_archs(),
                acount == pre.arch_at(ai as int).component_insts@.len(),
                r0 < pre.arch_at(ai as int).rows,
                self.entity_index == pre.entity_index,
                self.component_index == pre.component_index,
                self.archetype_index@.len() == pre.n_archs(),
                forall|x: int|
                    0 <= x < pre.n_archs() && x != ai ==> #[trigger] self.arch_at(x) == pre.arch_at(
                        x,
                    ),
                self.arch_at(ai as int).id == pre.arch_at(ai as int).id,
                self.arch_at(ai as int).component_ids == pre.arch_at(ai as int).component_ids,
                self.arch_at(ai as int).edges == pre.arch_at(ai as int).edges,
                self.arch_at(ai as int).rows == pre.arch_at(ai as int).rows,
                self.arch_at(ai as int).component_insts@.len() == acount,
                forall|t: int|
                    0 <= t < j ==> (#[trigger] self.arch_at(ai as int).component_insts@[t])@
                        == pre.arch_at(ai as int).component_insts@[t]@.remove(r0 as int),
                forall|t: int|
                    j <= t < acount ==> #[trigger] self.arch_at(ai as int).component_insts@[t]
                        == pre.arch_at(ai as int).component_insts@[t],
            decreases acount - j,
        {
            proof {
                assert(pre.arch_at(ai as int).cols_wf());
            }
            let ghost before = *self;
            let _ = self.archetype_index[ai].component_insts[j].remove(r0);
            proof {
                assert forall|x: int|
                    0 <= x < pre.n_archs() && x != ai implies #[trigger] self.arch_at(x)
                    == pre.arch_at(x) by {
                    assert(before.arch_at(x) == pre.arch_at(x));
                    assert(self.arch_at(x) == before.arch_at(x));
                }
            }
            j += 1;
        }

        let ghost beforer = *self;
        let ar = self.archetype_index[ai].rows;
        self.archetype_index[ai].rows = ar - 1;

        // Free the slot and retire every id minted for this lifetime of it.
        let gener = ent_id.get_gener();
        let next = if gener == 0xffff {
            0
        } else {
            gener + 1
        };
        self.entity_index.set(idx, EntitySlot { generation: next, record: None });
        let ghost mid3 = *self;
        self.fixup_rows(ai, r0);
        proof {
            let post = *self;
            assert forall|x: int|
                0 <= x < pre.n_archs() && x != ai implies #[trigger] post.arch_at(x) == pre.arch_at(
                x,
            ) by {
                assert(beforer.arch_at(x) == pre.arch_at(x));
            }
            assert forall|t: int|
                0 <= t < acount implies (#[trigger] post.arch_at(ai as int).component_insts@[t])@
                == pre.arch_at(ai as int).component_insts@[t]@.remove(r0 as int) by {
                assert((beforer.arch_at(ai as int).component_insts@[t])@ == pre.arch_at(
                    ai as int,
                ).component_insts@[t]@.remove(r0 as int));
                assert(post.arch_at(ai as int).component_insts@[t] == beforer.arch_at(
                    ai as int,
                ).component_insts@[t]);
            }
            assert forall|i: int|
                0 <= i < pre.entity_index@.len() && i != idx implies #[trigger] post.entity_index@[i]
                == crate::entity::fixup_slot(pre.entity_index@[i], ai as int, r0 as int) by {
                assert(mid3.entity_index@[i] == pre.entity_index@[i]);
            }
            assert(post.entity_index@[idx as int] == mid3.entity_index@[idx as int]);
            lemma_destroy_wf(pre, *self, *ent_id, ai as int, r0 as int);
        }
        Ok(())
    }
}

} // verus!
