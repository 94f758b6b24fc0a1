//! Entity identifiers, entity records, and the slot table they live in.

use vstd::prelude::*;

use crate::archetype::ArchetypeId;

verus! {

/// A unique identifier for each different entity.
///
/// Bit structure of the packed 64-bit value:
/// bits 0..32 hold the slot index into the entity index,
/// bits 32..48 hold the generation that distinguishes reuses of the slot,
/// bits 48..56 hold flag bits reserved for the caller.
#[derive(PartialEq, Eq, Structural, Hash, Clone, Copy, Debug)]
pub struct EntityId(pub u64);

impl EntityId {
    /// The slot index packed into the low 32 bits.
    pub open spec fn index_spec(self) -> u32 {
        (self.0 & 0xffff_ffff) as u32
    }

    /// The generation packed into bits 32..48.
    pub open spec fn gener_spec(self) -> u16 {
        ((self.0 >> 32) & 0xffff) as u16
    }

    /// The caller-defined flag bits packed into bits 48..56.
    pub open spec fn flags_spec(self) -> u8 {
        ((self.0 >> 48) & 0xff) as u8
    }

    /// Packs a slot index, a generation and flag bits into one id.
    ///
    /// The packed word is pinned exactly: identity, equality and hashing are
    /// over the full 64 bits, so ids built from equal parts are equal, and
    /// bits 56..64 are zero.
    pub fn new(index: u32, gener: u16, flags: u8) -> (r: Self)
        ensures
            r.0 == (index as u64) | ((gener as u64) << 32u64) | ((flags as u64) << 48u64),
            r.index_spec() == index,
            r.gener_spec() == gener,
            r.flags_spec() == flags,
    {
        let v: u64 = (index as u64) | ((gener as u64) << 32u64) | ((flags as u64) << 48u64);
        proof {
            assert((v & 0xffff_ffff) as u32 == index && ((v >> 32) & 0xffff) as u16 == gener
                && ((v >> 48) & 0xff) as u8 == flags) by (bit_vector)
                requires
                    v == (index as u64) | ((gener as u64) << 32u64) | ((flags as u64) << 48u64),
            ;
        }
        EntityId(v)
    }

    /// The slot index of this id.
    pub fn get_index(&self) -> (r: u32)
        ensures
            r == self.index_spec(),
    {
        proof {
            let v = self.0;
            assert(v as u32 == (v & 0xffff_ffff) as u32) by (bit_vector);
        }
        #[verifier::truncate] (self.0 as u32)
    }

    /// The generation of this id.
    pub fn get_gener(&self) -> (r: u16)
        ensures
            r == self.gener_spec(),
    {
        proof {
            let v = self.0;
            assert((v >> 32) as u16 == ((v >> 32) & 0xffff) as u16) by (bit_vector);
        }
        #[verifier::truncate] ((self.0 >> 32) as u16)
    }

    /// The flag bits of this id.
    pub fn get_flags(&self) -> (r: u8)
        ensures
            r == self.flags_spec(),
    {
        proof {
            let v = self.0;
            assert((v >> 48) as u8 == ((v >> 48) & 0xff) as u8) by (bit_vector);
        }
        #[verifier::truncate] ((self.0 >> 48) as u8)
    }
}

/// Points to an entity's archetype and its row within that archetype's columns.
#[derive(PartialEq, Eq, Structural, Clone, Copy, Debug)]
pub struct EntityRecord {
    pub archetype: ArchetypeId,
    pub row: usize,
}

/// One slot of the entity index.
///
/// A slot is live while `record` is `Some`. Destroying the entity clears the
/// record and increments the stored generation, so every id minted for the
/// earlier lifetime of the slot is rejected afterwards.
#[derive(Clone, Copy, Debug)]
pub struct EntitySlot {
    pub generation: u16,
    pub record: Option<EntityRecord>,
}

/// What becomes of one slot when row `r` of archetype `a` is compacted away:
/// a live slot in `a` whose row lies past `r` slides down by one, every other
/// slot is untouched.
pub open spec fn fixup_slot(s: EntitySlot, a: int, r: int) -> EntitySlot {
    match s.record {
        Some(rec) => if rec.archetype.0 == a && rec.row > r {
            EntitySlot {
                generation: s.generation,
                record: Some(EntityRecord { archetype: rec.archetype, row: (rec.row - 1) as usize }),
            }
        } else {
            s
        },
        None => s,
    }
}

/// The generation a slot carries after the entity living in it is destroyed:
/// one higher, wrapping at the top of the 16-bit range.
pub open spec fn next_generation(g: u16) -> u16 {
    if g == 0xffff {
        0
    } else {
        (g + 1) as u16
    }
}

/// 1 when the slot is live and its record points at archetype `a`, else 0.
pub open spec fn points_at(s: EntitySlot, a: int) -> nat {
    if s.record is Some && s.record.unwrap().archetype.0 == a {
        1
    } else {
        0
    }
}

/// How many live slots of `slots` point at archetype `a`.
pub open spec fn count_at(slots: Seq<EntitySlot>, a: int) -> nat
    decreases slots.len(),
{
    if slots.len() == 0 {
        0
    } else {
        count_at(slots.drop_last(), a) + points_at(slots.last(), a)
    }
}

/// Appending a slot adds that slot's contribution to every archetype's count.
pub proof fn lemma_count_push(slots: Seq<EntitySlot>, s: EntitySlot, a: int)
    ensures
        count_at(slots.push(s), a) == count_at(slots, a) + points_at(s, a),
{
    assert(slots.push(s).drop_last() =~= slots);
}

/// Overwriting one slot changes each count by the difference of contributions.
pub proof fn lemma_count_update(slots: Seq<EntitySlot>, i: int, s: EntitySlot, a: int)
    requires
        0 <= i < slots.len(),
    ensures
        count_at(slots.update(i, s), a) + points_at(slots[i], a) == count_at(slots, a)
            + points_at(s, a),
    decreases slots.len(),
{
    let upd = slots.update(i, s);
    if i == slots.len() - 1 {
        assert(upd.drop_last() =~= slots.drop_last());
    } else {
        assert(upd.drop_last() =~= slots.drop_last().update(i, s));
        assert(upd.last() == slots.last());
        lemma_count_update(slots.drop_last(), i, s, a);
    }
}

/// Two slot tables whose slots point the same way have the same counts.
pub proof fn lemma_count_pointwise(s1: Seq<EntitySlot>, s2: Seq<EntitySlot>, a: int)
    requires
        s1.len() == s2.len(),
        forall|i: int| 0 <= i < s1.len() ==> points_at(#[trigger] s1[i], a) == points_at(s2[i], a),
    ensures
        count_at(s1, a) == count_at(s2, a),
    decreases s1.len(),
{
    if s1.len() > 0 {
        lemma_count_pointwise(s1.drop_last(), s2.drop_last(), a);
    }
}

/// A slot pointing at `a` makes the count for `a` at least one.
pub proof fn lemma_count_present(slots: Seq<EntitySlot>, i: int, a: int)
    requires
        0 <= i < slots.len(),
        points_at(slots[i], a) == 1,
    ensures
        count_at(slots, a) >= 1,
    decreases slots.len(),
{
    if i < slots.len() - 1 {
        lemma_count_present(slots.drop_last(), i, a);
    }
}

/// A slot not pointing at `a` keeps the count for `a` below the slot total.
pub proof fn lemma_count_missing(slots: Seq<EntitySlot>, i: int, a: int)
    requires
        0 <= i < slots.len(),
        points_at(slots[i], a) == 0,
    ensures
        count_at(slots, a) <= slots.len() - 1,
    decreases slots.len(),
{
    if i < slots.len() - 1 {
        lemma_count_missing(slots.drop_last(), i, a);
        lemma_count_le_len(slots.drop_last(), a);
    } else {
        lemma_count_le_len(slots.drop_last(), a);
    }
}

/// No archetype's count exceeds the number of slots.
pub proof fn lemma_count_le_len(slots: Seq<EntitySlot>, a: int)
    ensures
        count_at(slots, a) <= slots.len(),
    decreases slots.len(),
{
    if slots.len() > 0 {
        lemma_count_le_len(slots.drop_last(), a);
    }
}

/// One slot replaced and every other slot's row fixed up: only the replaced
/// slot's contribution to any archetype's count can change.
pub proof fn lemma_count_after_fixup_update(
    pre: Seq<EntitySlot>,
    post: Seq<EntitySlot>,
    idx: int,
    ns: EntitySlot,
    a: int,
    r: int,
    x: int,
)
    requires
        0 <= idx < pre.len(),
        post.len() == pre.len(),
        forall|i: int| 0 <= i < pre.len() && i != idx ==> post[i] == fixup_slot(pre[i], a, r),
        post[idx] == ns,
    ensures
        count_at(post, x) + points_at(pre[idx], x) == count_at(pre, x) + points_at(ns, x),
{
    let mid = pre.update(idx, ns);
    lemma_count_update(pre, idx, ns, x);
    assert forall|i: int| 0 <= i < mid.len() implies points_at(#[trigger] mid[i], x) == points_at(
        post[i],
        x,
    ) by {
        if i != idx {
            assert(post[i] == fixup_slot(pre[i], a, r));
        }
    }
    lemma_count_pointwise(mid, post, x);
}

/// A table with no slot pointing at `a` counts zero for `a`.
pub proof fn lemma_count_zero(slots: Seq<EntitySlot>, a: int)
    requires
        forall|i: int| 0 <= i < slots.len() ==> points_at(#[trigger] slots[i], a) == 0,
    ensures
        count_at(slots, a) == 0,
    decreases slots.len(),
{
    if slots.len() > 0 {
        lemma_count_zero(slots.drop_last(), a);
    }
}

} // verus!
