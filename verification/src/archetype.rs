//! Archetypes: the unit of columnar storage, plus their cached transition edges.

use vstd::prelude::*;

use crate::component::{ComponentId, ComponentValue};

verus! {

/// An identifier of an archetype.
///
/// Archetype ids are handed out sequentially when an archetype is first
/// created, so the inner value doubles as the archetype's index in the
/// transition graph's arena. Every part of the store refers to archetypes by
/// this id and looks the archetype up in the arena on each access.
#[derive(PartialEq, Eq, Structural, Hash, Clone, Copy, Debug)]
pub struct ArchetypeId(pub usize);

/// Points to an archetype's column.
pub type ArchetypeColumn = usize;

/// The pair of cached transition targets for one component id `C` on one
/// archetype `A`: `add` is the archetype whose component set is `A`'s set
/// with `C` inserted, `rem` the one with `C` removed (`rem` is `A` itself
/// when `A` does not carry `C`, `add` is `A` itself when it does).
#[derive(PartialEq, Eq, Structural, Clone, Copy, Debug)]
pub struct ArchetypeEdge {
    pub add: ArchetypeId,
    pub rem: ArchetypeId,
}

/// A type of entity: the set of entities sharing one exact component set,
/// together with the columnar storage for their component instances.
pub struct Archetype {
    /// A unique identifier, equal to this archetype's index in the arena.
    pub id: ArchetypeId,
    /// The component ids this archetype carries, in column order. The order
    /// is fixed for the archetype's lifetime and defines column positions.
    pub component_ids: Vec<ComponentId>,
    /// One column per entry of `component_ids`; row `i` of every column
    /// belongs to the same entity.
    pub component_insts: Vec<Vec<ComponentValue>>,
    /// Cached transition targets, indexed by component id; one entry per
    /// registered component.
    pub edges: Vec<ArchetypeEdge>,
    /// The number of rows, equal to the length of every column and to the
    /// number of live entities recorded against this archetype.
    pub rows: usize,
}

impl Archetype {
    /// The component set of this archetype.
    pub open spec fn comp_set(self) -> Set<ComponentId> {
        self.component_ids@.to_set()
    }

    /// The columns match the component list and all have length `rows`.
    pub open spec fn cols_wf(self) -> bool {
        &&& self.component_insts@.len() == self.component_ids@.len()
        &&& forall|j: int|
            0 <= j < self.component_insts@.len() ==> (#[trigger] self.component_insts@[j])@.len()
                == self.rows
    }

    /// No component id occurs in two columns.
    pub open spec fn ids_distinct(self) -> bool {
        forall|j1: int, j2: int|
            0 <= j1 < j2 < self.component_ids@.len() ==> self.component_ids@[j1]
                != self.component_ids@[j2]
    }

    /// The graph-facing shape of one archetype standing at arena index `me`
    /// of a store that has registered `n_comps` components: everything but
    /// the columns, which change as entities come and go.
    pub open spec fn graph_wf(self, me: int, n_comps: int) -> bool {
        &&& self.id.0 == me
        &&& self.ids_distinct()
        &&& forall|j: int|
            0 <= j < self.component_ids@.len() ==> (#[trigger] self.component_ids@[j]).0 < n_comps
        &&& self.edges@.len() == n_comps
    }

    /// The cached archetype reached from here by adding `component`.
    pub fn get_add(&self, component: &ComponentId) -> (r: ArchetypeId)
        requires
            component.0 < self.edges@.len(),
        ensures
            r == self.edges@[component.0 as int].add,
    {
        self.edges[component.0].add
    }

    /// The cached archetype reached from here by removing `component`.
    pub fn get_rem(&self, component: &ComponentId) -> (r: ArchetypeId)
        requires
            component.0 < self.edges@.len(),
        ensures
            r == self.edges@[component.0 as int].rem,
    {
        self.edges[component.0].rem
    }
}

} // verus!
