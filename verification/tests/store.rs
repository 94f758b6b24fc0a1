use prophet_ecs::archetype::ArchetypeId;
use prophet_ecs::component::{ComponentId, ComponentValue, EcsError};
use prophet_ecs::entity::EntityId;
use prophet_ecs::Ecs;

fn cv(x: u64, y: u64) -> ComponentValue {
    ComponentValue { x, y }
}

#[test]
fn entity_id_packing() {
    let e = EntityId::new(5, 7, 3);
    assert_eq!(e.get_index(), 5);
    assert_eq!(e.get_gener(), 7);
    assert_eq!(e.get_flags(), 3);
    let e = EntityId::new(0xABCD_1234, 0xBEEF, 0xFF);
    assert_eq!(e.get_index(), 0xABCD_1234);
    assert_eq!(e.get_gener(), 0xBEEF);
    assert_eq!(e.get_flags(), 0xFF);
    assert_eq!(e.0, 0xFF_BEEF_ABCD_1234u64);
}

#[test]
fn new_store_holds_only_the_empty_archetype() {
    let ecs = Ecs::new();
    assert_eq!(ecs.archetype_index.len(), 1);
    assert_eq!(ecs.archetype_index[0].id, ArchetypeId(0));
    assert!(ecs.archetype_index[0].component_ids.is_empty());
    assert!(ecs.component_index.is_empty());
    assert!(ecs.entity_index.is_empty());
}

#[test]
fn registration_hands_out_sequential_ids_and_doubles_the_graph() {
    let mut ecs = Ecs::new();
    let c0 = ecs.new_component();
    assert_eq!(c0, ComponentId(0));
    assert_eq!(ecs.archetype_index.len(), 2);
    let c1 = ecs.new_component();
    assert_eq!(c1, ComponentId(1));
    assert_eq!(ecs.archetype_index.len(), 4);
    assert_eq!(ecs.component_index.len(), 2);
}

#[test]
fn scenario_position_velocity() {
    let mut ecs = Ecs::new();
    let position = ecs.new_component();
    let velocity = ecs.new_component();
    let e = ecs.create_entity();

    assert_eq!(ecs.add_component(&e, &position, cv(0, 0)), Ok(()));
    assert_eq!(ecs.get_component(&e, &position), Ok(Some(cv(0, 0))));
    assert_eq!(ecs.get_component(&e, &velocity), Ok(None));

    assert_eq!(ecs.add_component(&e, &velocity, cv(1, 1)), Ok(()));
    assert_eq!(ecs.get_component(&e, &position), Ok(Some(cv(0, 0))));
    assert_eq!(ecs.get_component(&e, &velocity), Ok(Some(cv(1, 1))));
    let arch = &ecs.archetype_index[ecs.get_record(&e).archetype.0];
    let mut ids = arch.component_ids.clone();
    ids.sort();
    assert_eq!(ids, vec![position, velocity]);

    assert_eq!(ecs.remove_component(&e, &position), Ok(cv(0, 0)));
    assert_eq!(ecs.get_component(&e, &position), Ok(None));
    assert_eq!(ecs.get_component(&e, &velocity), Ok(Some(cv(1, 1))));
    let arch = &ecs.archetype_index[ecs.get_record(&e).archetype.0];
    assert_eq!(arch.component_ids, vec![velocity]);
}

#[test]
fn migration_round_trip_keeps_values_and_component_set() {
    let mut ecs = Ecs::new();
    let position = ecs.new_component();
    let velocity = ecs.new_component();
    let e = ecs.create_entity();
    ecs.add_component(&e, &position, cv(4, 2)).unwrap();
    let arch_before = ecs.get_record(&e).archetype;

    ecs.add_component(&e, &velocity, cv(9, 9)).unwrap();
    ecs.remove_component(&e, &velocity).unwrap();

    assert_eq!(ecs.get_component(&e, &position), Ok(Some(cv(4, 2))));
    assert_eq!(ecs.get_component(&e, &velocity), Ok(None));
    assert_eq!(ecs.get_record(&e).archetype, arch_before);
}

#[test]
fn index_fixup_under_removal() {
    let mut ecs = Ecs::new();
    let position = ecs.new_component();
    let e1 = ecs.create_entity();
    let e2 = ecs.create_entity();
    let e3 = ecs.create_entity();
    ecs.add_component(&e1, &position, cv(1, 0)).unwrap();
    ecs.add_component(&e2, &position, cv(2, 0)).unwrap();
    ecs.add_component(&e3, &position, cv(3, 0)).unwrap();
    assert_eq!(ecs.get_record(&e1).row, 0);
    assert_eq!(ecs.get_record(&e2).row, 1);
    assert_eq!(ecs.get_record(&e3).row, 2);

    ecs.remove_component(&e1, &position).unwrap();
    assert_eq!(ecs.get_record(&e2).row, 0);
    assert_eq!(ecs.get_record(&e3).row, 1);
    assert_eq!(ecs.get_component(&e2, &position), Ok(Some(cv(2, 0))));
    assert_eq!(ecs.get_component(&e3, &position), Ok(Some(cv(3, 0))));
}

#[test]
fn density_and_row_validity_invariants() {
    let mut ecs = Ecs::new();
    let a = ecs.new_component();
    let b = ecs.new_component();
    let e1 = ecs.create_entity();
    let e2 = ecs.create_entity();
    let e3 = ecs.create_entity();
    ecs.add_component(&e1, &a, cv(1, 1)).unwrap();
    ecs.add_component(&e2, &a, cv(2, 2)).unwrap();
    ecs.add_component(&e2, &b, cv(3, 3)).unwrap();
    ecs.destroy_entity(&e3).unwrap();

    for arch in &ecs.archetype_index {
        for col in &arch.component_insts {
            assert_eq!(col.len(), arch.rows);
        }
        let pointing = ecs
            .entity_index
            .iter()
            .filter(|s| s.record.map(|r| r.archetype == arch.id).unwrap_or(false))
            .count();
        assert_eq!(arch.rows, pointing);
    }
    for slot in &ecs.entity_index {
        if let Some(rec) = slot.record {
            assert!(rec.row < ecs.archetype_index[rec.archetype.0].rows);
        }
    }
}

#[test]
fn archetype_component_sets_are_unique() {
    let mut ecs = Ecs::new();
    ecs.new_component();
    ecs.new_component();
    ecs.new_component();
    let mut sets: Vec<Vec<ComponentId>> = ecs
        .archetype_index
        .iter()
        .map(|a| {
            let mut ids = a.component_ids.clone();
            ids.sort();
            ids
        })
        .collect();
    assert_eq!(sets.len(), 8);
    sets.sort();
    sets.dedup();
    assert_eq!(sets.len(), 8);
}

#[test]
fn edge_symmetry() {
    let mut ecs = Ecs::new();
    ecs.new_component();
    ecs.new_component();
    for arch in &ecs.archetype_index {
        for c in 0..ecs.component_index.len() {
            let cid = ComponentId(c);
            if !arch.component_ids.contains(&cid) {
                let b = arch.edges[c].add;
                assert_eq!(ecs.archetype_index[b.0].edges[c].rem, arch.id);
            }
        }
    }
}

#[test]
fn stale_id_rejected_even_after_slot_reuse() {
    let mut ecs = Ecs::new();
    let position = ecs.new_component();
    let e = ecs.create_entity();
    ecs.add_component(&e, &position, cv(1, 2)).unwrap();
    ecs.destroy_entity(&e).unwrap();

    assert_eq!(ecs.get_component(&e, &position), Err(EcsError::UnknownEntity));
    assert_eq!(ecs.has_component(&e, &position), Err(EcsError::UnknownEntity));
    assert_eq!(ecs.add_component(&e, &position, cv(0, 0)), Err(EcsError::UnknownEntity));
    assert_eq!(ecs.remove_component(&e, &position), Err(EcsError::UnknownEntity));
    assert_eq!(ecs.destroy_entity(&e), Err(EcsError::UnknownEntity));

    // The freed slot is recycled with a fresh generation.
    let e2 = ecs.create_entity();
    assert_eq!(e2.get_index(), e.get_index());
    assert_eq!(e2.get_gener(), e.get_gener() + 1);
    assert_eq!(ecs.get_component(&e, &position), Err(EcsError::UnknownEntity));
    assert_eq!(ecs.get_component(&e2, &position), Ok(None));
}

#[test]
fn error_conditions() {
    let mut ecs = Ecs::new();
    let position = ecs.new_component();
    let e = ecs.create_entity();

    // unknown component id
    assert_eq!(ecs.add_component(&e, &ComponentId(9), cv(0, 0)), Err(EcsError::UnknownComponent));
    // component already present
    ecs.add_component(&e, &position, cv(0, 0)).unwrap();
    assert_eq!(
        ecs.add_component(&e, &position, cv(1, 1)),
        Err(EcsError::ComponentAlreadyPresent)
    );
    // component not present
    let e2 = ecs.create_entity();
    assert_eq!(ecs.remove_component(&e2, &position), Err(EcsError::ComponentNotPresent));
    assert_eq!(ecs.remove_component(&e2, &ComponentId(9)), Err(EcsError::ComponentNotPresent));
    // unknown entity on a fabricated id
    let ghost_id = EntityId::new(40, 0, 0);
    assert_eq!(ecs.get_component(&ghost_id, &position), Err(EcsError::UnknownEntity));
}

#[test]
fn has_component_reports_membership() {
    let mut ecs = Ecs::new();
    let position = ecs.new_component();
    let velocity = ecs.new_component();
    let e = ecs.create_entity();
    assert_eq!(ecs.has_component(&e, &position), Ok(false));
    ecs.add_component(&e, &position, cv(1, 1)).unwrap();
    assert_eq!(ecs.has_component(&e, &position), Ok(true));
    assert_eq!(ecs.has_component(&e, &velocity), Ok(false));
    assert_eq!(ecs.has_component(&e, &ComponentId(9)), Ok(false));
}

#[test]
fn records_can_be_read_and_replaced() {
    let mut ecs = Ecs::new();
    let e1 = ecs.create_entity();
    let e2 = ecs.create_entity();
    assert_eq!(ecs.get_record(&e1).row, 0);
    assert_eq!(ecs.get_record(&e2).row, 1);
    assert_eq!(ecs.get_record(&e1).archetype, ArchetypeId(0));

    let rec = *ecs.get_record(&e1);
    let stored = ecs.replace_record(e1, rec);
    assert_eq!(stored, rec);
    assert_eq!(*ecs.get_record(&e1), rec);

    let borrowed = ecs.get_record_mut(&e2);
    assert_eq!(borrowed.row, 1);
}

#[test]
fn values_survive_registration_of_later_components() {
    let mut ecs = Ecs::new();
    let a = ecs.new_component();
    let e = ecs.create_entity();
    ecs.add_component(&e, &a, cv(7, 8)).unwrap();
    let b = ecs.new_component();
    assert_eq!(ecs.get_component(&e, &a), Ok(Some(cv(7, 8))));
    assert_eq!(ecs.get_component(&e, &b), Ok(None));
    ecs.add_component(&e, &b, cv(9, 10)).unwrap();
    assert_eq!(ecs.get_component(&e, &a), Ok(Some(cv(7, 8))));
    assert_eq!(ecs.get_component(&e, &b), Ok(Some(cv(9, 10))));
}
