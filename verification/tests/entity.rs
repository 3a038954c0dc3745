use rgine::entity::{Entities, Entity};

fn exhaust_generation(entities: &mut Entities, index: u32) {
    entities.exhaust_generation(index);
}

#[test]
fn fresh_indices_are_handed_out_in_order() {
    let mut entities = Entities::default();

    let handles: Vec<Entity> = (0..3).map(|_| entities.allocate()).collect();

    assert_eq!(
        handles
            .iter()
            .map(|entity| (entity.index(), entity.generation()))
            .collect::<Vec<_>>(),
        vec![(0, 1), (1, 1), (2, 1)]
    );
}

#[test]
fn a_freed_index_is_reused_by_the_next_spawn() {
    let mut entities = Entities::default();
    let first = entities.allocate();

    assert!(entities.free(first));
    let second = entities.allocate();

    assert_eq!(second.index(), first.index());
    assert_eq!(second.generation(), first.generation() + 1);
    assert_eq!(entities.len(), 1);
}

#[test]
fn reuse_order_is_last_freed_first() {
    let mut entities = Entities::default();
    let a = entities.allocate();
    let b = entities.allocate();
    let c = entities.allocate();

    entities.free(a);
    entities.free(b);
    entities.free(c);

    assert_eq!(
        [
            entities.allocate().index(),
            entities.allocate().index(),
            entities.allocate().index()
        ],
        [c.index(), b.index(), a.index()]
    );
}

#[test]
fn a_stale_handle_resolves_to_nothing_and_frees_nothing() {
    let mut entities = Entities::default();
    let stale = entities.allocate();
    entities.free(stale);
    let current = entities.allocate();

    assert!(!entities.contains(stale));
    assert!(!entities.free(stale));
    assert!(entities.contains(current));
    assert_eq!(entities.len(), 1);
}

#[test]
fn a_handle_from_another_table_resolves_to_nothing() {
    let mut entities = Entities::default();
    let mut other = Entities::default();
    let foreign = other.allocate();

    assert!(!entities.contains(foreign));
    assert!(!entities.free(foreign));
}

#[test]
fn a_slot_at_the_last_generation_is_retired_rather_than_reused() {
    let mut entities = Entities::default();
    let doomed = entities.allocate();
    let kept = entities.allocate();
    exhaust_generation(&mut entities, doomed.index());

    // The old handle is stale now: the generation moved under it.
    assert!(!entities.free(doomed));
    let doomed = Entity::from_raw_parts(doomed.index(), u32::MAX).unwrap();
    assert!(entities.free(doomed));

    let next = entities.allocate();
    assert_ne!(next.index(), doomed.index());
    assert_ne!(next.index(), kept.index());
    assert!(!entities.contains(doomed));
}

#[test]
fn retiring_a_slot_does_not_disturb_the_free_list() {
    let mut entities = Entities::default();
    let retired = entities.allocate();
    let recycled = entities.allocate();

    entities.free(recycled);
    exhaust_generation(&mut entities, retired.index());
    let retired = Entity::from_raw_parts(retired.index(), u32::MAX).unwrap();
    entities.free(retired);

    assert_eq!(entities.allocate().index(), recycled.index());
    assert_eq!(entities.allocate().index(), 2);
}

// Tests of the laws and edge cases on concrete values.

#[test]
fn an_allocated_handle_is_live_and_was_not_before() {
    let mut entities = Entities::new();
    let probe = Entity::from_raw_parts(0, 1).unwrap();
    assert!(!entities.contains(probe));
    let e = entities.allocate();
    assert_eq!(e, probe);
    assert!(entities.contains(e));
    assert_eq!(entities.len(), 1);
    assert!(e.generation() >= 1);
}

#[test]
fn freeing_reports_whether_the_handle_was_live() {
    let mut entities = Entities::new();
    let e = entities.allocate();
    assert!(entities.free(e));
    assert_eq!(entities.len(), 0);
    assert!(!entities.contains(e));
    assert!(!entities.free(e));
    assert_eq!(entities.len(), 0);
}

#[test]
fn a_stale_handle_stays_stale_across_many_reuses() {
    let mut entities = Entities::new();
    let first = entities.allocate();
    entities.free(first);
    for _ in 0..10 {
        let e = entities.allocate();
        assert_eq!(e.index(), first.index());
        assert!(!entities.contains(first));
        entities.free(e);
    }
    assert!(!entities.contains(first));
    assert_eq!(entities.allocate().generation(), 12);
}

#[test]
fn a_retired_slot_is_never_handed_out_again() {
    let mut entities = Entities::new();
    let e = entities.allocate();
    entities.exhaust_generation(e.index());
    let e = Entity::from_raw_parts(e.index(), u32::MAX).unwrap();
    assert!(entities.free(e));
    for expected in 1..6u32 {
        assert_eq!(entities.allocate().index(), expected);
    }
}

#[test]
fn exhausting_a_free_slot_keeps_it_free_at_the_last_generation() {
    let mut entities = Entities::new();
    let e = entities.allocate();
    entities.free(e);
    entities.exhaust_generation(e.index());
    let again = entities.allocate();
    assert_eq!(again.index(), e.index());
    assert_eq!(again.generation(), u32::MAX);
}

#[test]
fn generation_zero_is_not_a_handle() {
    assert!(Entity::from_raw_parts(3, 0).is_none());
    let e = Entity::from_raw_parts(3, 7).unwrap();
    assert_eq!((e.index(), e.generation()), (3, 7));
}

#[test]
fn a_handle_prints_as_one_token() {
    let e = Entity::from_raw_parts(0, 1).unwrap();
    assert_eq!(e.to_string(), "0v1");
    let e = Entity::from_raw_parts(4_000_000_000, 1234567890).unwrap();
    assert_eq!(e.to_string(), "4000000000v1234567890");
}
