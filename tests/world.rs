use ecs_world::component_set::ComponentSet;
use ecs_world::world::{BorrowError, World};

#[derive(Debug, Clone, PartialEq)]
enum Comp {
    Health(i32),
    Name(String),
    Speed(u32),
}

const HEALTH: u64 = 0;
const NAME: u64 = 1;
const SPEED: u64 = 2;

fn ryo_world() -> World<Comp> {
    let mut w: World<Comp> = World::new();
    let e0 = w.new_entity();
    w.add_component_to_entity(e0, HEALTH, Comp::Health(100));
    w.add_component_to_entity(e0, NAME, Comp::Name("Ryo".to_string()));
    let e1 = w.new_entity();
    w.add_component_to_entity(e1, HEALTH, Comp::Health(50));
    assert_eq!((e0, e1), (0, 1));
    w
}

#[test]
fn end_to_end_health_and_name() {
    let mut w = ryo_world();
    assert_eq!(w.join(&vec![HEALTH, NAME]), Ok(vec![0]));
    let health = w.borrow_component_vec(HEALTH).unwrap();
    assert_eq!(health.get(0), Some(&Comp::Health(100)));
    let names = w.borrow_component_vec(NAME).unwrap();
    assert_eq!(names.get(0), Some(&Comp::Name("Ryo".to_string())));

    assert_eq!(w.join(&vec![HEALTH]), Ok(vec![0, 1]));
    let health = w.borrow_component_vec(HEALTH).unwrap();
    assert_eq!(health.get(0), Some(&Comp::Health(100)));
    assert_eq!(health.get(1), Some(&Comp::Health(50)));
}

#[test]
fn empty_world_has_no_storage() {
    let mut w: World<Comp> = World::new();
    assert_eq!(w.entities_count(), 0);
    assert!(w.borrow_component_vec(HEALTH).is_none());
}

#[test]
fn absent_until_first_attach() {
    let mut w: World<Comp> = World::new();
    let e0 = w.new_entity();
    w.new_entity();
    assert!(w.borrow_component_vec(SPEED).is_none());
    w.add_component_to_entity(e0, HEALTH, Comp::Health(1));
    assert!(w.borrow_component_vec(SPEED).is_none());
    let h = w.borrow_component_vec(HEALTH).unwrap();
    assert_eq!(h.component_kind(), HEALTH);
    assert_eq!(h.len(), 2);
}

#[test]
fn new_storage_has_empty_slots_for_existing_entities() {
    let mut w: World<Comp> = World::new();
    for _ in 0..3 {
        w.new_entity();
    }
    w.add_component_to_entity(2, SPEED, Comp::Speed(7));
    let s = w.borrow_component_vec(SPEED).unwrap();
    assert_eq!(s.len(), 3);
    assert!(!s.has(0));
    assert!(!s.has(1));
    assert_eq!(s.get(2), Some(&Comp::Speed(7)));
    assert_eq!(s.get(3), None);
}

#[test]
fn new_entity_extends_every_storage() {
    let mut w: World<Comp> = World::new();
    let e0 = w.new_entity();
    w.add_component_to_entity(e0, HEALTH, Comp::Health(10));
    w.add_component_to_entity(e0, NAME, Comp::Name("a".to_string()));
    let e1 = w.new_entity();
    assert_eq!(e1, 1);
    assert_eq!(w.entities_count(), 2);
    let h = w.borrow_component_vec(HEALTH).unwrap();
    assert_eq!(h.len(), 2);
    assert!(!h.has(1));
    let n = w.borrow_component_vec(NAME).unwrap();
    assert_eq!(n.len(), 2);
    assert!(!n.has(1));
}

#[test]
fn reattach_replaces_value() {
    let mut w: World<Comp> = World::new();
    let e0 = w.new_entity();
    w.add_component_to_entity(e0, HEALTH, Comp::Health(100));
    w.add_component_to_entity(e0, HEALTH, Comp::Health(7));
    let h = w.borrow_component_vec(HEALTH).unwrap();
    assert_eq!(h.len(), 1);
    assert_eq!(h.get(0), Some(&Comp::Health(7)));
}

#[test]
fn query_naming_a_storage_twice_is_refused() {
    let mut w = ryo_world();
    assert_eq!(
        w.join(&vec![HEALTH, NAME, HEALTH]),
        Err(BorrowError::AlreadyBorrowed)
    );
    let h = w.borrow_component_vec(HEALTH).unwrap();
    assert_eq!(h.get(0), Some(&Comp::Health(100)));
    assert_eq!(h.get(1), Some(&Comp::Health(50)));
}

fn health_of(w: &mut World<Comp>, entity: usize) -> Option<i32> {
    let view = w.borrow_component_vec(HEALTH)?;
    if !view.has(entity) {
        return None;
    }
    match view.get(entity) {
        Some(Comp::Health(h)) => Some(*h),
        _ => None,
    }
}

#[test]
fn view_is_released_when_its_scope_ends() {
    let mut w = ryo_world();
    assert_eq!(health_of(&mut w, 5), None);
    w.add_component_to_entity(1, HEALTH, Comp::Health(51));
    assert_eq!(health_of(&mut w, 1), Some(51));
    {
        let view = w.borrow_component_vec(HEALTH).unwrap();
        assert_eq!(view.len(), 2);
    }
    let again = w.borrow_component_vec(HEALTH).unwrap();
    assert_eq!(again.get(1), Some(&Comp::Health(51)));
}

#[test]
fn entities_created_after_a_view_are_aligned() {
    let mut w: World<Comp> = World::new();
    let e0 = w.new_entity();
    w.add_component_to_entity(e0, HEALTH, Comp::Health(9));
    assert_eq!(w.borrow_component_vec(HEALTH).unwrap().len(), 1);
    let e1 = w.new_entity();
    let e2 = w.new_entity();
    assert_eq!((e1, e2), (1, 2));
    w.add_component_to_entity(e2, HEALTH, Comp::Health(30));
    let h = w.borrow_component_vec(HEALTH).unwrap();
    assert_eq!(h.len(), 3);
    assert_eq!(h.get(0), Some(&Comp::Health(9)));
    assert!(!h.has(1));
    assert_eq!(h.get(2), Some(&Comp::Health(30)));
}

#[test]
fn join_three_storages() {
    let mut w: World<Comp> = World::new();
    for _ in 0..5 {
        w.new_entity();
    }
    for e in [0usize, 1, 3, 4] {
        w.add_component_to_entity(e, HEALTH, Comp::Health(e as i32));
    }
    for e in [1usize, 2, 3, 4] {
        w.add_component_to_entity(e, NAME, Comp::Name(format!("n{}", e)));
    }
    for e in [0usize, 1, 4] {
        w.add_component_to_entity(e, SPEED, Comp::Speed(e as u32));
    }
    assert_eq!(w.join(&vec![HEALTH, NAME, SPEED]), Ok(vec![1, 4]));
    assert_eq!(w.join(&vec![SPEED, HEALTH]), Ok(vec![0, 1, 4]));
    assert_eq!(w.join(&vec![NAME]), Ok(vec![1, 2, 3, 4]));
}

#[test]
fn join_of_no_kinds_is_empty() {
    let w = ryo_world();
    assert_eq!(w.join(&Vec::new()), Ok(Vec::<usize>::new()));
}

#[test]
fn join_with_unregistered_kind_is_empty() {
    let w = ryo_world();
    assert_eq!(w.join(&vec![HEALTH, SPEED]), Ok(Vec::<usize>::new()));
}

#[test]
fn join_without_matches_is_empty() {
    let mut w: World<Comp> = World::new();
    w.new_entity();
    w.new_entity();
    w.add_component_to_entity(0, HEALTH, Comp::Health(1));
    w.add_component_to_entity(1, NAME, Comp::Name("b".to_string()));
    assert_eq!(w.join(&vec![HEALTH, NAME]), Ok(Vec::<usize>::new()));
}

#[test]
fn join_rows_can_be_updated_in_place() {
    let mut w: World<Comp> = World::new();
    for _ in 0..3 {
        w.new_entity();
    }
    for e in [0usize, 2] {
        w.add_component_to_entity(e, HEALTH, Comp::Health(100));
        w.add_component_to_entity(e, SPEED, Comp::Speed(2));
    }
    w.add_component_to_entity(1, HEALTH, Comp::Health(100));
    for e in w.join(&vec![HEALTH, SPEED]).unwrap() {
        let h = match w.borrow_component_vec(HEALTH).unwrap().get(e) {
            Some(Comp::Health(h)) => *h,
            _ => unreachable!(),
        };
        w.add_component_to_entity(e, HEALTH, Comp::Health(h - 10));
    }
    let h = w.borrow_component_vec(HEALTH).unwrap();
    assert_eq!(h.get(0), Some(&Comp::Health(90)));
    assert_eq!(h.get(1), Some(&Comp::Health(100)));
    assert_eq!(h.get(2), Some(&Comp::Health(90)));
}
