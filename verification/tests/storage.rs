use tiny_ecs::component::{Position, Velocity};
use tiny_ecs::entity::Entity;
use tiny_ecs::storage::Storage;
use tiny_ecs::systems::join;

fn e(id: u64) -> Entity {
    Entity::from_id(id)
}

#[test]
fn new_storage_is_empty() {
    let s: Storage<Position> = Storage::new();
    assert_eq!(s.len(), 0);
    assert!(s.is_empty());
    assert!(s.get(e(0)).is_none());
    assert!(!s.contains(e(0)));
    assert!(s.iter().is_empty());
    assert!(s.entities().is_empty());
}

#[test]
fn set_inserts_and_get_finds() {
    let mut s: Storage<Position> = Storage::new();
    s.set(e(3), Position::new(1, 2));
    s.set(e(1), Position::new(5, 6));
    assert_eq!(s.len(), 2);
    assert!(!s.is_empty());
    assert_eq!(s.get(e(3)), Some(&Position::new(1, 2)));
    assert_eq!(s.get(e(1)), Some(&Position::new(5, 6)));
    assert_eq!(s.get(e(2)), None);
    assert!(s.contains(e(3)));
    assert!(!s.contains(e(2)));
}

#[test]
fn set_replaces_and_keeps_the_place() {
    let mut s: Storage<Position> = Storage::new();
    s.set(e(3), Position::new(1, 2));
    s.set(e(1), Position::new(5, 6));
    s.set(e(3), Position::new(9, 9));
    assert_eq!(s.len(), 2);
    assert_eq!(s.get(e(3)), Some(&Position::new(9, 9)));
    assert_eq!(s.entities(), vec![e(3), e(1)]);
    assert_eq!(s.index_of(e(3)), Some(0));
    assert_eq!(s.index_of(e(1)), Some(1));
    assert_eq!(s.index_of(e(7)), None);
}

#[test]
fn remove_deletes_and_returns_the_value() {
    let mut s: Storage<Position> = Storage::new();
    s.set(e(1), Position::new(1, 1));
    s.set(e(2), Position::new(2, 2));
    s.set(e(3), Position::new(3, 3));
    assert_eq!(s.remove(e(2)), Some(Position::new(2, 2)));
    assert_eq!(s.len(), 2);
    assert_eq!(s.get(e(2)), None);
    assert_eq!(s.entities(), vec![e(1), e(3)]);
    assert_eq!(s.get(e(1)), Some(&Position::new(1, 1)));
    assert_eq!(s.get(e(3)), Some(&Position::new(3, 3)));
}

#[test]
fn remove_of_a_missing_entity_is_a_no_op() {
    let mut s: Storage<Position> = Storage::new();
    s.set(e(1), Position::new(1, 1));
    assert_eq!(s.remove(e(9)), None);
    assert_eq!(s.len(), 1);
    assert_eq!(s.get(e(1)), Some(&Position::new(1, 1)));
    assert_eq!(s.remove(e(1)), Some(Position::new(1, 1)));
    assert_eq!(s.remove(e(1)), None);
    assert!(s.is_empty());
}

#[test]
fn iter_yields_every_entry_and_is_restartable() {
    let mut s: Storage<Velocity> = Storage::new();
    s.set(e(4), Velocity::new(1, 0));
    s.set(e(2), Velocity::new(0, 1));
    let first: Vec<(Entity, Velocity)> = s.iter().into_iter().map(|(k, v)| (k, *v)).collect();
    assert_eq!(first, vec![(e(4), Velocity::new(1, 0)), (e(2), Velocity::new(0, 1))]);
    let again: Vec<(Entity, Velocity)> = s.iter().into_iter().map(|(k, v)| (k, *v)).collect();
    assert_eq!(first, again);
    s.set(e(7), Velocity::new(3, 3));
    assert_eq!(s.iter().len(), 3);
    assert_eq!(s.entity_at(2), e(7));
    assert_eq!(s.value_at(2), &Velocity::new(3, 3));
}

#[test]
fn set_at_replaces_by_index() {
    let mut s: Storage<Position> = Storage::new();
    s.set(e(1), Position::new(1, 1));
    s.set(e(2), Position::new(2, 2));
    s.set_at(1, Position::new(8, 8));
    assert_eq!(s.get(e(2)), Some(&Position::new(8, 8)));
    assert_eq!(s.get(e(1)), Some(&Position::new(1, 1)));
    assert_eq!(s.entities(), vec![e(1), e(2)]);
}

#[test]
fn join_yields_the_entities_in_both_storages() {
    let mut p: Storage<Position> = Storage::new();
    let mut v: Storage<Velocity> = Storage::new();
    p.set(e(1), Position::new(0, 0));
    p.set(e(2), Position::new(0, 0));
    p.set(e(3), Position::new(0, 0));
    v.set(e(3), Velocity::new(1, 1));
    v.set(e(4), Velocity::new(1, 1));
    v.set(e(1), Velocity::new(1, 1));
    assert_eq!(join(&p, &v), vec![e(1), e(3)]);
    assert_eq!(join(&v, &p), vec![e(3), e(1)]);
    assert_eq!(join(&p, &v).len(), 2);
}

#[test]
fn join_with_an_empty_storage_is_empty() {
    let mut p: Storage<Position> = Storage::new();
    let v: Storage<Velocity> = Storage::new();
    p.set(e(1), Position::new(0, 0));
    assert!(join(&p, &v).is_empty());
    assert!(join(&v, &p).is_empty());
    assert_eq!(join(&p, &p), vec![e(1)]);
}
