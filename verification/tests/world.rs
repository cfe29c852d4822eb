use ecs_world::bundle::Bundle;
use ecs_world::column_batch::{BatchIncomplete, ColumnBatch};
use ecs_world::entities::{Entity, NoSuchEntity};
use ecs_world::error::{ComponentError, MissingComponent};
use ecs_world::types::TypeInfo;
use ecs_world::world::World;

#[derive(Debug, Clone, PartialEq)]
enum Value {
    Int(i32),
    Flag(bool),
    Text(&'static str),
}

const INT: TypeInfo = TypeInfo { id: 30, name: "i32" };
const FLAG: TypeInfo = TypeInfo { id: 10, name: "bool" };
const TEXT: TypeInfo = TypeInfo { id: 20, name: "&str" };

fn info(value: &Value) -> TypeInfo {
    match value {
        Value::Int(_) => INT,
        Value::Flag(_) => FLAG,
        Value::Text(_) => TEXT,
    }
}

fn bundle(values: Vec<Value>) -> Bundle<Value> {
    let mut bundle = Bundle::new();
    for value in values {
        bundle.add(info(&value), value);
    }
    bundle
}

fn num(i: i32) -> Value {
    Value::Int(i)
}

fn flag(b: bool) -> Value {
    Value::Flag(b)
}

fn text(s: &'static str) -> Value {
    Value::Text(s)
}

fn handles(world: &World<Value>) -> Vec<Entity> {
    let mut found = Vec::new();
    let mut iter = world.iter();
    while let Some((entity, _)) = iter.next() {
        found.push(entity);
    }
    found
}

fn types(world: &World<Value>) -> Vec<Vec<u64>> {
    world.archetypes().iter().map(|a| a.types().to_vec()).collect()
}

#[test]
fn reuse_empty() {
    let mut world: World<Value> = World::new();
    let a = world.spawn(bundle(vec![]));
    world.despawn(a).unwrap();
    let b = world.spawn(bundle(vec![]));
    assert_eq!(a.id, b.id);
    assert_ne!(a.generation, b.generation);
}

#[test]
fn spawn_at() {
    let mut world: World<Value> = World::new();
    let a = world.spawn(bundle(vec![]));
    world.despawn(a).unwrap();
    let b = world.spawn(bundle(vec![]));
    assert!(world.contains(b));
    assert_eq!(a.id, b.id);
    assert_ne!(a.generation, b.generation);
    world.spawn_at(a, bundle(vec![]));
    assert!(!world.contains(b));
    assert_eq!(b.id, a.id);
    assert_ne!(b.generation, a.generation);
}

#[test]
fn reuse_populated() {
    let mut world = World::new();
    let a = world.spawn(bundle(vec![num(42)]));
    assert_eq!(*world.get(a, INT).unwrap(), num(42));
    world.despawn(a).unwrap();
    let b = world.spawn(bundle(vec![flag(true)]));
    assert_eq!(a.id, b.id);
    assert_ne!(a.generation, b.generation);
    assert!(world.get(b, INT).is_err());
    assert_eq!(*world.get(b, FLAG).unwrap(), flag(true));
}

#[test]
fn remove_nothing() {
    let mut world = World::new();
    let a = world.spawn(bundle(vec![text("abc"), num(123)]));
    world.remove(a, &[]).unwrap();
    assert_eq!(*world.get(a, INT).unwrap(), num(123));
    assert_eq!(*world.get(a, TEXT).unwrap(), text("abc"));
}

#[test]
fn new_world_is_empty() {
    let world: World<Value> = World::new();
    assert_eq!(world.len(), 0);
    assert!(world.is_empty());
    assert_eq!(world.room(), u32::MAX);
    assert_eq!(types(&world), vec![Vec::<u64>::new()]);
    let other: World<Value> = World::default();
    assert_eq!(other.len(), 0);
    assert_eq!(types(&other), vec![Vec::<u64>::new()]);
}

#[test]
fn spawn_gives_ids_in_order() {
    let mut world = World::new();
    for i in 0..5 {
        let e = world.spawn(bundle(vec![num(i)]));
        assert_eq!(e, Entity { generation: 0, id: i as u32 });
        assert_eq!(e.id(), i as u32);
    }
    assert_eq!(world.len(), 5);
    assert!(!world.is_empty());
    assert_eq!(world.room(), u32::MAX - 5);
    assert_eq!(types(&world), vec![vec![], vec![30]]);
}

#[test]
fn freed_ids_are_reused_last_first() {
    let mut world = World::new();
    let list: Vec<Entity> = (0..4).map(|i| world.spawn(bundle(vec![num(i)]))).collect();
    world.despawn(list[1]).unwrap();
    world.despawn(list[3]).unwrap();
    assert_eq!(world.spawn(bundle(vec![])), Entity { generation: 1, id: 3 });
    assert_eq!(world.spawn(bundle(vec![])), Entity { generation: 1, id: 1 });
    assert_eq!(world.spawn(bundle(vec![])), Entity { generation: 0, id: 4 });
    assert!(!world.contains(list[1]));
    assert!(!world.contains(list[3]));
}

#[test]
fn despawn_moves_the_last_row() {
    let mut world = World::new();
    let list: Vec<Entity> = (0..4).map(|i| world.spawn(bundle(vec![num(i), flag(i % 2 == 0)]))).collect();
    world.despawn(list[0]).unwrap();
    assert_eq!(handles(&world), vec![list[3], list[1], list[2]]);
    for i in 1..4 {
        assert_eq!(*world.get(list[i as usize], INT).unwrap(), num(i));
        assert_eq!(*world.get(list[i as usize], FLAG).unwrap(), flag(i % 2 == 0));
    }
    assert_eq!(world.despawn(list[0]), Err(NoSuchEntity));
    assert_eq!(world.len(), 3);
}

#[test]
fn spawn_at_revives_a_handle() {
    let mut world = World::new();
    let a = world.spawn(bundle(vec![num(123), text("abc")]));
    let b = world.spawn(bundle(vec![num(456), flag(true)]));
    world.despawn(a).unwrap();
    assert!(!world.contains(a));
    world.spawn_at(a, bundle(vec![num(789), text("ABC")]));
    assert!(world.contains(a));
    assert_eq!(*world.get(a, INT).unwrap(), num(789));
    assert_eq!(*world.get(a, TEXT).unwrap(), text("ABC"));
    assert_eq!(*world.get(b, INT).unwrap(), num(456));
    assert_eq!(world.len(), 2);
}

#[test]
fn spawn_at_replaces_a_live_entity() {
    let mut world = World::new();
    let a = world.spawn(bundle(vec![num(1)]));
    let b = world.spawn(bundle(vec![num(2)]));
    let again = Entity { generation: 7, id: a.id };
    world.spawn_at(again, bundle(vec![flag(true)]));
    assert!(!world.contains(a));
    assert!(world.contains(again));
    assert!(world.get(again, INT).is_err());
    assert_eq!(*world.get(b, INT).unwrap(), num(2));
    world.spawn_at(again, bundle(vec![num(3)]));
    assert_eq!(*world.get(again, INT).unwrap(), num(3));
    assert!(world.get(again, FLAG).is_err());
    assert_eq!(world.len(), 2);
}

#[test]
fn spawn_at_beyond_the_end_frees_the_ids_between() {
    let mut world = World::new();
    world.spawn_at(Entity { generation: 3, id: 2 }, bundle(vec![num(5)]));
    assert_eq!(world.len(), 1);
    assert!(!world.contains(Entity { generation: 0, id: 0 }));
    assert_eq!(world.spawn(bundle(vec![])), Entity { generation: 0, id: 1 });
    assert_eq!(world.spawn(bundle(vec![])), Entity { generation: 0, id: 0 });
    assert_eq!(world.spawn(bundle(vec![])), Entity { generation: 0, id: 3 });
}

#[test]
fn generation_wraps_around() {
    let mut world: World<Value> = World::new();
    let e = Entity { generation: u32::MAX, id: 0 };
    world.spawn_at(e, bundle(vec![]));
    world.despawn(e).unwrap();
    assert_eq!(world.spawn(bundle(vec![])), Entity { generation: 0, id: 0 });
}

#[test]
fn insert_adds_and_replaces() {
    let mut world = World::new();
    let e = world.spawn(bundle(vec![num(123), text("abc")]));
    let f = world.spawn(bundle(vec![num(7), text("def")]));
    world.insert(e, bundle(vec![num(456), flag(true)])).unwrap();
    assert_eq!(*world.get(e, INT).unwrap(), num(456));
    assert_eq!(*world.get(e, FLAG).unwrap(), flag(true));
    assert_eq!(*world.get(e, TEXT).unwrap(), text("abc"));
    assert_eq!(*world.get(f, INT).unwrap(), num(7));
    assert_eq!(types(&world), vec![vec![], vec![20, 30], vec![10, 20, 30]]);
    world.insert(e, bundle(vec![num(1), text("x")])).unwrap();
    assert_eq!(*world.get(e, INT).unwrap(), num(1));
    assert_eq!(*world.get(e, TEXT).unwrap(), text("x"));
    assert_eq!(*world.get(e, FLAG).unwrap(), flag(true));
    assert_eq!(types(&world).len(), 3);
}

#[test]
fn insert_into_a_missing_entity() {
    let mut world = World::new();
    let e = world.spawn(bundle(vec![]));
    world.despawn(e).unwrap();
    assert_eq!(world.insert(e, bundle(vec![num(1)])), Err(NoSuchEntity));
    assert_eq!(world.insert_one(e, INT, num(1)), Err(NoSuchEntity));
    assert_eq!(types(&world).len(), 1);
}

#[test]
fn insert_twice_keeps_the_later() {
    let mut world = World::new();
    let e = world.spawn(bundle(vec![]));
    world.insert(e, bundle(vec![num(1), flag(false)])).unwrap();
    world.insert(e, bundle(vec![num(2), text("t")])).unwrap();
    assert_eq!(*world.get(e, INT).unwrap(), num(2));
    assert_eq!(*world.get(e, FLAG).unwrap(), flag(false));
    assert_eq!(*world.get(e, TEXT).unwrap(), text("t"));
}

#[test]
fn insert_one_and_remove_one() {
    let mut world = World::new();
    let e = world.spawn(bundle(vec![flag(true)]));
    world.insert_one(e, INT, num(9)).unwrap();
    assert_eq!(*world.get(e, INT).unwrap(), num(9));
    assert_eq!(world.remove_one(e, INT), Ok(num(9)));
    assert_eq!(
        world.remove_one(e, INT),
        Err(ComponentError::MissingComponent(MissingComponent("i32")))
    );
    assert_eq!(*world.get(e, FLAG).unwrap(), flag(true));
    world.despawn(e).unwrap();
    assert_eq!(world.remove_one(e, FLAG), Err(ComponentError::NoSuchEntity));
}

#[test]
fn remove_gives_the_components_back_in_order() {
    let mut world = World::new();
    let e = world.spawn(bundle(vec![num(123), text("abc"), flag(true)]));
    let f = world.spawn(bundle(vec![num(4), text("f"), flag(false)]));
    assert_eq!(world.remove(e, &[INT, TEXT]), Ok(vec![num(123), text("abc")]));
    assert!(world.get(e, INT).is_err());
    assert!(world.get(e, TEXT).is_err());
    assert_eq!(*world.get(e, FLAG).unwrap(), flag(true));
    assert_eq!(*world.get(f, INT).unwrap(), num(4));
    assert_eq!(types(&world), vec![vec![], vec![10, 20, 30], vec![10]]);
    assert_eq!(world.remove(e, &[FLAG]), Ok(vec![flag(true)]));
    assert!(world.contains(e));
    assert_eq!(types(&world).len(), 3);
}

#[test]
fn remove_of_a_missing_component_removes_nothing() {
    let mut world = World::new();
    let e = world.spawn(bundle(vec![num(1)]));
    assert_eq!(
        world.remove(e, &[INT, TEXT, FLAG]),
        Err(ComponentError::MissingComponent(MissingComponent("&str")))
    );
    assert_eq!(*world.get(e, INT).unwrap(), num(1));
    let gone = Entity { generation: 1, id: e.id };
    assert_eq!(world.remove(gone, &[INT]), Err(ComponentError::NoSuchEntity));
}

#[test]
fn insert_then_remove_restores() {
    let mut world = World::new();
    let e = world.spawn(bundle(vec![num(1)]));
    world.insert(e, bundle(vec![flag(true), text("x")])).unwrap();
    assert_eq!(world.remove(e, &[TEXT, FLAG]), Ok(vec![text("x"), flag(true)]));
    assert_eq!(*world.get(e, INT).unwrap(), num(1));
    assert!(world.get(e, FLAG).is_err());
    let back = world.remove(e, &[INT]).unwrap();
    world.insert(e, bundle(back)).unwrap();
    assert_eq!(*world.get(e, INT).unwrap(), num(1));
}

#[test]
fn get_errors() {
    let mut world = World::new();
    let e = world.spawn(bundle(vec![num(1)]));
    let empty = world.spawn(bundle(vec![]));
    let reserved = world.reserve_entity();
    let missing = ComponentError::MissingComponent(MissingComponent("bool"));
    assert_eq!(world.get(e, FLAG), Err(missing.clone()));
    assert_eq!(world.get(empty, FLAG), Err(missing.clone()));
    assert_eq!(world.get(reserved, FLAG), Err(missing.clone()));
    assert_eq!(world.get_mut(e, FLAG), Err(missing.clone()));
    assert_eq!(world.get_mut(reserved, FLAG), Err(missing.clone()));
    assert_eq!(world.get_unchecked(e, FLAG), Err(missing.clone()));
    assert_eq!(world.get_unchecked_mut(e, FLAG), Err(missing));
    let gone = Entity { generation: 0, id: 99 };
    assert_eq!(world.get(gone, INT), Err(ComponentError::NoSuchEntity));
    assert_eq!(world.get_mut(gone, INT), Err(ComponentError::NoSuchEntity));
}

#[test]
fn get_mut_writes_one_component() {
    let mut world = World::new();
    let a = world.spawn(bundle(vec![num(1), flag(true)]));
    let b = world.spawn(bundle(vec![num(2), flag(false)]));
    *world.get_mut(b, INT).unwrap() = num(20);
    *world.get_unchecked_mut(a, FLAG).unwrap() = flag(false);
    assert_eq!(*world.get(a, INT).unwrap(), num(1));
    assert_eq!(*world.get_unchecked(a, FLAG).unwrap(), flag(false));
    assert_eq!(*world.get(b, INT).unwrap(), num(20));
    assert_eq!(*world.get(b, FLAG).unwrap(), flag(false));
}

#[test]
fn entity_shows_all_components() {
    let mut world = World::new();
    let a = world.spawn(bundle(vec![num(1), flag(true)]));
    let r = world.reserve_entity();
    let view = world.entity(a).unwrap();
    assert!(view.has(INT));
    assert!(!view.has(TEXT));
    assert_eq!(view.get(FLAG), Some(&flag(true)));
    assert_eq!(view.get(TEXT), None);
    assert!(!world.entity(r).unwrap().has(INT));
    assert!(matches!(world.entity(Entity { generation: 5, id: 0 }), Err(NoSuchEntity)));
}

#[test]
fn find_entity_from_id_gives_the_live_handle() {
    let mut world = World::new();
    let a = world.spawn(bundle(vec![num(1)]));
    world.despawn(a).unwrap();
    let b = world.spawn(bundle(vec![num(2)]));
    assert_eq!(world.find_entity_from_id(a.id), b);
    let r = world.reserve_entity();
    assert_eq!(world.find_entity_from_id(r.id), r);
}

#[test]
fn reserved_entities_appear_with_flush() {
    let mut world = World::new();
    let a = world.spawn(bundle(vec![num(1)]));
    world.despawn(a).unwrap();
    let list = world.reserve_entities(3);
    assert_eq!(
        list,
        vec![
            Entity { generation: 1, id: 0 },
            Entity { generation: 0, id: 1 },
            Entity { generation: 0, id: 2 },
        ]
    );
    assert_eq!(world.len(), 0);
    assert!(handles(&world).is_empty());
    assert!(list.iter().all(|e| world.contains(*e)));
    assert_eq!(world.room(), u32::MAX - 3);
    world.flush();
    assert_eq!(world.len(), 3);
    assert_eq!(handles(&world).len(), 3);
    assert!(list.iter().all(|e| handles(&world).contains(e)));
    world.flush();
    assert_eq!(world.len(), 3);
}

#[test]
fn reserved_entities_can_be_filled_and_despawned() {
    let mut world = World::new();
    let a = world.reserve_entity();
    let b = world.reserve_entity();
    assert_ne!(a, b);
    world.insert(a, bundle(vec![num(1)])).unwrap();
    assert_eq!(*world.get(a, INT).unwrap(), num(1));
    assert_eq!(world.len(), 2);
    let c = world.reserve_entity();
    world.despawn(c).unwrap();
    assert!(!world.contains(c));
    assert_eq!(world.len(), 2);
}

#[test]
fn clear_forgets_entities_and_keeps_archetypes() {
    let mut world = World::new();
    let a = world.spawn(bundle(vec![num(1)]));
    world.reserve_entity();
    let before = world.archetypes_generation();
    world.clear();
    assert_eq!(world.len(), 0);
    assert!(!world.contains(a));
    assert!(handles(&world).is_empty());
    assert_eq!(before, world.archetypes_generation());
    assert_eq!(types(&world), vec![vec![], vec![30]]);
    assert_eq!(world.archetypes()[1].len(), 0);
    assert_eq!(world.spawn(bundle(vec![])), Entity { generation: 0, id: 0 });
}

#[test]
fn generation_follows_the_archetypes() {
    let mut world = World::new();
    let initial = world.archetypes_generation();
    let e = world.spawn(bundle(vec![num(123), text("abc")]));
    let second = world.archetypes_generation();
    assert_ne!(initial, second);
    world.spawn(bundle(vec![num(4), text("def")]));
    assert_eq!(second, world.archetypes_generation());
    world.remove_one(e, INT).unwrap();
    let third = world.archetypes_generation();
    assert_ne!(second, third);
    world.insert_one(e, INT, num(1)).unwrap();
    assert_eq!(third, world.archetypes_generation());
    let mut columns = Bundle::new();
    columns.add(FLAG, vec![flag(true)]);
    world.spawn_column_batch(ColumnBatch::new(1, columns).unwrap());
    assert_ne!(third, world.archetypes_generation());
}

#[test]
fn iteration_yields_each_entity_once() {
    let mut world = World::new();
    let a = world.spawn(bundle(vec![]));
    let b = world.spawn(bundle(vec![num(2)]));
    let c = world.spawn(bundle(vec![]));
    let mut iter = world.iter();
    assert_eq!(iter.len(), 3);
    assert_eq!(iter.size_hint(), (3, Some(3)));
    let mut found = Vec::new();
    while let Some((e, components)) = iter.next() {
        found.push((e, components.get(INT).cloned()));
    }
    assert_eq!(found, vec![(a, None), (c, None), (b, Some(num(2)))]);
    assert!(iter.next().is_none());
}

#[test]
fn spawn_batch_spawns_all() {
    let mut world = World::new();
    let free = world.spawn(bundle(vec![]));
    world.despawn(free).unwrap();
    let list = (0..1000).map(|i| bundle(vec![num(i), text("abc")])).collect();
    let mut iter = world.spawn_batch(&[INT, TEXT], list);
    assert_eq!(iter.len(), 1000);
    assert_eq!(iter.size_hint(), (1000, Some(1000)));
    let mut entities = Vec::new();
    while let Some(e) = iter.next() {
        entities.push(e);
    }
    assert_eq!(iter.len(), 0);
    assert_eq!(entities.len(), 1000);
    assert_eq!(entities[0], Entity { generation: 1, id: 0 });
    assert_eq!(entities[1], Entity { generation: 0, id: 1 });
    for i in 0..1000 {
        assert_eq!(*world.get(entities[i], INT).unwrap(), num(i as i32));
    }
    assert_eq!(world.len(), 1000);
    assert_eq!(types(&world), vec![vec![], vec![20, 30]]);
}

#[test]
fn spawn_batch_of_nothing_makes_the_archetype() {
    let mut world: World<Value> = World::new();
    let mut iter = world.spawn_batch(&[INT], vec![]);
    assert_eq!(iter.next(), None);
    assert_eq!(world.len(), 0);
    assert_eq!(types(&world), vec![vec![], vec![30]]);
}

#[test]
fn spawn_batch_does_what_spawning_does() {
    let make = || (0..5).map(|i| bundle(vec![num(i), flag(i > 2)])).collect::<Vec<_>>();
    let mut a = World::new();
    a.spawn_batch(&[FLAG, INT], make());
    let mut b = World::new();
    b.extend(make());
    assert_eq!(handles(&a), handles(&b));
    assert_eq!(types(&a), types(&b));
    for e in handles(&a) {
        assert_eq!(a.get(e, INT), b.get(e, INT));
        assert_eq!(a.get(e, FLAG), b.get(e, FLAG));
    }
}

#[test]
fn reserve_makes_the_archetype() {
    let mut world: World<Value> = World::new();
    let e = world.reserve_entity();
    world.reserve(&[TEXT, INT], 10);
    assert_eq!(types(&world), vec![vec![], vec![20, 30]]);
    assert_eq!(world.len(), 1);
    assert!(world.contains(e));
}

#[test]
fn extend_and_from_iter() {
    let mut world = World::from_iter(vec![bundle(vec![num(1)]), bundle(vec![flag(true)])]);
    assert_eq!(world.len(), 2);
    let r = world.reserve_entity();
    world.extend(vec![]);
    assert_eq!(world.len(), 2);
    world.extend(vec![bundle(vec![num(3)])]);
    assert_eq!(world.len(), 4);
    assert!(world.contains(r));
    assert_eq!(*world.get(Entity { generation: 0, id: 3 }, INT).unwrap(), num(3));
    assert_eq!(types(&world), vec![vec![], vec![30], vec![10]]);
}

fn columns(ints: Vec<i32>, flags: Vec<bool>) -> Bundle<Vec<Value>> {
    let mut columns = Bundle::new();
    columns.add(INT, ints.into_iter().map(num).collect());
    columns.add(FLAG, flags.into_iter().map(flag).collect());
    columns
}

#[test]
fn column_batch_must_be_complete() {
    assert!(matches!(ColumnBatch::new(2, columns(vec![1, 2], vec![true])), Err(BatchIncomplete)));
    assert!(matches!(ColumnBatch::new(1, columns(vec![1, 2], vec![true, false])), Err(BatchIncomplete)));
    let batch = ColumnBatch::new(2, columns(vec![1, 2], vec![true, false]));
    assert_eq!(batch.map(|b| b.len()), Ok(2));
    let empty: Result<ColumnBatch<Value>, BatchIncomplete> = ColumnBatch::new(3, Bundle::new());
    assert_eq!(empty.map(|b| b.len()), Ok(3));
}

#[test]
fn spawn_column_batch_spawns_rows() {
    let mut world = World::new();
    let old: Vec<Entity> = (0..3).map(|i| world.spawn(bundle(vec![num(i), flag(true)]))).collect();
    world.despawn(old[0]).unwrap();
    world.despawn(old[1]).unwrap();
    let batch = ColumnBatch::new(3, columns(vec![7, 8, 9], vec![true, false, true])).unwrap();
    let mut iter = world.spawn_column_batch(batch);
    assert_eq!(iter.len(), 3);
    assert_eq!(iter.size_hint(), (3, Some(3)));
    let mut entities = Vec::new();
    while let Some(e) = iter.next() {
        entities.push(e);
    }
    assert_eq!(
        entities,
        vec![
            Entity { generation: 1, id: 0 },
            Entity { generation: 1, id: 1 },
            Entity { generation: 0, id: 3 },
        ]
    );
    for (i, e) in entities.iter().enumerate() {
        assert_eq!(*world.get(*e, INT).unwrap(), num(7 + i as i32));
        assert_eq!(*world.get(*e, FLAG).unwrap(), flag(i != 1));
    }
    assert_eq!(*world.get(old[2], INT).unwrap(), num(2));
    assert_eq!(world.len(), 4);
    assert_eq!(types(&world), vec![vec![], vec![10, 30]]);
    world.despawn(entities[0]).unwrap();
    assert_eq!(*world.get(entities[2], INT).unwrap(), num(9));
}

#[test]
fn spawn_column_batch_at_makes_the_handles_live() {
    let mut world = World::new();
    let a = world.spawn(bundle(vec![num(1)]));
    let b = world.spawn(bundle(vec![num(2), flag(true)]));
    let c = world.spawn(bundle(vec![num(3), flag(true)]));
    world.despawn(a).unwrap();
    let r = world.reserve_entity();
    let new_b = Entity { generation: 5, id: b.id };
    let far = Entity { generation: 2, id: 6 };
    let batch = ColumnBatch::new(3, columns(vec![10, 20, 30], vec![false, true, false])).unwrap();
    world.spawn_column_batch_at(&[a, new_b, far], batch);
    assert!(world.contains(a) && world.contains(new_b) && world.contains(far) && world.contains(c));
    assert!(!world.contains(b));
    assert!(!world.contains(r));
    assert_eq!(*world.get(a, INT).unwrap(), num(10));
    assert_eq!(*world.get(new_b, INT).unwrap(), num(20));
    assert_eq!(*world.get(far, INT).unwrap(), num(30));
    assert_eq!(*world.get(far, FLAG).unwrap(), flag(false));
    assert_eq!(*world.get(c, INT).unwrap(), num(3));
    assert_eq!(world.len(), 4);
    assert_eq!(handles(&world).len(), 4);
    world.despawn(new_b).unwrap();
    assert_eq!(*world.get(far, INT).unwrap(), num(30));
}

#[test]
fn spawn_column_batch_at_does_what_spawn_at_does() {
    let list = [
        Entity { generation: 1, id: 4 },
        Entity { generation: 0, id: 0 },
        Entity { generation: 9, id: 2 },
    ];
    let mut a = World::new();
    let mut b = World::new();
    for world in [&mut a, &mut b] {
        world.spawn(bundle(vec![num(0)]));
        world.spawn(bundle(vec![text("kept")]));
    }
    let batch = ColumnBatch::new(3, columns(vec![1, 2, 3], vec![true, false, true])).unwrap();
    a.spawn_column_batch_at(&list, batch);
    for (i, e) in list.iter().enumerate() {
        b.spawn_at(*e, bundle(vec![num(1 + i as i32), flag(i != 1)]));
    }
    assert_eq!(a.len(), b.len());
    for e in handles(&a) {
        assert_eq!(a.get(e, INT), b.get(e, INT));
        assert_eq!(a.get(e, FLAG), b.get(e, FLAG));
        assert_eq!(a.get(e, TEXT), b.get(e, TEXT));
    }
    assert_eq!(a.spawn(bundle(vec![])), b.spawn(bundle(vec![])));
}

#[test]
fn bundle_keeps_the_last_of_a_type() {
    let mut world = World::new();
    let e = world.spawn(bundle(vec![num(1), flag(true), num(2)]));
    assert_eq!(*world.get(e, INT).unwrap(), num(2));
    assert_eq!(types(&world)[1], vec![10, 30]);
}

#[test]
fn archetypes_show_what_they_hold() {
    let mut world = World::new();
    world.spawn(bundle(vec![num(1), flag(true)]));
    world.spawn(bundle(vec![flag(false), num(2)]));
    let list = world.archetypes();
    assert_eq!(list.len(), 2);
    assert_eq!(list[0].len(), 0);
    assert_eq!(list[1].len(), 2);
    assert!(list[1].has(INT) && list[1].has(FLAG) && !list[1].has(TEXT));
}

#[test]
fn column_batch_uses_the_ids_that_spawning_uses() {
    let fresh = || {
        let mut world = World::new();
        let list: Vec<Entity> = (0..4).map(|i| world.spawn(bundle(vec![num(i)]))).collect();
        world.despawn(list[2]).unwrap();
        world.despawn(list[0]).unwrap();
        world
    };
    let mut a = fresh();
    let batch = ColumnBatch::new(3, columns(vec![1, 2, 3], vec![true; 3])).unwrap();
    let mut iter = a.spawn_column_batch(batch);
    let mut from_batch = Vec::new();
    while let Some(e) = iter.next() {
        from_batch.push(e);
    }
    let mut b = fresh();
    let mut one_by_one: Vec<Entity> = (0..3).map(|i| b.spawn(bundle(vec![num(i), flag(true)]))).collect();
    from_batch.sort();
    one_by_one.sort();
    assert_eq!(from_batch, one_by_one);
    assert_eq!(a.spawn(bundle(vec![])), b.spawn(bundle(vec![])));
}

#[test]
fn spawn_then_despawn_restores() {
    let mut world = World::new();
    let a = world.spawn(bundle(vec![num(1)]));
    let b = world.spawn(bundle(vec![num(2)]));
    world.despawn(b).unwrap();
    assert_eq!(handles(&world), vec![a]);
    assert_eq!(*world.get(a, INT).unwrap(), num(1));
    assert_eq!(world.len(), 1);
}

#[test]
fn reservations_become_real_with_a_column_batch_at() {
    let mut world = World::new();
    let e = world.reserve_entity();
    let handle = Entity { generation: 0, id: 5 };
    let batch = ColumnBatch::new(1, columns(vec![1], vec![true])).unwrap();
    world.spawn_column_batch_at(&[handle], batch);
    assert!(world.contains(e));
    assert_eq!(handles(&world).iter().filter(|h| **h == e).count(), 1);
    assert!(!world.entity(e).unwrap().has(INT));
    assert_eq!(world.len(), 2);
}

#[test]
fn column_batch_iterator_counts_down() {
    let mut world = World::new();
    let batch = ColumnBatch::new(3, columns(vec![1, 2, 3], vec![true; 3])).unwrap();
    let mut iter = world.spawn_column_batch(batch);
    for left in [2, 1, 0] {
        assert!(iter.next().is_some());
        assert_eq!(iter.len(), left);
        assert_eq!(iter.size_hint(), (left, Some(left)));
    }
    assert_eq!(iter.next(), None);
    assert_eq!(iter.len(), 0);
}

#[test]
fn archetypes_are_only_added() {
    let mut world = World::new();
    let mut before = types(&world);
    let e = world.spawn(bundle(vec![num(1), flag(true)]));
    for step in 0..6 {
        match step {
            0 => world.insert_one(e, TEXT, text("t")).unwrap(),
            1 => drop(world.remove(e, &[INT, FLAG]).unwrap()),
            2 => world.clear(),
            3 => drop(world.spawn(bundle(vec![num(2)]))),
            4 => world.extend(vec![bundle(vec![flag(true)]), bundle(vec![num(2)])]),
            _ => world.reserve(&[INT, TEXT], 3),
        }
        let after = types(&world);
        assert_eq!(after[..before.len()], before[..]);
        before = after;
    }
    assert_eq!(before.len(), 7);
}

#[test]
fn rows_of_all_archetypes_add_up() {
    let world = World::from_iter(vec![
        bundle(vec![num(1)]),
        bundle(vec![]),
        bundle(vec![num(2)]),
        bundle(vec![flag(true)]),
    ]);
    let total: u32 = world.archetypes().iter().map(|a| a.len()).sum();
    assert_eq!(total, world.len());
    assert_eq!(total, 4);
    let mut iter = world.iter();
    let mut found = Vec::new();
    while let Some((_, components)) = iter.next() {
        found.push((components.get(INT).cloned(), components.get(FLAG).cloned()));
    }
    for want in [(Some(num(1)), None), (None, None), (Some(num(2)), None), (None, Some(flag(true)))] {
        assert_eq!(found.iter().filter(|row| **row == want).count(), 1);
    }
    assert!(World::<Value>::from_iter(vec![]).is_empty());
}

#[test]
fn inserts_of_different_types_commute() {
    let start = || {
        let mut world = World::new();
        let e = world.spawn(bundle(vec![text("t")]));
        (world, e)
    };
    let (mut a, e) = start();
    a.insert(e, bundle(vec![num(1)])).unwrap();
    a.insert(e, bundle(vec![flag(true)])).unwrap();
    let (mut b, _) = start();
    b.insert(e, bundle(vec![flag(true)])).unwrap();
    b.insert(e, bundle(vec![num(1)])).unwrap();
    let (mut c, _) = start();
    c.insert(e, bundle(vec![num(1), flag(true)])).unwrap();
    for ty in [INT, FLAG, TEXT] {
        assert_eq!(a.get(e, ty), c.get(e, ty));
        assert_eq!(b.get(e, ty), c.get(e, ty));
    }
    let before = c.archetypes_generation();
    c.insert(e, bundle(vec![])).unwrap();
    c.insert(e, bundle(vec![num(1), flag(true)])).unwrap();
    assert_eq!(before, c.archetypes_generation());
    assert_eq!(*c.get(e, INT).unwrap(), num(1));
}

#[test]
fn removed_components_can_be_put_back() {
    let mut world = World::new();
    let e = world.spawn(bundle(vec![num(1), flag(true), text("t")]));
    let back = world.remove(e, &[FLAG, TEXT]).unwrap();
    let before = world.archetypes_generation();
    world.insert(e, bundle(back)).unwrap();
    assert_eq!(before, world.archetypes_generation());
    assert_eq!(*world.get(e, INT).unwrap(), num(1));
    assert_eq!(*world.get(e, FLAG).unwrap(), flag(true));
    assert_eq!(*world.get(e, TEXT).unwrap(), text("t"));
}

#[test]
fn reserve_again_adds_nothing() {
    let mut world = World::new();
    world.reserve(&[INT, FLAG], 2);
    let before = world.archetypes_generation();
    world.reserve(&[FLAG, INT], 5);
    world.spawn(bundle(vec![num(1), flag(true)]));
    world.spawn(bundle(vec![num(2), flag(false)]));
    assert_eq!(before, world.archetypes_generation());
}
