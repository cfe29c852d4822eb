use ecs_world::bundle::Bundle;
use ecs_world::entities::{Entity, NoSuchEntity};
use ecs_world::error::QueryOneError;
use ecs_world::query::{DynamicQueryTypes, Query};
use ecs_world::types::TypeInfo;
use ecs_world::world::World;

const A: TypeInfo = TypeInfo { id: 1, name: "a" };
const B: TypeInfo = TypeInfo { id: 2, name: "b" };
const C: TypeInfo = TypeInfo { id: 3, name: "c" };

fn bundle(values: &[(TypeInfo, i64)]) -> Bundle<i64> {
    let mut bundle = Bundle::new();
    for (ty, value) in values {
        bundle.add(*ty, *value);
    }
    bundle
}

fn both() -> Query {
    Query::Tuple(vec![Query::Component(A), Query::Component(B)])
}

fn optional() -> Query {
    Query::Tuple(vec![Query::Component(A), Query::Optional(Box::new(Query::Component(B)))])
}

fn filled() -> (World<i64>, Entity, Entity, Entity) {
    let mut world = World::new();
    let x = world.spawn(bundle(&[(A, 123), (B, 1), (C, 7)]));
    let y = world.spawn(bundle(&[(A, 456), (B, 0)]));
    let z = world.spawn(bundle(&[(A, 42), (C, 8)]));
    (world, x, y, z)
}

#[test]
fn query_skips_entities_without_a_component() {
    let (world, x, y, _) = filled();
    let borrow = world.query(both());
    let mut iter = borrow.iter();
    let mut found = Vec::new();
    while let Some((e, item)) = iter.next() {
        assert_eq!(item.get(C), None);
        found.push((e, *item.get(A).unwrap(), *item.get(B).unwrap()));
    }
    assert_eq!(found.len(), 2);
    assert!(found.contains(&(x, 123, 1)));
    assert!(found.contains(&(y, 456, 0)));
    assert!(iter.next().is_none());
}

#[test]
fn optional_parts_do_not_skip() {
    let (world, x, y, z) = filled();
    let borrow = world.query(optional());
    let mut iter = borrow.iter();
    let mut found = Vec::new();
    while let Some((e, item)) = iter.next() {
        found.push((e, item.get(A).copied(), item.get(B).copied()));
    }
    assert_eq!(found, vec![(x, Some(123), Some(1)), (y, Some(456), Some(0)), (z, Some(42), None)]);
}

#[test]
fn an_optional_tuple_is_fetched_whole_or_not_at_all() {
    let (world, _, _, z) = filled();
    let query = Query::Optional(Box::new(both()));
    let one = world.query_one(z, query).unwrap();
    let item = one.get().unwrap();
    assert_eq!(item.get(A), None);
    assert_eq!(item.get(B), None);
}

#[test]
fn reserved_entities_are_not_found() {
    let (mut world, _, _, _) = filled();
    world.reserve_entity();
    let count = |world: &World<i64>| {
        let borrow = world.query(Query::Tuple(vec![]));
        let mut iter = borrow.iter();
        let mut n = 0;
        while iter.next().is_some() {
            n += 1;
        }
        n
    };
    assert_eq!(count(&world), 3);
    world.flush();
    assert_eq!(count(&world), 4);
}

#[test]
fn query_mut_writes() {
    let (mut world, x, y, z) = filled();
    let mut query = world.query_mut(both());
    let mut seen = Vec::new();
    while let Some((e, mut item)) = query.next() {
        let flag = *item.get(B).unwrap();
        *item.get_mut(A).unwrap() += 1000 * flag + 1;
        assert!(item.get_mut(C).is_none());
        seen.push(e);
    }
    assert_eq!(seen, vec![x, y]);
    assert!(query.next().is_none());
    assert_eq!(world.get(x, A), Ok(&1124));
    assert_eq!(world.get(y, A), Ok(&457));
    assert_eq!(world.get(z, A), Ok(&42));
    assert_eq!(world.get(x, B), Ok(&1));
}

#[test]
fn query_dynamic_selects_by_types() {
    let (world, x, _, z) = filled();
    let types = [C, A];
    let query = world.query_dynamic(DynamicQueryTypes { types: &types });
    let mut iter = query.iter();
    let mut found = Vec::new();
    while let Some((e, item)) = iter.next() {
        assert_eq!(item.get(B), None);
        found.push((e, *item.get(A).unwrap(), *item.get(C).unwrap()));
    }
    assert_eq!(found, vec![(x, 123, 7), (z, 42, 8)]);
}

#[test]
fn query_one_looks_at_one_entity() {
    let (mut world, x, _, z) = filled();
    let one = world.query_one(x, both()).unwrap();
    assert_eq!(one.get().unwrap().get(A), Some(&123));
    assert!(world.query_one(z, both()).unwrap().get().is_none());
    let r = world.reserve_entity();
    assert!(world.query_one(r, both()).unwrap().get().is_none());
    assert!(world.query_one(r, Query::Tuple(vec![])).unwrap().get().is_some());
    let gone = Entity { generation: 1, id: x.id };
    assert!(matches!(world.query_one(gone, both()), Err(NoSuchEntity)));
}

#[test]
fn query_one_mut_gives_several_components() {
    let (mut world, x, _, z) = filled();
    {
        let mut item = world.query_one_mut(x, &both()).unwrap();
        let flag = *item.get(B).unwrap();
        let number = item.get_mut(A).unwrap();
        if flag == 1 {
            *number *= 2;
        }
    }
    assert_eq!(world.get(x, A), Ok(&246));
    {
        let mut item = world.query_one_mut(x, &both()).unwrap();
        *item.values[0] = 5;
        *item.values[1] = 6;
    }
    assert_eq!(world.get(x, A), Ok(&5));
    assert_eq!(world.get(x, B), Ok(&6));
    assert_eq!(world.get(x, C), Ok(&7));
    assert!(matches!(world.query_one_mut(z, &both()), Err(QueryOneError::Unsatisfied)));
    let gone = Entity { generation: 1, id: x.id };
    assert!(matches!(world.query_one_mut(gone, &both()), Err(QueryOneError::NoSuchEntity)));
    let r = world.reserve_entity();
    assert!(matches!(world.query_one_mut(r, &both()), Err(QueryOneError::Unsatisfied)));
    assert!(world.query_one_mut(r, &Query::Tuple(vec![])).is_ok());
}

#[test]
fn satisfied_looks_through_nested_queries() {
    let nested = Query::Tuple(vec![
        Query::Tuple(vec![Query::Component(A)]),
        Query::Optional(Box::new(Query::Tuple(vec![Query::Component(B), Query::Component(C)]))),
    ]);
    assert!(nested.satisfied(&[1]));
    assert!(nested.satisfied(&[1, 2]));
    assert!(!nested.satisfied(&[2, 3]));
    let (world, x, y, _) = filled();
    let item = world.query_one(x, nested).unwrap().get().unwrap();
    assert_eq!((item.get(A), item.get(B), item.get(C)), (Some(&123), Some(&1), Some(&7)));
    let again = Query::Optional(Box::new(Query::Tuple(vec![Query::Component(B), Query::Component(C)])));
    let item = world.query_one(y, again).unwrap().get().unwrap();
    assert_eq!((item.get(B), item.get(C)), (None, None));
}

#[test]
fn query_mut_skips_what_no_longer_matches() {
    let (mut world, x, y, z) = filled();
    let mut query = world.query_mut(Query::Component(A));
    assert_eq!(query.next().map(|(e, _)| e), Some(x));
    query.world.despawn(y).unwrap();
    assert_eq!(query.next().map(|(e, _)| e), Some(z));
    assert!(query.next().is_none());
}
