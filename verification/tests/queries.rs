use tx2::component::Component;
use tx2::query::QueryDescriptor;
use tx2::value::Value;
use tx2::World;

fn tag(name: &str) -> Component {
    Component::new(name.to_string(), Value::Null)
}

#[test]
fn query_results_are_idempotent() {
    let mut world = World::new();
    let e1 = world.create_entity();
    let e2 = world.create_entity();
    world.add_component(e1.id, tag("A")).unwrap();
    world.add_component(e2.id, tag("A")).unwrap();

    let d1 = QueryDescriptor {
        all: vec!["A".to_string()],
        ..Default::default()
    };
    let d2 = QueryDescriptor {
        all: vec!["A".to_string()],
        ..Default::default()
    };
    let r1 = world.query(d1).unwrap();
    let r2 = world.query(d2).unwrap();
    assert_eq!(r1, r2);
}

#[test]
fn query_all_any_none_forms() {
    let mut world = World::new();
    let e1 = world.create_entity();
    let e2 = world.create_entity();
    let e3 = world.create_entity();
    world.add_component(e1.id, tag("A")).unwrap();
    world.add_component(e2.id, tag("B")).unwrap();

    let holders_a = world
        .query(QueryDescriptor {
            all: vec!["A".to_string()],
            ..Default::default()
        })
        .unwrap();
    assert_eq!(holders_a, vec![e1.id]);

    let without_a = world
        .query(QueryDescriptor {
            none: vec!["A".to_string()],
            ..Default::default()
        })
        .unwrap();
    assert_eq!(without_a.len(), 2);
    assert!(without_a.contains(&e2.id));
    assert!(without_a.contains(&e3.id));

    let either = world
        .query(QueryDescriptor {
            any: vec!["A".to_string(), "B".to_string()],
            ..Default::default()
        })
        .unwrap();
    assert_eq!(either.len(), 2);
    assert!(either.contains(&e1.id));
    assert!(either.contains(&e2.id));
}

#[test]
fn query_invalidates_on_mutation() {
    let mut world = World::new();
    let e1 = world.create_entity();
    world.add_component(e1.id, tag("A")).unwrap();

    let d = || QueryDescriptor {
        all: vec!["A".to_string()],
        ..Default::default()
    };
    assert_eq!(world.query(d()).unwrap(), vec![e1.id]);

    let e2 = world.create_entity();
    world.add_component(e2.id, tag("A")).unwrap();
    let r = world.query(d()).unwrap();
    assert_eq!(r.len(), 2);
    assert!(r.contains(&e2.id));

    world.remove_component(e1.id, &"A".to_string());
    assert_eq!(world.query(d()).unwrap(), vec![e2.id]);
}

#[test]
fn cache_deduplicates_reordered_descriptors() {
    let mut world = World::new();
    let e1 = world.create_entity();
    let e2 = world.create_entity();
    world.add_component(e1.id, tag("A")).unwrap();
    world.add_component(e1.id, tag("B")).unwrap();
    world.add_component(e2.id, tag("A")).unwrap();

    let r1 = world
        .query(QueryDescriptor {
            all: vec!["A".to_string(), "B".to_string()],
            ..Default::default()
        })
        .unwrap();
    let r2 = world
        .query(QueryDescriptor {
            all: vec!["B".to_string(), "A".to_string()],
            ..Default::default()
        })
        .unwrap();
    assert_eq!(r1, vec![e1.id]);
    assert_eq!(r1, r2);
}

#[test]
fn empty_descriptor_is_a_fatal_result() {
    let mut world = World::new();
    world.create_entity();
    let r = world.query(QueryDescriptor {
        ..Default::default()
    });
    assert!(r.is_err());
    assert_eq!(r.unwrap_err().code(), "empty_query".to_string());
}

#[test]
fn builder_builds_compiled_queries() {
    let world = World::new();
    let q = world
        .query_builder()
        .all(vec!["A".to_string()])
        .none(vec!["B".to_string()])
        .build();
    assert!(q.is_ok());

    let empty = world.query_builder().build();
    assert!(empty.is_err());
}

#[test]
fn query_mark_dirty_recomputes_same_result() {
    let mut world = World::new();
    let e1 = world.create_entity();
    world.add_component(e1.id, tag("A")).unwrap();

    let mut q = tx2::query::Query::new(QueryDescriptor {
        all: vec!["A".to_string()],
        ..Default::default()
    })
    .unwrap();
    // Standalone queries are evaluated directly against a store and universe.
    let store = {
        let mut s = tx2::component::ComponentStore::new();
        s.add(e1.id, tag("A"));
        s
    };
    let universe = vec![e1.id];
    let r1 = q.execute(&store, &universe);
    q.mark_dirty();
    let r2 = q.execute(&store, &universe);
    assert_eq!(r1, vec![e1.id]);
    assert_eq!(r1, r2);
    assert!(q.matches(e1.id, &store));
}
