use tx2::component::Component;
use tx2::component::ComponentStore;
use tx2::query::QueryDescriptor;
use tx2::value::Value;
use tx2::World;

fn position(x: f64, y: f64) -> Component {
    Component::new(
        "Position".to_string(),
        Value::Object(vec![
            ("x".to_string(), Value::Float(x.to_bits())),
            ("y".to_string(), Value::Float(y.to_bits())),
        ]),
    )
}

#[test]
fn test_ecs_flow() {
    let mut world = World::new();
    let entity = world.create_entity();

    let pos = position(10.0, 20.0);
    println!("Component ID: {}", pos.component_id());
    world.add_component(entity.id, pos).unwrap();

    assert!(world.has_component(entity.id, &"Position".to_string()));

    let stored_pos = world.get_component(entity.id, &"Position".to_string()).unwrap();
    match &stored_pos.data {
        Value::Object(fields) => {
            assert_eq!(fields[0].0, "x".to_string());
            assert_eq!(fields[0].1, Value::Float((10.0f64).to_bits()));
        }
        _ => panic!("expected an object payload"),
    }
}

#[test]
fn test_query_system() {
    let mut world = World::new();

    let e1 = world.create_entity();
    world.add_component(e1.id, position(0.0, 0.0)).unwrap();

    let e2 = world.create_entity();
    world.add_component(e2.id, position(10.0, 10.0)).unwrap();

    let _e3 = world.create_entity();

    let results = world
        .query(QueryDescriptor {
            all: vec!["Position".to_string()],
            ..Default::default()
        })
        .unwrap();

    assert_eq!(results.len(), 2);
    assert!(results.contains(&e1.id));
    assert!(results.contains(&e2.id));
}

#[test]
fn add_then_has_and_get_first() {
    let mut world = World::new();
    let e = world.create_entity();
    let tag = Component::new("Tag".to_string(), Value::Int(7));
    world.add_component(e.id, tag).unwrap();

    assert!(world.has_component(e.id, &"Tag".to_string()));
    let first = world.get_component(e.id, &"Tag".to_string()).unwrap();
    assert_eq!(first.id, "Tag".to_string());
    assert_eq!(first.data, Value::Int(7));

    assert!(world.remove_component(e.id, &"Tag".to_string()));
    assert!(!world.has_component(e.id, &"Tag".to_string()));
    assert!(world.get_component(e.id, &"Tag".to_string()).is_none());
}

#[test]
fn destroy_entity_clears_reverse_index() {
    let mut store = ComponentStore::new();
    store.add(4, Component::new("A".to_string(), Value::Null));
    store.add(4, Component::new("B".to_string(), Value::Null));
    store.add(9, Component::new("A".to_string(), Value::Null));

    store.remove_all_components(4);

    assert!(!store.get_entities_with_component(&"A".to_string()).contains(&4));
    assert!(!store.get_entities_with_component(&"B".to_string()).contains(&4));
    assert!(store.get_entities_with_component(&"A".to_string()).contains(&9));
}

#[test]
fn destroyed_entity_leaves_queries() {
    let mut world = World::new();
    let e1 = world.create_entity();
    let e2 = world.create_entity();
    world.add_component(e1.id, position(1.0, 1.0)).unwrap();
    world.add_component(e2.id, position(2.0, 2.0)).unwrap();

    assert!(world.destroy_entity(e1.id));
    assert!(!world.has_entity(e1.id));

    let results = world
        .query(QueryDescriptor {
            all: vec!["Position".to_string()],
            ..Default::default()
        })
        .unwrap();
    assert_eq!(results, vec![e2.id]);
}

#[test]
fn same_type_instances_keep_insertion_order() {
    let mut store = ComponentStore::new();
    store.add(1, Component::new("Tag".to_string(), Value::Int(1)));
    store.add(1, Component::new("Tag".to_string(), Value::Int(2)));

    let all = store.get_all_by_type(1, &"Tag".to_string());
    assert_eq!(all.len(), 2);
    assert_eq!(all[0].data, Value::Int(1));
    assert_eq!(all[1].data, Value::Int(2));

    let first = store.get(1, &"Tag".to_string()).unwrap();
    assert_eq!(first.data, Value::Int(1));
}

#[test]
fn entity_ids_are_fresh_and_resettable() {
    let mut world = World::new();
    let a = world.create_entity();
    let b = world.create_entity();
    let c = world.create_entity();
    assert_eq!(a.id, 1);
    assert_eq!(b.id, 2);
    assert_eq!(c.id, 3);

    let dup = world.create_entity_with_id(2);
    assert!(dup.is_err());
    assert_eq!(dup.unwrap_err().code(), "duplicate_entity".to_string());

    let ok = world.create_entity_with_id(50).unwrap();
    assert_eq!(ok.id, 50);
    let next = world.create_entity();
    assert_eq!(next.id, 51);
}

#[test]
fn missing_entity_rejects_components() {
    let mut world = World::new();
    let r = world.add_component(123, Component::new("A".to_string(), Value::Null));
    assert!(r.is_err());
    assert_eq!(r.unwrap_err().code(), "missing_entity".to_string());
}

#[test]
fn duplicate_value_is_structurally_equal() {
    let v = Value::List(vec![
        Value::Text("abc".to_string()),
        Value::Object(vec![("k".to_string(), Value::Bool(true))]),
        Value::Float((0.5f64).to_bits()),
    ]);
    let copy = v.duplicate();
    assert_eq!(copy, v);
}
