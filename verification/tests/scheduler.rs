use tx2::component::Component;
use tx2::error::{SystemErrorContext, SystemErrorStrategy};
use tx2::system::{System, SystemContext, SystemFn, SystemPhase, SystemScheduler};
use tx2::value::Value;
use tx2::World;

struct FailingBehavior;

impl SystemFn for FailingBehavior {
    fn run(&mut self, _world: &mut World, _ctx: &SystemContext) -> Result<(), String> {
        Err("Something went wrong".to_string())
    }

    fn on_error(&self, _ctx: &SystemErrorContext) -> Option<SystemErrorStrategy> {
        None
    }
}

struct MarkingFailingBehavior {
    target: u32,
}

impl SystemFn for MarkingFailingBehavior {
    fn run(&mut self, world: &mut World, _ctx: &SystemContext) -> Result<(), String> {
        world
            .add_component(self.target, Component::new("Mark".to_string(), Value::Null))
            .unwrap();
        Err("always failing".to_string())
    }

    fn on_error(&self, _ctx: &SystemErrorContext) -> Option<SystemErrorStrategy> {
        None
    }
}

struct NoopBehavior;

impl SystemFn for NoopBehavior {
    fn run(&mut self, _world: &mut World, _ctx: &SystemContext) -> Result<(), String> {
        Ok(())
    }

    fn on_error(&self, _ctx: &SystemErrorContext) -> Option<SystemErrorStrategy> {
        None
    }
}

struct CountingBehavior {
    target: u32,
}

impl SystemFn for CountingBehavior {
    fn run(&mut self, world: &mut World, _ctx: &SystemContext) -> Result<(), String> {
        world
            .add_component(self.target, Component::new("Tick".to_string(), Value::Null))
            .unwrap();
        Ok(())
    }

    fn on_error(&self, _ctx: &SystemErrorContext) -> Option<SystemErrorStrategy> {
        None
    }
}

#[test]
fn test_system_error_handling() {
    let mut world = World::new();
    let mut scheduler: SystemScheduler<FailingBehavior> = SystemScheduler::new();

    let failing_system = System::new(
        "failing_system".to_string(),
        "Failing System".to_string(),
        vec![SystemPhase::Update],
        0,
        vec![],
        vec![],
        FailingBehavior,
    );

    scheduler.add(failing_system).unwrap();

    // Run 4 times. The default handler disables after 3 consecutive failures.
    for _ in 0..4 {
        scheduler
            .execute_phase(SystemPhase::Update, &mut world, 16, 0)
            .unwrap();
    }
}

#[test]
fn default_policy_disables_after_three_failures() {
    let mut world = World::new();
    let e = world.create_entity();
    let mut scheduler: SystemScheduler<MarkingFailingBehavior> = SystemScheduler::new();
    scheduler
        .add(System::new(
            "marker".to_string(),
            "Marker".to_string(),
            vec![SystemPhase::Update],
            0,
            vec![],
            vec![],
            MarkingFailingBehavior { target: e.id },
        ))
        .unwrap();

    for _ in 0..4 {
        scheduler
            .execute_phase(SystemPhase::Update, &mut world, 16, 0)
            .unwrap();
    }

    // The system ran (and failed) exactly three times: the default policy
    // disabled it after the third consecutive failure, so the fourth phase
    // did no work for it.
    assert_eq!(world.get_all_components(e.id).len(), 3);
}

#[test]
fn cycle_detection_is_fatal() {
    let mut world = World::new();
    let mut scheduler: SystemScheduler<NoopBehavior> = SystemScheduler::new();
    scheduler
        .add(System::new(
            "a".to_string(),
            "A".to_string(),
            vec![SystemPhase::Update],
            0,
            vec![],
            vec!["b".to_string()],
            NoopBehavior,
        ))
        .unwrap();
    scheduler
        .add(System::new(
            "b".to_string(),
            "B".to_string(),
            vec![SystemPhase::Update],
            0,
            vec![],
            vec!["a".to_string()],
            NoopBehavior,
        ))
        .unwrap();

    let r = scheduler.execute_phase(SystemPhase::Update, &mut world, 16, 0);
    assert!(r.is_err());
    assert_eq!(r.unwrap_err().code(), "circular_dependency".to_string());
}

#[test]
fn duplicate_system_id_is_fatal() {
    let mut scheduler: SystemScheduler<NoopBehavior> = SystemScheduler::new();
    scheduler
        .add(System::new(
            "s".to_string(),
            "S".to_string(),
            vec![SystemPhase::Update],
            0,
            vec![],
            vec![],
            NoopBehavior,
        ))
        .unwrap();
    let dup = scheduler.add(System::new(
        "s".to_string(),
        "S again".to_string(),
        vec![SystemPhase::Update],
        0,
        vec![],
        vec![],
        NoopBehavior,
    ));
    assert!(dup.is_err());
    assert_eq!(dup.unwrap_err().code(), "duplicate_system".to_string());
}

#[test]
fn systems_run_only_in_their_phase() {
    let mut world = World::new();
    let e = world.create_entity();
    let mut scheduler: SystemScheduler<CountingBehavior> = SystemScheduler::new();
    scheduler
        .add(System::new(
            "ticker".to_string(),
            "Ticker".to_string(),
            vec![SystemPhase::Update],
            0,
            vec![],
            vec![],
            CountingBehavior { target: e.id },
        ))
        .unwrap();

    scheduler
        .execute_phase(SystemPhase::Init, &mut world, 16, 0)
        .unwrap();
    assert_eq!(world.get_all_components(e.id).len(), 0);

    scheduler
        .execute_phase(SystemPhase::Update, &mut world, 16, 16)
        .unwrap();
    assert_eq!(world.get_all_components(e.id).len(), 1);

    assert!(scheduler.remove(&"ticker".to_string()));
    scheduler
        .execute_phase(SystemPhase::Update, &mut world, 16, 32)
        .unwrap();
    assert_eq!(world.get_all_components(e.id).len(), 1);
}

#[test]
fn snapshot_captures_world_in_order() {
    let mut world = World::new();
    let e1 = world.create_entity();
    let e2 = world.create_entity();
    world
        .add_component(e1.id, Component::new("A".to_string(), Value::Int(1)))
        .unwrap();
    world
        .add_component(e1.id, Component::new("B".to_string(), Value::Int(2)))
        .unwrap();

    let snapshot = tx2::serialization::Serializer::create_snapshot(&world);
    assert_eq!(snapshot.version, "1.0.0".to_string());
    assert_eq!(snapshot.timestamp, 0);
    assert_eq!(snapshot.entities.len(), 2);
    assert_eq!(snapshot.entities[0].id, e1.id);
    assert_eq!(snapshot.entities[1].id, e2.id);
    assert_eq!(snapshot.entities[0].components.len(), 2);
    assert_eq!(snapshot.entities[0].components[0].id, "A".to_string());
    assert_eq!(snapshot.entities[0].components[0].data, Value::Int(1));
    assert_eq!(snapshot.entities[1].components.len(), 0);
}

struct NamedMarker {
    target: u32,
    mark: &'static str,
}

impl SystemFn for NamedMarker {
    fn run(&mut self, world: &mut World, _ctx: &SystemContext) -> Result<(), String> {
        world
            .add_component(self.target, Component::new(self.mark.to_string(), Value::Null))
            .unwrap();
        Ok(())
    }

    fn on_error(&self, _ctx: &SystemErrorContext) -> Option<SystemErrorStrategy> {
        None
    }
}

#[test]
fn run_before_target_not_finalized_drops_system() {
    // Pins the chosen successor-constraint semantics: a system whose
    // `run_before` target has not been finalized at the moment of its visit
    // is silently dropped from that recompute, not deferred and not fatal.
    let mut world = World::new();
    let e = world.create_entity();
    let mut scheduler: SystemScheduler<NamedMarker> = SystemScheduler::new();
    // "early" is visited first (higher priority) and wants to run before
    // "late", which is not finalized yet at that moment: "early" is dropped.
    scheduler
        .add(System::new(
            "early".to_string(),
            "Early".to_string(),
            vec![SystemPhase::Update],
            10,
            vec!["late".to_string()],
            vec![],
            NamedMarker {
                target: e.id,
                mark: "EarlyMark",
            },
        ))
        .unwrap();
    scheduler
        .add(System::new(
            "late".to_string(),
            "Late".to_string(),
            vec![SystemPhase::Update],
            0,
            vec![],
            vec![],
            NamedMarker {
                target: e.id,
                mark: "LateMark",
            },
        ))
        .unwrap();

    scheduler
        .execute_phase(SystemPhase::Update, &mut world, 16, 0)
        .unwrap();

    assert!(!world.has_component(e.id, &"EarlyMark".to_string()));
    assert!(world.has_component(e.id, &"LateMark".to_string()));

    // A target already finalized at visit time does not drop the dependent:
    // with the priorities reversed, both run.
    let mut world2 = World::new();
    let e2 = world2.create_entity();
    let mut scheduler2: SystemScheduler<NamedMarker> = SystemScheduler::new();
    scheduler2
        .add(System::new(
            "early".to_string(),
            "Early".to_string(),
            vec![SystemPhase::Update],
            0,
            vec!["late".to_string()],
            vec![],
            NamedMarker {
                target: e2.id,
                mark: "EarlyMark",
            },
        ))
        .unwrap();
    scheduler2
        .add(System::new(
            "late".to_string(),
            "Late".to_string(),
            vec![SystemPhase::Update],
            10,
            vec![],
            vec![],
            NamedMarker {
                target: e2.id,
                mark: "LateMark",
            },
        ))
        .unwrap();
    scheduler2
        .execute_phase(SystemPhase::Update, &mut world2, 16, 0)
        .unwrap();
    assert!(world2.has_component(e2.id, &"EarlyMark".to_string()));
    assert!(world2.has_component(e2.id, &"LateMark".to_string()));
}
