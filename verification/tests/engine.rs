use fsm::machine::Entity;
use fsm::machine::Event;
use fsm::machine::StateMachine;
use fsm::registry::Registry;
use fsm::FsmError;

fn b(s: &str) -> Vec<u8> {
    s.as_bytes().to_vec()
}

fn job_fsm() -> StateMachine {
    StateMachine {
        name: b("JobFSM"),
        prefix: b("job:"),
        field: b("state"),
        states: vec![b("sleeping"), b("running"), b("cleaning")],
        events: vec![
            Event { name: b("run"), from: vec![b("sleeping")], to: b("running") },
            Event { name: b("clean"), from: vec![b("running")], to: b("cleaning") },
            Event { name: b("sleep"), from: vec![b("running"), b("cleaning")], to: b("sleeping") },
        ],
    }
}

#[test]
fn job_fsm_scenario() {
    let mut reg = Registry::new();
    let payload = fsm::codec::encode(&job_fsm());
    let created = reg.create(&payload);
    assert_eq!(created, Ok(b("JobFSM")));

    // The prefix resolves to the definition's name.
    assert_eq!(reg.resolve(&b("job:")), Some(&b("JobFSM")));

    // Touching an entity with no prior state field stamps the initial state.
    let mut entity = Entity { state: None };
    let stamped = reg.on_event(&b("job:42"), &mut entity);
    assert!(stamped);
    assert_eq!(entity.state, Some(b("sleeping")));

    assert_eq!(reg.allowed_cmd(&b("JobFSM"), &entity, &b("run")), Ok(true));

    assert_eq!(reg.trigger_cmd(&b("JobFSM"), &mut entity, &b("run")), Ok(true));
    assert_eq!(entity.state, Some(b("running")));

    // running is not in run's from set: the trigger fails and changes nothing.
    assert_eq!(reg.trigger_cmd(&b("JobFSM"), &mut entity, &b("run")), Ok(false));
    assert_eq!(entity.state, Some(b("running")));
}

#[test]
fn full_transition_cycle() {
    let m = job_fsm();
    let mut entity = Entity { state: Some(b("sleeping")) };
    assert!(m.trigger(&mut entity, &b("run")));
    assert_eq!(entity.state, Some(b("running")));
    assert!(m.trigger(&mut entity, &b("clean")));
    assert_eq!(entity.state, Some(b("cleaning")));
    assert!(m.trigger(&mut entity, &b("sleep")));
    assert_eq!(entity.state, Some(b("sleeping")));
    // sleep fires from running or cleaning, not from sleeping.
    assert!(!m.trigger(&mut entity, &b("sleep")));
    assert_eq!(entity.state, Some(b("sleeping")));
}

#[test]
fn hook_is_idempotent() {
    let mut reg = Registry::new();
    let payload = fsm::codec::encode(&job_fsm());
    reg.create(&payload).unwrap();
    let mut entity = Entity { state: None };
    assert!(reg.on_event(&b("job:7"), &mut entity));
    assert_eq!(entity.state, Some(b("sleeping")));
    // A second invocation never changes the state field.
    assert!(!reg.on_event(&b("job:7"), &mut entity));
    assert_eq!(entity.state, Some(b("sleeping")));
    // Not even after a transition moved the entity on.
    reg.trigger_cmd(&b("JobFSM"), &mut entity, &b("run")).unwrap();
    assert!(!reg.on_event(&b("job:7"), &mut entity));
    assert_eq!(entity.state, Some(b("running")));
}

#[test]
fn hook_ignores_ungoverned_keys() {
    let mut reg = Registry::new();
    let payload = fsm::codec::encode(&job_fsm());
    reg.create(&payload).unwrap();
    // No separator: the key has no prefix segment.
    let mut e1 = Entity { state: None };
    assert!(!reg.on_event(&b("job42"), &mut e1));
    assert_eq!(e1.state, None);
    // Unregistered prefix.
    let mut e2 = Entity { state: None };
    assert!(!reg.on_event(&b("user:42"), &mut e2));
    assert_eq!(e2.state, None);
}

#[test]
fn allowed_is_pure() {
    let m = job_fsm();
    let entity = Entity { state: Some(b("sleeping")) };
    assert!(m.allowed(&entity, &b("run")).is_some());
    assert!(m.allowed(&entity, &b("clean")).is_none());
    // The entity's state field is untouched whatever the outcome.
    assert_eq!(entity.state, Some(b("sleeping")));
}

#[test]
fn allowed_on_uninitialized_entity() {
    let m = job_fsm();
    let entity = Entity { state: None };
    assert!(m.allowed(&entity, &b("run")).is_none());
    let mut entity = Entity { state: None };
    assert!(!m.trigger(&mut entity, &b("run")));
    assert_eq!(entity.state, None);
}

#[test]
fn unknown_names_yield_false_or_not_found() {
    let mut reg = Registry::new();
    let payload = fsm::codec::encode(&job_fsm());
    reg.create(&payload).unwrap();
    let mut entity = Entity { state: Some(b("sleeping")) };
    // Unknown event name: false, no state change.
    assert_eq!(reg.allowed_cmd(&b("JobFSM"), &entity, &b("fly")), Ok(false));
    assert_eq!(reg.trigger_cmd(&b("JobFSM"), &mut entity, &b("fly")), Ok(false));
    assert_eq!(entity.state, Some(b("sleeping")));
    // Unknown definition name: NotFound.
    assert_eq!(reg.info(&b("NoSuch")), Err(FsmError::NotFound));
    assert_eq!(reg.allowed_cmd(&b("NoSuch"), &entity, &b("run")), Err(FsmError::NotFound));
    assert_eq!(reg.trigger_cmd(&b("NoSuch"), &mut entity, &b("run")), Err(FsmError::NotFound));
}

#[test]
fn initial_state_is_first_listed() {
    let m = job_fsm();
    assert_eq!(m.initial_state(), Some(&b("sleeping")));
    let empty = StateMachine {
        name: b("E"),
        prefix: b("e:"),
        field: b("s"),
        states: vec![],
        events: vec![],
    };
    assert_eq!(empty.initial_state(), None);
}

#[test]
fn prefix_extraction() {
    assert_eq!(fsm::registry::extract_prefix(&b("job:42")), Some(b("job:")));
    assert_eq!(fsm::registry::extract_prefix(&b("a:b:c")), Some(b("a:")));
    assert_eq!(fsm::registry::extract_prefix(&b(":x")), Some(b(":")));
    assert_eq!(fsm::registry::extract_prefix(&b("nocolon")), None);
    assert_eq!(fsm::registry::extract_prefix(&b("")), None);
}

#[test]
fn later_create_supersedes_prefix_binding() {
    let mut reg = Registry::new();
    reg.create(&fsm::codec::encode(&job_fsm())).unwrap();
    let other = StateMachine {
        name: b("TaskFSM"),
        prefix: b("job:"),
        field: b("phase"),
        states: vec![b("todo"), b("done")],
        events: vec![Event { name: b("finish"), from: vec![b("todo")], to: b("done") }],
    };
    reg.create(&fsm::codec::encode(&other)).unwrap();
    // Last writer wins on the prefix; the older definition stays stored.
    assert_eq!(reg.resolve(&b("job:")), Some(&b("TaskFSM")));
    assert!(reg.info(&b("JobFSM")).is_ok());
    let mut entity = Entity { state: None };
    assert!(reg.on_event(&b("job:9"), &mut entity));
    assert_eq!(entity.state, Some(b("todo")));
}

#[test]
fn create_replaces_definition_wholesale() {
    let mut reg = Registry::new();
    reg.create(&fsm::codec::encode(&job_fsm())).unwrap();
    let replacement = StateMachine {
        name: b("JobFSM"),
        prefix: b("job:"),
        field: b("state"),
        states: vec![b("idle"), b("busy")],
        events: vec![Event { name: b("go"), from: vec![b("idle")], to: b("busy") }],
    };
    reg.create(&fsm::codec::encode(&replacement)).unwrap();
    assert_eq!(reg.info(&b("JobFSM")), Ok(fsm::codec::encode(&replacement)));
    let mut entity = Entity { state: None };
    assert!(reg.on_event(&b("job:1"), &mut entity));
    assert_eq!(entity.state, Some(b("idle")));
}
