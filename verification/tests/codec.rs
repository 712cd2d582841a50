use fsm::codec::decode;
use fsm::codec::encode;
use fsm::machine::Event;
use fsm::machine::StateMachine;
use fsm::FsmError;

fn b(s: &str) -> Vec<u8> {
    s.as_bytes().to_vec()
}

fn job_fsm() -> StateMachine {
    StateMachine {
        name: b("JobFSM"),
        prefix: b("job:"),
        field: b("state"),
        states: vec![b("sleeping"), b("running"), b("cleaning")],
        events: vec![
            Event { name: b("run"), from: vec![b("sleeping")], to: b("running") },
            Event { name: b("clean"), from: vec![b("running")], to: b("cleaning") },
            Event { name: b("sleep"), from: vec![b("running"), b("cleaning")], to: b("sleeping") },
        ],
    }
}

fn assert_same(a: &StateMachine, c: &StateMachine) {
    assert_eq!(a.name, c.name);
    assert_eq!(a.prefix, c.prefix);
    assert_eq!(a.field, c.field);
    assert_eq!(a.states, c.states);
    assert_eq!(a.events.len(), c.events.len());
    for (x, y) in a.events.iter().zip(c.events.iter()) {
        assert_eq!(x.name, y.name);
        assert_eq!(x.from, y.from);
        assert_eq!(x.to, y.to);
    }
}

#[test]
fn encoding_is_exact() {
    let m = StateMachine {
        name: b("a"),
        prefix: b("a:"),
        field: b("s"),
        states: vec![b("x")],
        events: vec![],
    };
    assert_eq!(
        encode(&m),
        b("{name:1:a,prefix:2:a:,field:1:s,states:[1:x],events:[]}")
    );
}

#[test]
fn encoding_of_events_is_exact() {
    let m = StateMachine {
        name: b("m"),
        prefix: b("m:"),
        field: b("st"),
        states: vec![b("on"), b("off")],
        events: vec![Event { name: b("up"), from: vec![b("off"), b("on")], to: b("on") }],
    };
    assert_eq!(
        encode(&m),
        b("{name:1:m,prefix:2:m:,field:2:st,states:[2:on,3:off],events:[{name:2:up,from:[3:off,2:on],to:2:on}]}")
    );
}

#[test]
fn round_trip_job_fsm() {
    let m = job_fsm();
    let decoded = decode(&encode(&m)).unwrap();
    assert_same(&m, &decoded);
}

#[test]
fn round_trip_binary_payloads() {
    // Names may hold any bytes, separators and digits included.
    let m = StateMachine {
        name: vec![0u8, 255, 44, 58, 93, 125],
        prefix: b("07:"),
        field: b("1:2"),
        states: vec![b("s,t]"), vec![123u8, 91]],
        events: vec![Event {
            name: b("e{"),
            from: vec![b("s,t]")],
            to: vec![123u8, 91],
        }],
    };
    let decoded = decode(&encode(&m)).unwrap();
    assert_same(&m, &decoded);
}

#[test]
fn decode_rejects_empty_states() {
    let m = StateMachine {
        name: b("E"),
        prefix: b("e:"),
        field: b("s"),
        states: vec![],
        events: vec![],
    };
    assert_eq!(decode(&encode(&m)), Err(FsmError::Decode));
}

#[test]
fn decode_rejects_unlisted_source_state() {
    let m = StateMachine {
        name: b("E"),
        prefix: b("e:"),
        field: b("s"),
        states: vec![b("a")],
        events: vec![Event { name: b("go"), from: vec![b("ghost")], to: b("a") }],
    };
    assert_eq!(decode(&encode(&m)), Err(FsmError::Decode));
}

#[test]
fn decode_rejects_unlisted_destination_state() {
    let m = StateMachine {
        name: b("E"),
        prefix: b("e:"),
        field: b("s"),
        states: vec![b("a")],
        events: vec![Event { name: b("go"), from: vec![b("a")], to: b("ghost") }],
    };
    assert_eq!(decode(&encode(&m)), Err(FsmError::Decode));
}

#[test]
fn decode_rejects_empty_from_set() {
    let m = StateMachine {
        name: b("E"),
        prefix: b("e:"),
        field: b("s"),
        states: vec![b("a")],
        events: vec![Event { name: b("go"), from: vec![], to: b("a") }],
    };
    assert_eq!(decode(&encode(&m)), Err(FsmError::Decode));
}

#[test]
fn decode_rejects_duplicate_event_names() {
    let m = StateMachine {
        name: b("E"),
        prefix: b("e:"),
        field: b("s"),
        states: vec![b("a"), b("z")],
        events: vec![
            Event { name: b("go"), from: vec![b("a")], to: b("z") },
            Event { name: b("go"), from: vec![b("z")], to: b("a") },
        ],
    };
    assert_eq!(decode(&encode(&m)), Err(FsmError::Decode));
}

#[test]
fn decode_rejects_malformed_payloads() {
    assert_eq!(decode(&b("")), Err(FsmError::Decode));
    assert_eq!(decode(&b("garbage")), Err(FsmError::Decode));
    assert_eq!(decode(&b("{name:1:a}")), Err(FsmError::Decode));
    assert_eq!(
        decode(&b("{name:9:a,prefix:2:a:,field:1:s,states:[1:x],events:[]}")),
        Err(FsmError::Decode)
    );
    // Trailing bytes after a well-formed record are refused.
    assert_eq!(
        decode(&b("{name:1:a,prefix:2:a:,field:1:s,states:[1:x],events:[]}tail")),
        Err(FsmError::Decode)
    );
}

#[test]
fn decode_accepts_handwritten_canonical_text() {
    let m = StateMachine {
        name: b("a"),
        prefix: b("a:"),
        field: b("s"),
        states: vec![b("x")],
        events: vec![],
    };
    let decoded = decode(&b("{name:1:a,prefix:2:a:,field:1:s,states:[1:x],events:[]}")).unwrap();
    assert_same(&m, &decoded);
}

#[test]
fn decode_rejects_non_canonical_text() {
    // A zero-padded length denotes the same string but is not the canonical
    // encoding, so it is refused.
    assert_eq!(
        decode(&b("{name:01:a,prefix:2:a:,field:1:s,states:[1:x],events:[]}")),
        Err(FsmError::Decode)
    );
    // So is a trailing comma inside a list.
    assert_eq!(
        decode(&b("{name:1:a,prefix:2:a:,field:1:s,states:[1:x,],events:[]}")),
        Err(FsmError::Decode)
    );
}

#[test]
fn registry_rejects_malformed_create() {
    let mut reg = fsm::registry::Registry::new();
    assert_eq!(reg.create(&b("not a definition")), Err(FsmError::Decode));
    assert_eq!(reg.info(&b("not a definition")), Err(FsmError::NotFound));
    assert_eq!(reg.resolve(&b("not")), None);
}
