//! The data model of one finite-state machine and the pure transition engine.
//!
//! All names (states, events, prefixes, field names) are binary-safe byte
//! strings, matching what the host key-value store hands over.

use vstd::prelude::*;

verus! {

/// One transition arc: event `name` moves an entity from any state listed in
/// `from` to the state `to`.
#[derive(Debug, PartialEq, Eq)]
pub struct Event {
    pub name: Vec<u8>,
    pub from: Vec<Vec<u8>>,
    pub to: Vec<u8>,
}

/// Mathematical view of an [`Event`].
#[verifier::ext_equal]
pub ghost struct EventView {
    pub name: Seq<u8>,
    pub from: Seq<Seq<u8>>,
    pub to: Seq<u8>,
}

/// One state-machine definition: its identity, the key prefix it governs, the
/// entity attribute holding the current state, the states (the first is the
/// canonical initial state), and the legal transition events.
#[derive(Debug, PartialEq, Eq)]
pub struct StateMachine {
    pub name: Vec<u8>,
    pub prefix: Vec<u8>,
    pub field: Vec<u8>,
    pub states: Vec<Vec<u8>>,
    pub events: Vec<Event>,
}

/// Mathematical view of a [`StateMachine`].
#[verifier::ext_equal]
pub ghost struct MachineView {
    pub name: Seq<u8>,
    pub prefix: Seq<u8>,
    pub field: Seq<u8>,
    pub states: Seq<Seq<u8>>,
    pub events: Seq<EventView>,
}

/// The views of a sequence of byte strings.
pub open spec fn bytes_view(s: Seq<Vec<u8>>) -> Seq<Seq<u8>> {
    Seq::new(s.len(), |i: int| s[i]@)
}

/// The views of a sequence of events.
pub open spec fn events_view(s: Seq<Event>) -> Seq<EventView> {
    Seq::new(s.len(), |i: int| s[i]@)
}

impl View for Event {
    type V = EventView;

    open spec fn view(&self) -> EventView {
        EventView { name: self.name@, from: bytes_view(self.from@), to: self.to@ }
    }
}

impl View for StateMachine {
    type V = MachineView;

    open spec fn view(&self) -> MachineView {
        MachineView {
            name: self.name@,
            prefix: self.prefix@,
            field: self.field@,
            states: bytes_view(self.states@),
            events: events_view(self.events@),
        }
    }
}

/// An event is well formed with respect to a state list when its source set is
/// non-empty and every source and the destination are listed states.
pub open spec fn valid_event(e: EventView, states: Seq<Seq<u8>>) -> bool {
    &&& e.from.len() > 0
    &&& forall|i: int| 0 <= i < e.from.len() ==> states.contains(#[trigger] e.from[i])
    &&& states.contains(e.to)
}

/// The data-model invariant of a definition: at least one state, every event
/// well formed, and event names unique.
pub open spec fn valid_machine(m: MachineView) -> bool {
    &&& m.states.len() > 0
    &&& forall|i: int| 0 <= i < m.events.len() ==> valid_event(#[trigger] m.events[i], m.states)
    &&& forall|i: int, j: int|
        0 <= i < j < m.events.len() ==> m.events[i].name != m.events[j].name
}

/// The first event whose name matches, if any.
pub open spec fn find_event_spec(evs: Seq<EventView>, name: Seq<u8>) -> Option<EventView>
    decreases evs.len(),
{
    if evs.len() == 0 {
        None
    } else if evs[0].name == name {
        Some(evs[0])
    } else {
        find_event_spec(evs.drop_first(), name)
    }
}

/// The transition decision: the matched event, provided the entity holds a
/// current state and that state is among the event's sources.
pub open spec fn allowed_spec(m: MachineView, state: Option<Seq<u8>>, event_name: Seq<u8>) -> Option<
    EventView,
> {
    match state {
        None => None,
        Some(cur) => match find_event_spec(m.events, event_name) {
            None => None,
            Some(e) => if e.from.contains(cur) {
                Some(e)
            } else {
                None
            },
        },
    }
}

/// A governed entity, modelled by its one state attribute; `None` means the
/// attribute is absent (the entity is uninitialized).
pub struct Entity {
    pub state: Option<Vec<u8>>,
}

impl View for Entity {
    type V = Option<Seq<u8>>;

    open spec fn view(&self) -> Option<Seq<u8>> {
        match self.state {
            Some(ref v) => Some(v@),
            None => None,
        }
    }
}

/// Byte-string equality.
pub fn bytes_eq(a: &Vec<u8>, b: &Vec<u8>) -> (r: bool)
    ensures
        r == (a@ == b@),
{
    if a.len() != b.len() {
        return false;
    }
    let mut i: usize = 0;
    while i < a.len()
        invariant
            a@.len() == b@.len(),
            0 <= i <= a@.len(),
            forall|j: int| 0 <= j < i ==> a@[j] == b@[j],
        decreases a@.len() - i,
    {
        if a[i] != b[i] {
            return false;
        }
        i += 1;
    }
    proof {
        assert(a@ =~= b@);
    }
    true
}

/// A fresh copy of a byte string.
pub fn copy_bytes(v: &Vec<u8>) -> (r: Vec<u8>)
    ensures
        r@ == v@,
{
    vstd::slice::slice_to_vec(v.as_slice())
}

/// Whether `x` occurs in the list `l`.
pub fn contains_bytes(l: &Vec<Vec<u8>>, x: &Vec<u8>) -> (r: bool)
    ensures
        r == bytes_view(l@).contains(x@),
{
    let mut i: usize = 0;
    while i < l.len()
        invariant
            0 <= i <= l@.len(),
            forall|j: int| 0 <= j < i ==> bytes_view(l@)[j] != x@,
        decreases l@.len() - i,
    {
        if bytes_eq(&l[i], x) {
            proof {
                assert(bytes_view(l@)[i as int] == x@);
            }
            return true;
        }
        i += 1;
    }
    proof {
        assert(!bytes_view(l@).contains(x@)) by {
            if bytes_view(l@).contains(x@) {
                let j = choose|j: int|
                    0 <= j < bytes_view(l@).len() && bytes_view(l@)[j] == x@;
                assert(bytes_view(l@)[j] != x@);
            }
        }
    }
    false
}

impl StateMachine {
    /// The canonical initial state: the first listed state, if any.
    pub fn initial_state(&self) -> (r: Option<&Vec<u8>>)
        ensures
            match r {
                Some(s) => self@.states.len() > 0 && s@ == self@.states[0],
                None => self@.states.len() == 0,
            },
    {
        if self.states.len() == 0 {
            None
        } else {
            Some(&self.states[0])
        }
    }

    /// The first event with the given name, if any.
    pub fn find_event(&self, name: &Vec<u8>) -> (r: Option<&Event>)
        ensures
            match r {
                Some(e) => find_event_spec(self@.events, name@) == Some(e@),
                None => find_event_spec(self@.events, name@) is None,
            },
    {
        let mut i: usize = 0;
        proof {
            assert(self@.events.skip(0) =~= self@.events);
        }
        while i < self.events.len()
            invariant
                0 <= i <= self.events@.len(),
                find_event_spec(self@.events, name@) == find_event_spec(
                    self@.events.skip(i as int),
                    name@,
                ),
            decreases self.events@.len() - i,
        {
            if bytes_eq(&self.events[i].name, name) {
                proof {
                    assert(self@.events.skip(i as int)[0] == self@.events[i as int]);
                }
                return Some(&self.events[i]);
            }
            proof {
                assert(self@.events.skip(i as int)[0] == self@.events[i as int]);
                assert(self@.events.skip(i as int).drop_first() =~= self@.events.skip(i + 1));
            }
            i += 1;
        }
        None
    }

    /// Whether the definition satisfies the data-model invariant.
    #[verifier::loop_isolation(false)]
    pub fn is_valid(&self) -> (r: bool)
        ensures
            r == valid_machine(self@),
    {
        if self.states.len() == 0 {
            return false;
        }
        let mut i: usize = 0;
        while i < self.events.len()
            invariant
                0 <= i <= self.events@.len(),
                forall|k: int| 0 <= k < i ==> valid_event(#[trigger] self@.events[k], self@.states),
                forall|k: int, l: int|
                    0 <= k < l < i ==> self@.events[k].name != self@.events[l].name,
            decreases self.events@.len() - i,
        {
            let e = &self.events[i];
            proof {
                assert(self@.events[i as int] == e@);
            }
            if e.from.len() == 0 {
                proof {
                    assert(!valid_event(self@.events[i as int], self@.states));
                }
                return false;
            }
            if !contains_bytes(&self.states, &e.to) {
                proof {
                    assert(!valid_event(self@.events[i as int], self@.states));
                }
                return false;
            }
            let mut k: usize = 0;
            while k < e.from.len()
                invariant
                    0 <= k <= e.from@.len(),
                    e@ == self@.events[i as int],
                    forall|j: int|
                        0 <= j < k ==> self@.states.contains(#[trigger] e@.from[j]),
                decreases e.from@.len() - k,
            {
                if !contains_bytes(&self.states, &e.from[k]) {
                    proof {
                        assert(e@.from[k as int] == e.from@[k as int]@);
                        assert(!valid_event(self@.events[i as int], self@.states));
                    }
                    return false;
                }
                k += 1;
            }
            let mut j: usize = 0;
            while j < i
                invariant
                    0 <= j <= i,
                    forall|l: int| 0 <= l < j ==> self@.events[l].name != self@.events[i as int].name,
                decreases i - j,
            {
                if bytes_eq(&self.events[j].name, &e.name) {
                    proof {
                        assert(self@.events[j as int].name == self@.events[i as int].name);
                        assert(!valid_machine(self@));
                    }
                    return false;
                }
                j += 1;
            }
            i += 1;
        }
        true
    }

    /// The transition decision for an entity: the matched event when the
    /// entity's current state is among its sources, and nothing otherwise.
    /// Reads only; never mutates the entity.
    pub fn allowed(&self, entity: &Entity, event_name: &Vec<u8>) -> (r: Option<&Event>)
        ensures
            match r {
                Some(e) => allowed_spec(self@, entity@, event_name@) == Some(e@),
                None => allowed_spec(self@, entity@, event_name@) is None,
            },
    {
        match &entity.state {
            None => None,
            Some(cur) => match self.find_event(event_name) {
                None => None,
                Some(e) => if contains_bytes(&e.from, cur) {
                    Some(e)
                } else {
                    None
                },
            },
        }
    }

    /// Applies the requested transition: succeeds, moving the entity to the
    /// matched event's destination, exactly when the transition is allowed;
    /// otherwise leaves the entity untouched.
    pub fn trigger(&self, entity: &mut Entity, event_name: &Vec<u8>) -> (r: bool)
        ensures
            match allowed_spec(self@, old(entity)@, event_name@) {
                Some(e) => r && final(entity)@ == Some(e.to),
                None => !r && final(entity)@ == old(entity)@,
            },
    {
        let next = match self.allowed(&*entity, event_name) {
            None => None,
            Some(e) => Some(copy_bytes(&e.to)),
        };
        match next {
            None => false,
            Some(to) => {
                entity.state = Some(to);
                true
            },
        }
    }
}

} // verus!
