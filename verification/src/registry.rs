//! The process-wide registry: the definition store (one definition per name)
//! and the prefix index (one definition name per key prefix), together with
//! the command surface and the initialization hook built on them.

use vstd::prelude::*;

use crate::codec;
use crate::machine::allowed_spec;
use crate::machine::bytes_eq;
use crate::machine::copy_bytes;
use crate::machine::valid_machine;
use crate::machine::Entity;
use crate::machine::MachineView;
use crate::machine::StateMachine;
use crate::FsmError;

verus! {

/// The key separator: a governed key's prefix runs up to and including the
/// first colon.
pub const SEP: u8 = 58;

/// The first stored definition whose name matches, scanning from the front.
pub open spec fn lookup_in(s: Seq<StateMachine>, name: Seq<u8>) -> Option<MachineView>
    decreases s.len(),
{
    if s.len() == 0 {
        None
    } else if s[0]@.name == name {
        Some(s[0]@)
    } else {
        lookup_in(s.drop_first(), name)
    }
}

/// The first index pair whose prefix matches, scanning from the front.
pub open spec fn resolve_in(s: Seq<(Vec<u8>, Vec<u8>)>, prefix: Seq<u8>) -> Option<Seq<u8>>
    decreases s.len(),
{
    if s.len() == 0 {
        None
    } else if s[0].0@ == prefix {
        Some(s[0].1@)
    } else {
        resolve_in(s.drop_first(), prefix)
    }
}

proof fn lemma_lookup_update(s: Seq<StateMachine>, i: int, d: StateMachine)
    requires
        0 <= i < s.len(),
        s[i]@.name == d@.name,
        forall|j: int| 0 <= j < i ==> s[j]@.name != d@.name,
    ensures
        forall|n: Seq<u8>|
            lookup_in(s.update(i, d), n) == (if n == d@.name {
                Some(d@)
            } else {
                lookup_in(s, n)
            }),
    decreases i,
{
    let t = s.update(i, d);
    if i == 0 {
        assert(t[0] == d);
        assert(t.drop_first() =~= s.drop_first());
        assert forall|n: Seq<u8>|
            lookup_in(t, n) == (if n == d@.name {
                Some(d@)
            } else {
                lookup_in(s, n)
            }) by {
            if n != d@.name {
                assert(lookup_in(t, n) == lookup_in(t.drop_first(), n));
                assert(lookup_in(s, n) == lookup_in(s.drop_first(), n));
            }
        }
    } else {
        lemma_lookup_update(s.drop_first(), i - 1, d);
        assert(t[0] == s[0]);
        assert(t.drop_first() =~= s.drop_first().update(i - 1, d));
        assert(s[0]@.name != d@.name);
        assert forall|n: Seq<u8>|
            lookup_in(t, n) == (if n == d@.name {
                Some(d@)
            } else {
                lookup_in(s, n)
            }) by {
            assert(lookup_in(t, n) == lookup_in(t.drop_first(), n) || n == s[0]@.name);
            if n == s[0]@.name {
            } else {
                assert(lookup_in(t, n) == lookup_in(t.drop_first(), n));
                assert(lookup_in(s, n) == lookup_in(s.drop_first(), n));
                assert(lookup_in(t.drop_first(), n) == (if n == d@.name {
                    Some(d@)
                } else {
                    lookup_in(s.drop_first(), n)
                }));
            }
        }
    }
}

proof fn lemma_lookup_push(s: Seq<StateMachine>, d: StateMachine)
    requires
        forall|j: int| 0 <= j < s.len() ==> s[j]@.name != d@.name,
    ensures
        forall|n: Seq<u8>|
            lookup_in(s.push(d), n) == (if n == d@.name {
                Some(d@)
            } else {
                lookup_in(s, n)
            }),
    decreases s.len(),
{
    let t = s.push(d);
    if s.len() == 0 {
        assert(t[0] == d);
        assert(t.drop_first() =~= Seq::<StateMachine>::empty());
        assert forall|n: Seq<u8>|
            lookup_in(t, n) == (if n == d@.name {
                Some(d@)
            } else {
                lookup_in(s, n)
            }) by {
            if n != d@.name {
                assert(lookup_in(t, n) == lookup_in(t.drop_first(), n));
            }
        }
    } else {
        lemma_lookup_push(s.drop_first(), d);
        assert(t[0] == s[0]);
        assert(t.drop_first() =~= s.drop_first().push(d));
        assert(s[0]@.name != d@.name);
        assert forall|n: Seq<u8>|
            lookup_in(t, n) == (if n == d@.name {
                Some(d@)
            } else {
                lookup_in(s, n)
            }) by {
            if n == s[0]@.name {
            } else {
                assert(lookup_in(t, n) == lookup_in(t.drop_first(), n));
                assert(lookup_in(s, n) == lookup_in(s.drop_first(), n));
                assert(lookup_in(t.drop_first(), n) == (if n == d@.name {
                    Some(d@)
                } else {
                    lookup_in(s.drop_first(), n)
                }));
            }
        }
    }
}

proof fn lemma_resolve_update(s: Seq<(Vec<u8>, Vec<u8>)>, i: int, e: (Vec<u8>, Vec<u8>))
    requires
        0 <= i < s.len(),
        s[i].0@ == e.0@,
        forall|j: int| 0 <= j < i ==> s[j].0@ != e.0@,
    ensures
        forall|p: Seq<u8>|
            resolve_in(s.update(i, e), p) == (if p == e.0@ {
                Some(e.1@)
            } else {
                resolve_in(s, p)
            }),
    decreases i,
{
    let t = s.update(i, e);
    if i == 0 {
        assert(t[0] == e);
        assert(t.drop_first() =~= s.drop_first());
        assert forall|p: Seq<u8>|
            resolve_in(t, p) == (if p == e.0@ {
                Some(e.1@)
            } else {
                resolve_in(s, p)
            }) by {
            if p != e.0@ {
                assert(resolve_in(t, p) == resolve_in(t.drop_first(), p));
                assert(resolve_in(s, p) == resolve_in(s.drop_first(), p));
            }
        }
    } else {
        lemma_resolve_update(s.drop_first(), i - 1, e);
        assert(t[0] == s[0]);
        assert(t.drop_first() =~= s.drop_first().update(i - 1, e));
        assert(s[0].0@ != e.0@);
        assert forall|p: Seq<u8>|
            resolve_in(t, p) == (if p == e.0@ {
                Some(e.1@)
            } else {
                resolve_in(s, p)
            }) by {
            if p == s[0].0@ {
            } else {
                assert(resolve_in(t, p) == resolve_in(t.drop_first(), p));
                assert(resolve_in(s, p) == resolve_in(s.drop_first(), p));
                assert(resolve_in(t.drop_first(), p) == (if p == e.0@ {
                    Some(e.1@)
                } else {
                    resolve_in(s.drop_first(), p)
                }));
            }
        }
    }
}

proof fn lemma_resolve_push(s: Seq<(Vec<u8>, Vec<u8>)>, e: (Vec<u8>, Vec<u8>))
    requires
        forall|j: int| 0 <= j < s.len() ==> s[j].0@ != e.0@,
    ensures
        forall|p: Seq<u8>|
            resolve_in(s.push(e), p) == (if p == e.0@ {
                Some(e.1@)
            } else {
                resolve_in(s, p)
            }),
    decreases s.len(),
{
    let t = s.push(e);
    if s.len() == 0 {
        assert(t[0] == e);
        assert(t.drop_first() =~= Seq::<(Vec<u8>, Vec<u8>)>::empty());
        assert forall|p: Seq<u8>|
            resolve_in(t, p) == (if p == e.0@ {
                Some(e.1@)
            } else {
                resolve_in(s, p)
            }) by {
            if p != e.0@ {
                assert(resolve_in(t, p) == resolve_in(t.drop_first(), p));
            }
        }
    } else {
        lemma_resolve_push(s.drop_first(), e);
        assert(t[0] == s[0]);
        assert(t.drop_first() =~= s.drop_first().push(e));
        assert(s[0].0@ != e.0@);
        assert forall|p: Seq<u8>|
            resolve_in(t, p) == (if p == e.0@ {
                Some(e.1@)
            } else {
                resolve_in(s, p)
            }) by {
            if p == s[0].0@ {
            } else {
                assert(resolve_in(t, p) == resolve_in(t.drop_first(), p));
                assert(resolve_in(s, p) == resolve_in(s.drop_first(), p));
                assert(resolve_in(t.drop_first(), p) == (if p == e.0@ {
                    Some(e.1@)
                } else {
                    resolve_in(s.drop_first(), p)
                }));
            }
        }
    }
}

/// The position of the first separator in a key, if any.
pub open spec fn first_sep(k: Seq<u8>) -> Option<int>
    decreases k.len(),
{
    if k.len() == 0 {
        None
    } else if k[0] == SEP {
        Some(0)
    } else {
        match first_sep(k.drop_first()) {
            Some(i) => Some(i + 1),
            None => None,
        }
    }
}

/// A key's governing prefix: the leading segment up to and including the
/// first separator, or nothing when the key has no separator.
pub open spec fn key_prefix(k: Seq<u8>) -> Option<Seq<u8>> {
    match first_sep(k) {
        Some(i) => Some(k.take(i + 1)),
        None => None,
    }
}

proof fn lemma_first_sep_at(k: Seq<u8>, i: int)
    requires
        0 <= i < k.len(),
        k[i] == SEP,
        forall|j: int| 0 <= j < i ==> k[j] != SEP,
    ensures
        first_sep(k) == Some(i),
    decreases i,
{
    if i == 0 {
    } else {
        lemma_first_sep_at(k.drop_first(), i - 1);
    }
}

proof fn lemma_first_sep_none(k: Seq<u8>)
    requires
        forall|j: int| 0 <= j < k.len() ==> k[j] != SEP,
    ensures
        first_sep(k) is None,
    decreases k.len(),
{
    if k.len() == 0 {
    } else {
        lemma_first_sep_none(k.drop_first());
    }
}

/// The leading prefix segment of a key, through the first separator.
pub fn extract_prefix(key: &Vec<u8>) -> (r: Option<Vec<u8>>)
    ensures
        match r {
            Some(p) => key_prefix(key@) == Some(p@),
            None => key_prefix(key@) is None,
        },
{
    let mut i: usize = 0;
    while i < key.len()
        invariant
            0 <= i <= key@.len(),
            forall|j: int| 0 <= j < i ==> key@[j] != SEP,
        decreases key@.len() - i,
    {
        if key[i] == SEP {
            proof {
                lemma_first_sep_at(key@, i as int);
            }
            let p = vstd::slice::slice_to_vec(
                vstd::slice::slice_subrange(key.as_slice(), 0, i + 1),
            );
            proof {
                assert(p@ =~= key@.take(i + 1));
            }
            return Some(p);
        }
        i += 1;
    }
    proof {
        lemma_first_sep_none(key@);
    }
    None
}

/// The process-wide registry of definitions and prefix bindings.
pub struct Registry {
    pub defs: Vec<StateMachine>,
    pub index: Vec<(Vec<u8>, Vec<u8>)>,
}

impl Registry {
    /// The stored definition under `name`, if any.
    pub open spec fn spec_lookup(&self, name: Seq<u8>) -> Option<MachineView> {
        lookup_in(self.defs@, name)
    }

    /// The definition name bound to `prefix`, if any.
    pub open spec fn spec_resolve(&self, prefix: Seq<u8>) -> Option<Seq<u8>> {
        resolve_in(self.index@, prefix)
    }

    /// An empty registry: no definitions, no prefix bindings.
    pub fn new() -> (r: Registry)
        ensures
            forall|n: Seq<u8>| r.spec_lookup(n) is None,
            forall|p: Seq<u8>| r.spec_resolve(p) is None,
    {
        Registry { defs: Vec::new(), index: Vec::new() }
    }

    /// Stores `d` under its own name, replacing wholesale any previous
    /// definition of that name; prefix bindings are untouched.
    #[verifier::loop_isolation(false)]
    pub fn persist(&mut self, d: StateMachine)
        ensures
            forall|n: Seq<u8>|
                final(self).spec_lookup(n) == (if n == d@.name {
                    Some(d@)
                } else {
                    old(self).spec_lookup(n)
                }),
            forall|p: Seq<u8>| final(self).spec_resolve(p) == old(self).spec_resolve(p),
    {
        let mut i: usize = 0;
        while i < self.defs.len()
            invariant
                0 <= i <= self.defs@.len(),
                self.defs@ == old(self).defs@,
                self.index@ == old(self).index@,
                forall|j: int| 0 <= j < i ==> self.defs@[j]@.name != d@.name,
            decreases self.defs@.len() - i,
        {
            if bytes_eq(&self.defs[i].name, &d.name) {
                proof {
                    lemma_lookup_update(self.defs@, i as int, d);
                }
                self.defs.set(i, d);
                return ;
            }
            i += 1;
        }
        proof {
            lemma_lookup_push(self.defs@, d);
        }
        self.defs.push(d);
    }

    /// Binds `prefix` to `name`, unconditionally overwriting any existing
    /// binding for that prefix (documented last-writer-wins policy); stored
    /// definitions are untouched.
    #[verifier::loop_isolation(false)]
    pub fn register(&mut self, prefix: Vec<u8>, name: Vec<u8>)
        ensures
            forall|p: Seq<u8>|
                final(self).spec_resolve(p) == (if p == prefix@ {
                    Some(name@)
                } else {
                    old(self).spec_resolve(p)
                }),
            forall|n: Seq<u8>| final(self).spec_lookup(n) == old(self).spec_lookup(n),
    {
        let mut i: usize = 0;
        while i < self.index.len()
            invariant
                0 <= i <= self.index@.len(),
                self.defs@ == old(self).defs@,
                self.index@ == old(self).index@,
                forall|j: int| 0 <= j < i ==> self.index@[j].0@ != prefix@,
            decreases self.index@.len() - i,
    {
            if bytes_eq(&self.index[i].0, &prefix) {
                let e = (prefix, name);
                proof {
                    lemma_resolve_update(self.index@, i as int, e);
                }
                self.index.set(i, e);
                return ;
            }
            i += 1;
        }
        let e = (prefix, name);
        proof {
            lemma_resolve_push(self.index@, e);
        }
        self.index.push(e);
    }

    /// The stored definition named `name`, if any.
    pub fn load(&self, name: &Vec<u8>) -> (r: Option<&StateMachine>)
        ensures
            match r {
                Some(d) => self.spec_lookup(name@) == Some(d@),
                None => self.spec_lookup(name@) is None,
            },
    {
        let mut i: usize = 0;
        proof {
            assert(self.defs@.skip(0) =~= self.defs@);
        }
        while i < self.defs.len()
            invariant
                0 <= i <= self.defs@.len(),
                lookup_in(self.defs@, name@) == lookup_in(self.defs@.skip(i as int), name@),
            decreases self.defs@.len() - i,
        {
            if bytes_eq(&self.defs[i].name, name) {
                proof {
                    assert(self.defs@.skip(i as int)[0] == self.defs@[i as int]);
                }
                return Some(&self.defs[i]);
            }
            proof {
                assert(self.defs@.skip(i as int)[0] == self.defs@[i as int]);
                assert(self.defs@.skip(i as int).drop_first() =~= self.defs@.skip(i + 1));
            }
            i += 1;
        }
        None
    }

    /// The definition name bound to `prefix`, if any.
    pub fn resolve(&self, prefix: &Vec<u8>) -> (r: Option<&Vec<u8>>)
        ensures
            match r {
                Some(n) => self.spec_resolve(prefix@) == Some(n@),
                None => self.spec_resolve(prefix@) is None,
            },
    {
        let mut i: usize = 0;
        proof {
            assert(self.index@.skip(0) =~= self.index@);
        }
        while i < self.index.len()
            invariant
                0 <= i <= self.index@.len(),
                resolve_in(self.index@, prefix@) == resolve_in(self.index@.skip(i as int), prefix@),
            decreases self.index@.len() - i,
        {
            if bytes_eq(&self.index[i].0, prefix) {
                proof {
                    assert(self.index@.skip(i as int)[0] == self.index@[i as int]);
                }
                return Some(&self.index[i].1);
            }
            proof {
                assert(self.index@.skip(i as int)[0] == self.index@[i as int]);
                assert(self.index@.skip(i as int).drop_first() =~= self.index@.skip(i + 1));
            }
            i += 1;
        }
        None
    }

    /// The create operation: decodes and validates the payload, stores the
    /// definition under its name, and binds its prefix; a malformed or
    /// invariant-violating payload is rejected and leaves the registry as it
    /// was.
    pub fn create(&mut self, payload: &Vec<u8>) -> (r: Result<Vec<u8>, FsmError>)
        ensures
            r matches Err(e) ==> e == FsmError::Decode && (forall|n: Seq<u8>|
                final(self).spec_lookup(n) == old(self).spec_lookup(n)) && (forall|p: Seq<u8>|
                final(self).spec_resolve(p) == old(self).spec_resolve(p)),
            r matches Ok(name) ==> match final(self).spec_lookup(name@) {
                Some(d) => valid_machine(d) && d.name == name@ && final(self).spec_resolve(d.prefix)
                    == Some(name@) && (forall|n2: Seq<u8>|
                    n2 != name@ ==> final(self).spec_lookup(n2) == old(self).spec_lookup(n2)) && (
                forall|p2: Seq<u8>|
                    p2 != d.prefix ==> final(self).spec_resolve(p2) == old(self).spec_resolve(p2)),
                None => false,
            },
            forall|dv: MachineView|
                valid_machine(dv) && payload@ == codec::enc_def(dv) ==> (r matches Ok(name)
                    && name@ == dv.name && final(self).spec_lookup(dv.name) == Some(dv)
                    && final(self).spec_resolve(dv.prefix) == Some(dv.name)),
    {
        match codec::decode(payload) {
            Err(_) => Err(FsmError::Decode),
            Ok(d) => {
                let name = copy_bytes(&d.name);
                let prefix = copy_bytes(&d.prefix);
                let bound = copy_bytes(&d.name);
                self.persist(d);
                self.register(prefix, bound);
                Ok(name)
            },
        }
    }

    /// The info operation: the stored definition re-encoded for inspection,
    /// or `NotFound`.
    pub fn info(&self, name: &Vec<u8>) -> (r: Result<Vec<u8>, FsmError>)
        ensures
            match self.spec_lookup(name@) {
                Some(d) => (r matches Ok(b) && b@ == codec::enc_def(d)),
                None => r == Err::<Vec<u8>, FsmError>(FsmError::NotFound),
            },
    {
        match self.load(name) {
            None => Err(FsmError::NotFound),
            Some(d) => Ok(codec::encode(d)),
        }
    }

    /// The allowed operation: `NotFound` when no definition is stored under
    /// `name`; otherwise whether the named event may fire for the entity.
    /// Reads only; never mutates the entity.
    pub fn allowed_cmd(&self, name: &Vec<u8>, entity: &Entity, event_name: &Vec<u8>) -> (r: Result<
        bool,
        FsmError,
    >)
        ensures
            match self.spec_lookup(name@) {
                Some(d) => (r matches Ok(b) && b == (allowed_spec(d, entity@, event_name@)
                    is Some)),
                None => r == Err::<bool, FsmError>(FsmError::NotFound),
            },
    {
        match self.load(name) {
            None => Err(FsmError::NotFound),
            Some(d) => Ok(d.allowed(entity, event_name).is_some()),
        }
    }

    /// The trigger operation: `NotFound` when no definition is stored under
    /// `name`; otherwise applies the transition, moving the entity to the
    /// matched event's destination exactly when its prior state is among the
    /// event's sources, and leaving it untouched otherwise.
    pub fn trigger_cmd(&self, name: &Vec<u8>, entity: &mut Entity, event_name: &Vec<u8>) -> (r:
        Result<bool, FsmError>)
        ensures
            match self.spec_lookup(name@) {
                Some(d) => (r matches Ok(b) && (match allowed_spec(d, old(entity)@, event_name@) {
                    Some(e) => b && final(entity)@ == Some(e.to),
                    None => !b && final(entity)@ == old(entity)@,
                })),
                None => r == Err::<bool, FsmError>(FsmError::NotFound) && final(entity)@ == old(
                    entity,
                )@,
            },
    {
        match self.load(name) {
            None => Err(FsmError::NotFound),
            Some(d) => Ok(d.trigger(entity, event_name)),
        }
    }

    /// What the initialization hook would stamp for `key`: the definition's
    /// state field and canonical initial state, provided the key has a
    /// prefix, the prefix resolves, and the resolved definition is stored
    /// with at least one state.
    pub open spec fn spec_hook_target(&self, key: Seq<u8>) -> Option<(Seq<u8>, Seq<u8>)> {
        match key_prefix(key) {
            None => None,
            Some(p) => match self.spec_resolve(p) {
                None => None,
                Some(n) => match self.spec_lookup(n) {
                    None => None,
                    Some(d) => if d.states.len() > 0 {
                        Some((d.field, d.states[0]))
                    } else {
                        None
                    },
                },
            },
        }
    }

    /// The entity's state attribute after one hook invocation.
    pub open spec fn spec_hook_apply(&self, key: Seq<u8>, st: Option<Seq<u8>>) -> Option<Seq<u8>> {
        if st is Some {
            st
        } else {
            match self.spec_hook_target(key) {
                Some(t) => Some(t.1),
                None => None,
            }
        }
    }

    /// The state field to read and the initial state to stamp for `key`, if
    /// the key is governed by a stored definition.
    pub fn hook_target(&self, key: &Vec<u8>) -> (r: Option<(Vec<u8>, Vec<u8>)>)
        ensures
            match r {
                Some(t) => self.spec_hook_target(key@) == Some((t.0@, t.1@)),
                None => self.spec_hook_target(key@) is None,
            },
    {
        match extract_prefix(key) {
            None => None,
            Some(p) => match self.resolve(&p) {
                None => None,
                Some(n) => match self.load(n) {
                    None => None,
                    Some(d) => match d.initial_state() {
                        None => None,
                        Some(init) => Some((copy_bytes(&d.field), copy_bytes(init))),
                    },
                },
            },
        }
    }

    /// The initialization hook over the entity model: stamps the canonical
    /// initial state onto an uninitialized governed entity; an unresolved key
    /// or an entity that already holds a state is left untouched.
    pub fn on_event(&self, key: &Vec<u8>, entity: &mut Entity) -> (stamped: bool)
        ensures
            final(entity)@ == self.spec_hook_apply(key@, old(entity)@),
            stamped == (old(entity)@ is None && self.spec_hook_target(key@) is Some),
    {
        if entity.state.is_some() {
            return false;
        }
        match self.hook_target(key) {
            None => false,
            Some((_field, init)) => {
                entity.state = Some(init);
                true
            },
        }
    }
}

/// Every valid definition has a non-empty state list and every event well
/// formed over it: a non-empty source set drawn from the listed states and a
/// listed destination. The create operation stores only such definitions.
pub proof fn lemma_valid_machine_closed(m: MachineView)
    requires
        valid_machine(m),
    ensures
        m.states.len() > 0,
        forall|i: int|
            0 <= i < m.events.len() ==> crate::machine::valid_event(
                #[trigger] m.events[i],
                m.states,
            ),
{
}

/// The initialization hook is idempotent: applying it twice to the same
/// entity gives the same state attribute as applying it once, so a stamped
/// entity is never overwritten.
pub proof fn lemma_hook_idempotent(r: &Registry, key: Seq<u8>, st: Option<Seq<u8>>)
    ensures
        r.spec_hook_apply(key, r.spec_hook_apply(key, st)) == r.spec_hook_apply(key, st),
{
}

} // verus!
