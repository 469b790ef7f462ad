//! The store of variables: one flat mapping from names to values.

use vstd::prelude::*;
use crate::value::{Value, ValueView};

verus! {

struct Binding {
    name: String,
    value: Value,
}

/// The variables of a run. There is one level only: a name is bound or it is
/// not, and binding it again replaces what it held.
pub struct Environment {
    slots: Vec<Binding>,
}

impl View for Environment {
    type V = Map<Seq<char>, ValueView>;

    closed spec fn view(&self) -> Map<Seq<char>, ValueView> {
        Map::new(
            |name: Seq<char>| self.slot_of(name) is Some,
            |name: Seq<char>| self.slots[self.slot_of(name)->0].value@,
        )
    }
}

impl Environment {
    /// `name` is held at `at` and nowhere before it.
    spec fn first_at(&self, name: Seq<char>, at: int) -> bool {
        &&& 0 <= at < self.slots.len()
        &&& self.slots[at].name@ == name
        &&& forall|i: int| 0 <= i < at ==> self.slots[i].name@ != name
    }

    /// The first place at which `name` is held, if it is held at all.
    spec fn slot_of(&self, name: Seq<char>) -> Option<int> {
        if exists|at: int| self.first_at(name, at) {
            Some(choose|at: int| self.first_at(name, at))
        } else {
            None
        }
    }

    /// A store with nothing bound.
    pub fn new() -> (env: Self)
        ensures
            env@ == Map::<Seq<char>, ValueView>::empty(),
    {
        let env = Environment { slots: Vec::new() };
        assert(env@ =~= Map::<Seq<char>, ValueView>::empty());
        env
    }

    /// The first index at which `name` is held.
    fn find(&self, name: &String) -> (found: Option<usize>)
        ensures
            match found {
                Some(at) => self.first_at(name@, at as int),
                None => forall|i: int| 0 <= i < self.slots.len() ==> self.slots[i].name@ != name@,
            },
    {
        let mut at: usize = 0;
        while at < self.slots.len()
            invariant
                at <= self.slots.len(),
                forall|i: int| 0 <= i < at ==> self.slots[i].name@ != name@,
            decreases self.slots.len() - at,
        {
            if self.slots[at].name == *name {
                return Some(at);
            }
            at += 1;
        }
        None
    }

    /// The value bound to `name`, or `None` where it is unbound.
    pub fn get(&self, name: &String) -> (value: Option<Value>)
        ensures
            match value {
                Some(held) => self@.contains_key(name@) && held@ == self@[name@],
                None => !self@.contains_key(name@),
            },
    {
        match self.find(name) {
            Some(at) => {
                proof {
                    lemma_first_is_slot(*self, name@, at as int);
                }
                Some(self.slots[at].value.clone())
            },
            None => None,
        }
    }

    /// Binds `name` to `value`, in place of what it held before.
    pub fn insert(&mut self, name: &String, value: Value)
        ensures
            final(self)@ == old(self)@.insert(name@, value@),
    {
        let ghost before = *self;
        let found = self.find(name);
        let at: usize = match found {
            Some(at) => {
                self.slots.set(at, Binding { name: name.clone(), value });
                at
            },
            None => {
                self.slots.push(Binding { name: name.clone(), value });
                self.slots.len() - 1
            },
        };
        proof {
            assert(self.slots[at as int].name@ == name@);
            assert(forall|j: int|
                0 <= j < before.slots.len() ==> self.slots[j].name@ == before.slots[j].name@);
            assert(forall|j: int|
                0 <= j < before.slots.len() && j != at ==> self.slots[j] == before.slots[j]);
            assert(self.first_at(name@, at as int));
            lemma_first_is_slot(*self, name@, at as int);
            assert forall|key: Seq<char>| key != name@ implies (#[trigger] self.slot_of(key))
                == before.slot_of(key) by {
                if before.slot_of(key) is Some {
                    let i = before.slot_of(key)->0;
                    assert(self.first_at(key, i));
                    lemma_first_is_slot(*self, key, i);
                }
                if self.slot_of(key) is Some {
                    let i = self.slot_of(key)->0;
                    assert(before.first_at(key, i));
                    lemma_first_is_slot(before, key, i);
                }
            }
            assert(self@ =~= before@.insert(name@, value@));
        }
    }
}

/// The first place at which a name is held is the only such place.
proof fn lemma_first_is_slot(env: Environment, name: Seq<char>, at: int)
    requires
        env.first_at(name, at),
    ensures
        env.slot_of(name) == Some(at),
{
    let chosen = choose|i: int| env.first_at(name, i);
    assert(env.first_at(name, chosen));
    if chosen < at {
        assert(env.slots[chosen].name@ != name);
    }
    if at < chosen {
        assert(env.slots[at].name@ != name);
    }
}

} // verus!
