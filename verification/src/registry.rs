//! Numbers for the types of managed objects.

use crate::obj_meta::MAX_TYPE_ID;
use std::collections::HashMap;
use vstd::prelude::*;

verus! {

/// Gives each type of managed object a number that fits in an object header, and finds what to
/// shade an object by from that number.
pub struct TypeRegistry {
    pub by_type: HashMap<u64, u8>,
    pub fns: Vec<u64>,
}

impl TypeRegistry {
    /// The types are numbered in the order of their registration.
    pub open spec fn wf(self) -> bool {
        &&& self.fns@.len() <= MAX_TYPE_ID
        &&& forall|k: u64| #[trigger]
            self.by_type@.contains_key(k) ==> self.by_type@[k] < self.fns@.len()
                && self.fns@[self.by_type@[k] as int] == k
        &&& forall|i: int|
            0 <= i < self.fns@.len() ==> self.by_type@.contains_key(#[trigger] self.fns@[i])
                && self.by_type@[self.fns@[i]] == i
    }

    /// The type has been registered.
    pub open spec fn knows(self, key: u64) -> bool {
        self.fns@.contains(key)
    }

    /// The type has been registered, or there is room for it.
    pub open spec fn accepts(self, key: u64) -> bool {
        self.knows(key) || self.fns@.len() < MAX_TYPE_ID
    }

    /// No types.
    pub fn new() -> (r: Self)
        ensures
            r.wf(),
            r.fns@ == Seq::<u64>::empty(),
    {
        broadcast use vstd::std_specs::hash::group_hash_axioms;

        TypeRegistry { by_type: HashMap::new(), fns: Vec::new() }
    }

    /// Returns `true` if the type has been registered or can be.
    pub fn can_register(&self, key: u64) -> (r: bool)
        requires
            self.wf(),
        ensures
            r == self.accepts(key),
    {
        broadcast use vstd::std_specs::hash::group_hash_axioms;

        proof {
            if self.knows(key) {
                let i = choose|i: int| 0 <= i < self.fns@.len() && self.fns@[i] == key;
                assert(self.by_type@.contains_key(self.fns@[i]));
            }
            if self.by_type@.contains_key(key) {
                assert(self.fns@[self.by_type@[key] as int] == key);
            }
        }
        self.fns.len() < MAX_TYPE_ID || self.by_type.contains_key(&key)
    }

    /// The number of a type, which is registered if it is not yet. More types than there are
    /// numbers cannot be registered.
    pub fn register_type(&mut self, key: u64) -> (r: u8)
        requires
            old(self).wf(),
            old(self).accepts(key),
        ensures
            final(self).wf(),
            r < final(self).fns@.len(),
            final(self).fns@[r as int] == key,
            old(self).knows(key) ==> final(self).fns@ == old(self).fns@,
            !old(self).knows(key) ==> final(self).fns@ == old(self).fns@.push(key),
    {
        broadcast use vstd::std_specs::hash::group_hash_axioms;

        if let Some(id) = self.by_type.get(&key) {
            return *id;
        }
        assert(!self.knows(key)) by {
            if self.knows(key) {
                let i = choose|i: int| 0 <= i < self.fns@.len() && self.fns@[i] == key;
                assert(self.by_type@.contains_key(self.fns@[i]));
            }
        }
        let id: u8 = self.fns.len() as u8;
        self.fns.push(key);
        self.by_type.insert(key, id);
        id
    }

    /// What an object with the given type number is shaded by.
    pub fn get_shade_fn(&self, type_id: u8) -> (r: u64)
        requires
            type_id < self.fns@.len(),
        ensures
            r == self.fns@[type_id as int],
    {
        self.fns[type_id as usize]
    }
}

/// Different types have different numbers, and a number leads back to its type whatever is
/// registered later.
pub proof fn law_type_numbers(reg: TypeRegistry, later: Seq<u64>, i: int, j: int)
    requires
        reg.wf(),
        0 <= i < reg.fns@.len(),
        0 <= j < reg.fns@.len(),
    ensures
        reg.fns@[i] == reg.fns@[j] ==> i == j,
        (reg.fns@ + later)[i] == reg.fns@[i],
{
    assert(reg.by_type@[reg.fns@[i]] == i);
    assert(reg.by_type@[reg.fns@[j]] == j);
}

/// A type is accepted if it is registered already, or fewer than 256 are.
pub proof fn law_room_for_types(reg: TypeRegistry, key: u64)
    ensures
        reg.knows(key) <==> reg.fns@.contains(key),
        reg.accepts(key) <==> reg.fns@.contains(key) || reg.fns@.len() < 256,
        reg.wf() ==> reg.fns@.len() <= 256 && reg.fns@.no_duplicates(),
{
    if reg.wf() {
        assert forall|i: int, j: int|
            0 <= i < reg.fns@.len() && 0 <= j < reg.fns@.len() && i != j implies reg.fns@[i]
            != reg.fns@[j] by {
            law_type_numbers(reg, Seq::empty(), i, j);
        }
    }
}

} // verus!
