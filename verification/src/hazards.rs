//! Sets of protected addresses.

use rustc_hash::{FxBuildHasher, FxHashSet};
use vstd::prelude::*;

verus! {

/// `rustc_hash::FxBuildHasher`, which builds the hashers of the sets.
#[verifier::external_type_specification]
#[verifier::external_body]
pub struct ExFxBuildHasher(FxBuildHasher);

/// `FxHashSet::default` makes an empty set.
#[verifier::external_body]
fn fx_set_new() -> (r: FxHashSet<u64>)
    ensures
        r@ == Set::<u64>::empty(),
{
    FxHashSet::default()
}

/// `FxHashSet::insert` adds the value to the set, and says whether it was new.
#[verifier::external_body]
fn fx_set_insert(set: &mut FxHashSet<u64>, value: u64) -> (r: bool)
    ensures
        final(set)@ == old(set)@.insert(value),
        r == !old(set)@.contains(value),
{
    set.insert(value)
}

/// `FxHashSet::contains` says whether the value is in the set.
#[verifier::external_body]
fn fx_set_contains(set: &FxHashSet<u64>, value: u64) -> (r: bool)
    ensures
        r == set@.contains(value),
{
    set.contains(&value)
}

/// A set of addresses.
pub struct AddressSet {
    set: FxHashSet<u64>,
}

impl View for AddressSet {
    type V = Set<u64>;

    closed spec fn view(&self) -> Set<u64> {
        self.set@
    }
}

impl AddressSet {
    /// An empty set.
    pub fn new() -> (r: Self)
        ensures
            r@ == Set::<u64>::empty(),
    {
        AddressSet { set: fx_set_new() }
    }

    /// Adds an address, and returns `true` if it was not there.
    pub fn insert(&mut self, a: u64) -> (r: bool)
        ensures
            final(self)@ == old(self)@.insert(a),
            r == !old(self)@.contains(a),
    {
        fx_set_insert(&mut self.set, a)
    }

    /// Adds all addresses of a slice.
    pub fn extend(&mut self, items: &Vec<u64>)
        ensures
            forall|x: u64| #[trigger]
                final(self)@.contains(x) <==> old(self)@.contains(x) || items@.contains(x),
    {
        let mut i: usize = 0;
        while i < items.len()
            invariant
                i <= items@.len(),
                forall|x: u64| #[trigger]
                    self@.contains(x) <==> old(self)@.contains(x) || exists|k: int|
                        0 <= k < i && #[trigger] items@[k] == x,
            decreases items@.len() - i,
        {
            let item: u64 = items[i];
            self.insert(item);
            i = i + 1;
        }
    }

    /// Returns `true` if the address is in the set.
    pub fn contains(&self, a: u64) -> (r: bool)
        ensures
            r == self@.contains(a),
    {
        fx_set_contains(&self.set, a)
    }
}

} // verus!
