//! Comparing managed objects by their values.

use crate::global::Global;
use crate::man_ptr::{addr_of, is_addr};
use crate::pointers::{Local, Protector, Shared};
use crate::trace::TraceObj;
use std::cmp::Ordering;
use vstd::prelude::*;
use vstd::std_specs::cmp::{OrdSpec, PartialEqSpec, PartialOrdSpec};

verus! {

impl<T: TraceObj> Shared<T> {
    /// Returns `true` if the values that the two lead to are equal.
    pub fn value_eq(&self, other: &Self, gc: &Global<T>) -> (r: bool) where T: PartialEq
        requires
            gc.fits(),
            gc.heap.has(addr_of::<T>(self.word())),
            gc.heap.has(addr_of::<T>(other.word())),
        ensures
            T::obeys_eq_spec() ==> r == gc.value_at(addr_of::<T>(self.word())).eq_spec(
                &gc.value_at(addr_of::<T>(other.word())),
            ),
    {
        *self.deref(gc) == *other.deref(gc)
    }

    /// How the values that the two lead to compare, if they do.
    pub fn value_partial_cmp(&self, other: &Self, gc: &Global<T>) -> (r: Option<Ordering>) where T: PartialOrd
        requires
            gc.fits(),
            gc.heap.has(addr_of::<T>(self.word())),
            gc.heap.has(addr_of::<T>(other.word())),
        ensures
            T::obeys_partial_cmp_spec() ==> r == gc.value_at(addr_of::<T>(self.word())).partial_cmp_spec(
                &gc.value_at(addr_of::<T>(other.word())),
            ),
    {
        self.deref(gc).partial_cmp(other.deref(gc))
    }

    /// How the values that the two lead to compare.
    pub fn value_cmp(&self, other: &Self, gc: &Global<T>) -> (r: Ordering) where T: Ord
        requires
            gc.fits(),
            gc.heap.has(addr_of::<T>(self.word())),
            gc.heap.has(addr_of::<T>(other.word())),
        ensures
            T::obeys_cmp_spec() ==> r == gc.value_at(addr_of::<T>(self.word())).cmp_spec(
                &gc.value_at(addr_of::<T>(other.word())),
            ),
    {
        self.deref(gc).cmp(other.deref(gc))
    }
}

impl<'g, G: Protector<T>, T: TraceObj> Local<'g, G, T> {
    /// Returns `true` if the values that the two lead to are equal.
    pub fn value_eq(&self, other: &Self, gc: &Global<T>) -> (r: bool) where T: PartialEq
        requires
            gc.fits(),
            is_addr::<T>(self.ptr),
            is_addr::<T>(other.ptr),
            gc.heap.has(self.ptr),
            gc.heap.has(other.ptr),
        ensures
            T::obeys_eq_spec() ==> r == gc.value_at(self.ptr).eq_spec(
                &gc.value_at(other.ptr),
            ),
    {
        *self.deref(gc) == *other.deref(gc)
    }

    /// How the values that the two lead to compare, if they do.
    pub fn value_partial_cmp(&self, other: &Self, gc: &Global<T>) -> (r: Option<Ordering>) where T: PartialOrd
        requires
            gc.fits(),
            is_addr::<T>(self.ptr),
            is_addr::<T>(other.ptr),
            gc.heap.has(self.ptr),
            gc.heap.has(other.ptr),
        ensures
            T::obeys_partial_cmp_spec() ==> r == gc.value_at(self.ptr).partial_cmp_spec(
                &gc.value_at(other.ptr),
            ),
    {
        self.deref(gc).partial_cmp(other.deref(gc))
    }

    /// How the values that the two lead to compare.
    pub fn value_cmp(&self, other: &Self, gc: &Global<T>) -> (r: Ordering) where T: Ord
        requires
            gc.fits(),
            is_addr::<T>(self.ptr),
            is_addr::<T>(other.ptr),
            gc.heap.has(self.ptr),
            gc.heap.has(other.ptr),
        ensures
            T::obeys_cmp_spec() ==> r == gc.value_at(self.ptr).cmp_spec(
                &gc.value_at(other.ptr),
            ),
    {
        self.deref(gc).cmp(other.deref(gc))
    }
}

} // verus!
