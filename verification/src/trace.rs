//! What the managed heap has to know of the objects it holds.

use vstd::prelude::*;

verus! {

/// What a managed pointer in a value can be set to.
#[derive(Clone, Copy, Debug, PartialEq, Eq, Structural)]
pub enum LinkKind {
    /// Anything, or nothing.
    Nullable,
    /// Any object. It is never null.
    NonNull,
    /// What it leads to, and no other object. It is never null.
    Fixed,
}

impl LinkKind {
    /// A pointer of the kind may be set to an address.
    pub open spec fn takes(self, a: u64) -> bool {
        match self {
            LinkKind::Nullable => true,
            LinkKind::NonNull => a != 0,
            LinkKind::Fixed => false,
        }
    }
}

/// Any type stored in the managed heap has to implement this trait: it enumerates the words of
/// the managed pointers in a value, so that they can be unrooted when the value moves to the heap
/// and shaded when the value is traced. Everything else in the value is its payload.
pub trait TraceObj: Sized {
    /// What the value is besides its managed pointers.
    type Payload;

    spec fn payload(&self) -> Self::Payload;

    /// The words of the managed pointers in the value.
    spec fn outgoings(&self) -> Seq<u64>;

    /// The kinds of the managed pointers in the value, one for each.
    spec fn kinds(&self) -> Seq<LinkKind>;

    /// The type of the value.
    spec fn key(&self) -> u64;

    /// A number that tells the types in a heap apart.
    fn type_key(&self) -> (r: u64)
        ensures
            r == self.key(),
    ;

    /// The number of managed pointers in the value.
    fn outgoing_count(&self) -> (r: usize)
        ensures
            r == self.outgoings().len(),
    ;

    /// The word of a managed pointer.
    fn outgoing(&self, i: usize) -> (r: u64)
        requires
            i < self.outgoings().len(),
        ensures
            r == self.outgoings()[i as int],
    ;

    /// The kind of a managed pointer.
    fn outgoing_kind(&self, i: usize) -> (r: LinkKind)
        requires
            i < self.kinds().len(),
        ensures
            r == self.kinds()[i as int],
    ;

    /// Replaces the word of a managed pointer, and nothing else.
    fn set_outgoing(&mut self, i: usize, word: u64)
        requires
            i < old(self).outgoings().len(),
        ensures
            final(self).outgoings() == old(self).outgoings().update(i as int, word),
            final(self).payload() == old(self).payload(),
            final(self).key() == old(self).key(),
            final(self).kinds() == old(self).kinds(),
    ;
}

impl TraceObj for () {
    type Payload = ();

    open spec fn payload(&self) -> () {
        *self
    }

    open spec fn outgoings(&self) -> Seq<u64> {
        Seq::empty()
    }

    open spec fn kinds(&self) -> Seq<LinkKind> {
        Seq::empty()
    }

    open spec fn key(&self) -> u64 {
        0
    }

    fn type_key(&self) -> (r: u64) {
        0
    }

    fn outgoing_count(&self) -> (r: usize) {
        0
    }

    fn outgoing(&self, i: usize) -> (r: u64) {
        0
    }

    fn outgoing_kind(&self, i: usize) -> (r: LinkKind) {
        LinkKind::Nullable
    }

    fn set_outgoing(&mut self, i: usize, word: u64) {
    }
}

impl TraceObj for bool {
    type Payload = bool;

    open spec fn payload(&self) -> bool {
        *self
    }

    open spec fn outgoings(&self) -> Seq<u64> {
        Seq::empty()
    }

    open spec fn kinds(&self) -> Seq<LinkKind> {
        Seq::empty()
    }

    open spec fn key(&self) -> u64 {
        1
    }

    fn type_key(&self) -> (r: u64) {
        1
    }

    fn outgoing_count(&self) -> (r: usize) {
        0
    }

    fn outgoing(&self, i: usize) -> (r: u64) {
        0
    }

    fn outgoing_kind(&self, i: usize) -> (r: LinkKind) {
        LinkKind::Nullable
    }

    fn set_outgoing(&mut self, i: usize, word: u64) {
    }
}

impl TraceObj for u8 {
    type Payload = u8;

    open spec fn payload(&self) -> u8 {
        *self
    }

    open spec fn outgoings(&self) -> Seq<u64> {
        Seq::empty()
    }

    open spec fn kinds(&self) -> Seq<LinkKind> {
        Seq::empty()
    }

    open spec fn key(&self) -> u64 {
        2
    }

    fn type_key(&self) -> (r: u64) {
        2
    }

    fn outgoing_count(&self) -> (r: usize) {
        0
    }

    fn outgoing(&self, i: usize) -> (r: u64) {
        0
    }

    fn outgoing_kind(&self, i: usize) -> (r: LinkKind) {
        LinkKind::Nullable
    }

    fn set_outgoing(&mut self, i: usize, word: u64) {
    }
}

impl TraceObj for u16 {
    type Payload = u16;

    open spec fn payload(&self) -> u16 {
        *self
    }

    open spec fn outgoings(&self) -> Seq<u64> {
        Seq::empty()
    }

    open spec fn kinds(&self) -> Seq<LinkKind> {
        Seq::empty()
    }

    open spec fn key(&self) -> u64 {
        3
    }

    fn type_key(&self) -> (r: u64) {
        3
    }

    fn outgoing_count(&self) -> (r: usize) {
        0
    }

    fn outgoing(&self, i: usize) -> (r: u64) {
        0
    }

    fn outgoing_kind(&self, i: usize) -> (r: LinkKind) {
        LinkKind::Nullable
    }

    fn set_outgoing(&mut self, i: usize, word: u64) {
    }
}

impl TraceObj for u32 {
    type Payload = u32;

    open spec fn payload(&self) -> u32 {
        *self
    }

    open spec fn outgoings(&self) -> Seq<u64> {
        Seq::empty()
    }

    open spec fn kinds(&self) -> Seq<LinkKind> {
        Seq::empty()
    }

    open spec fn key(&self) -> u64 {
        4
    }

    fn type_key(&self) -> (r: u64) {
        4
    }

    fn outgoing_count(&self) -> (r: usize) {
        0
    }

    fn outgoing(&self, i: usize) -> (r: u64) {
        0
    }

    fn outgoing_kind(&self, i: usize) -> (r: LinkKind) {
        LinkKind::Nullable
    }

    fn set_outgoing(&mut self, i: usize, word: u64) {
    }
}

impl TraceObj for u64 {
    type Payload = u64;

    open spec fn payload(&self) -> u64 {
        *self
    }

    open spec fn outgoings(&self) -> Seq<u64> {
        Seq::empty()
    }

    open spec fn kinds(&self) -> Seq<LinkKind> {
        Seq::empty()
    }

    open spec fn key(&self) -> u64 {
        5
    }

    fn type_key(&self) -> (r: u64) {
        5
    }

    fn outgoing_count(&self) -> (r: usize) {
        0
    }

    fn outgoing(&self, i: usize) -> (r: u64) {
        0
    }

    fn outgoing_kind(&self, i: usize) -> (r: LinkKind) {
        LinkKind::Nullable
    }

    fn set_outgoing(&mut self, i: usize, word: u64) {
    }
}

impl TraceObj for u128 {
    type Payload = u128;

    open spec fn payload(&self) -> u128 {
        *self
    }

    open spec fn outgoings(&self) -> Seq<u64> {
        Seq::empty()
    }

    open spec fn kinds(&self) -> Seq<LinkKind> {
        Seq::empty()
    }

    open spec fn key(&self) -> u64 {
        6
    }

    fn type_key(&self) -> (r: u64) {
        6
    }

    fn outgoing_count(&self) -> (r: usize) {
        0
    }

    fn outgoing(&self, i: usize) -> (r: u64) {
        0
    }

    fn outgoing_kind(&self, i: usize) -> (r: LinkKind) {
        LinkKind::Nullable
    }

    fn set_outgoing(&mut self, i: usize, word: u64) {
    }
}

impl TraceObj for usize {
    type Payload = usize;

    open spec fn payload(&self) -> usize {
        *self
    }

    open spec fn outgoings(&self) -> Seq<u64> {
        Seq::empty()
    }

    open spec fn kinds(&self) -> Seq<LinkKind> {
        Seq::empty()
    }

    open spec fn key(&self) -> u64 {
        7
    }

    fn type_key(&self) -> (r: u64) {
        7
    }

    fn outgoing_count(&self) -> (r: usize) {
        0
    }

    fn outgoing(&self, i: usize) -> (r: u64) {
        0
    }

    fn outgoing_kind(&self, i: usize) -> (r: LinkKind) {
        LinkKind::Nullable
    }

    fn set_outgoing(&mut self, i: usize, word: u64) {
    }
}

impl TraceObj for i8 {
    type Payload = i8;

    open spec fn payload(&self) -> i8 {
        *self
    }

    open spec fn outgoings(&self) -> Seq<u64> {
        Seq::empty()
    }

    open spec fn kinds(&self) -> Seq<LinkKind> {
        Seq::empty()
    }

    open spec fn key(&self) -> u64 {
        8
    }

    fn type_key(&self) -> (r: u64) {
        8
    }

    fn outgoing_count(&self) -> (r: usize) {
        0
    }

    fn outgoing(&self, i: usize) -> (r: u64) {
        0
    }

    fn outgoing_kind(&self, i: usize) -> (r: LinkKind) {
        LinkKind::Nullable
    }

    fn set_outgoing(&mut self, i: usize, word: u64) {
    }
}

impl TraceObj for i16 {
    type Payload = i16;

    open spec fn payload(&self) -> i16 {
        *self
    }

    open spec fn outgoings(&self) -> Seq<u64> {
        Seq::empty()
    }

    open spec fn kinds(&self) -> Seq<LinkKind> {
        Seq::empty()
    }

    open spec fn key(&self) -> u64 {
        9
    }

    fn type_key(&self) -> (r: u64) {
        9
    }

    fn outgoing_count(&self) -> (r: usize) {
        0
    }

    fn outgoing(&self, i: usize) -> (r: u64) {
        0
    }

    fn outgoing_kind(&self, i: usize) -> (r: LinkKind) {
        LinkKind::Nullable
    }

    fn set_outgoing(&mut self, i: usize, word: u64) {
    }
}

impl TraceObj for i32 {
    type Payload = i32;

    open spec fn payload(&self) -> i32 {
        *self
    }

    open spec fn outgoings(&self) -> Seq<u64> {
        Seq::empty()
    }

    open spec fn kinds(&self) -> Seq<LinkKind> {
        Seq::empty()
    }

    open spec fn key(&self) -> u64 {
        10
    }

    fn type_key(&self) -> (r: u64) {
        10
    }

    fn outgoing_count(&self) -> (r: usize) {
        0
    }

    fn outgoing(&self, i: usize) -> (r: u64) {
        0
    }

    fn outgoing_kind(&self, i: usize) -> (r: LinkKind) {
        LinkKind::Nullable
    }

    fn set_outgoing(&mut self, i: usize, word: u64) {
    }
}

impl TraceObj for i64 {
    type Payload = i64;

    open spec fn payload(&self) -> i64 {
        *self
    }

    open spec fn outgoings(&self) -> Seq<u64> {
        Seq::empty()
    }

    open spec fn kinds(&self) -> Seq<LinkKind> {
        Seq::empty()
    }

    open spec fn key(&self) -> u64 {
        11
    }

    fn type_key(&self) -> (r: u64) {
        11
    }

    fn outgoing_count(&self) -> (r: usize) {
        0
    }

    fn outgoing(&self, i: usize) -> (r: u64) {
        0
    }

    fn outgoing_kind(&self, i: usize) -> (r: LinkKind) {
        LinkKind::Nullable
    }

    fn set_outgoing(&mut self, i: usize, word: u64) {
    }
}

impl TraceObj for i128 {
    type Payload = i128;

    open spec fn payload(&self) -> i128 {
        *self
    }

    open spec fn outgoings(&self) -> Seq<u64> {
        Seq::empty()
    }

    open spec fn kinds(&self) -> Seq<LinkKind> {
        Seq::empty()
    }

    open spec fn key(&self) -> u64 {
        12
    }

    fn type_key(&self) -> (r: u64) {
        12
    }

    fn outgoing_count(&self) -> (r: usize) {
        0
    }

    fn outgoing(&self, i: usize) -> (r: u64) {
        0
    }

    fn outgoing_kind(&self, i: usize) -> (r: LinkKind) {
        LinkKind::Nullable
    }

    fn set_outgoing(&mut self, i: usize, word: u64) {
    }
}

impl TraceObj for isize {
    type Payload = isize;

    open spec fn payload(&self) -> isize {
        *self
    }

    open spec fn outgoings(&self) -> Seq<u64> {
        Seq::empty()
    }

    open spec fn kinds(&self) -> Seq<LinkKind> {
        Seq::empty()
    }

    open spec fn key(&self) -> u64 {
        13
    }

    fn type_key(&self) -> (r: u64) {
        13
    }

    fn outgoing_count(&self) -> (r: usize) {
        0
    }

    fn outgoing(&self, i: usize) -> (r: u64) {
        0
    }

    fn outgoing_kind(&self, i: usize) -> (r: LinkKind) {
        LinkKind::Nullable
    }

    fn set_outgoing(&mut self, i: usize, word: u64) {
    }
}

impl TraceObj for char {
    type Payload = char;

    open spec fn payload(&self) -> char {
        *self
    }

    open spec fn outgoings(&self) -> Seq<u64> {
        Seq::empty()
    }

    open spec fn kinds(&self) -> Seq<LinkKind> {
        Seq::empty()
    }

    open spec fn key(&self) -> u64 {
        14
    }

    fn type_key(&self) -> (r: u64) {
        14
    }

    fn outgoing_count(&self) -> (r: usize) {
        0
    }

    fn outgoing(&self, i: usize) -> (r: u64) {
        0
    }

    fn outgoing_kind(&self, i: usize) -> (r: LinkKind) {
        LinkKind::Nullable
    }

    fn set_outgoing(&mut self, i: usize, word: u64) {
    }
}

impl TraceObj for String {
    type Payload = Seq<char>;

    open spec fn payload(&self) -> Seq<char> {
        self@
    }

    open spec fn outgoings(&self) -> Seq<u64> {
        Seq::empty()
    }

    open spec fn kinds(&self) -> Seq<LinkKind> {
        Seq::empty()
    }

    open spec fn key(&self) -> u64 {
        15
    }

    fn type_key(&self) -> (r: u64) {
        15
    }

    fn outgoing_count(&self) -> (r: usize) {
        0
    }

    fn outgoing(&self, i: usize) -> (r: u64) {
        0
    }

    fn outgoing_kind(&self, i: usize) -> (r: LinkKind) {
        LinkKind::Nullable
    }

    fn set_outgoing(&mut self, i: usize, word: u64) {
    }
}

impl TraceObj for std::sync::atomic::AtomicBool {
    type Payload = std::sync::atomic::AtomicBool;

    open spec fn payload(&self) -> std::sync::atomic::AtomicBool {
        *self
    }

    open spec fn outgoings(&self) -> Seq<u64> {
        Seq::empty()
    }

    open spec fn kinds(&self) -> Seq<LinkKind> {
        Seq::empty()
    }

    open spec fn key(&self) -> u64 {
        16
    }

    fn type_key(&self) -> (r: u64) {
        16
    }

    fn outgoing_count(&self) -> (r: usize) {
        0
    }

    fn outgoing(&self, i: usize) -> (r: u64) {
        0
    }

    fn outgoing_kind(&self, i: usize) -> (r: LinkKind) {
        LinkKind::Nullable
    }

    fn set_outgoing(&mut self, i: usize, word: u64) {
    }
}

impl TraceObj for std::sync::atomic::AtomicU8 {
    type Payload = std::sync::atomic::AtomicU8;

    open spec fn payload(&self) -> std::sync::atomic::AtomicU8 {
        *self
    }

    open spec fn outgoings(&self) -> Seq<u64> {
        Seq::empty()
    }

    open spec fn kinds(&self) -> Seq<LinkKind> {
        Seq::empty()
    }

    open spec fn key(&self) -> u64 {
        17
    }

    fn type_key(&self) -> (r: u64) {
        17
    }

    fn outgoing_count(&self) -> (r: usize) {
        0
    }

    fn outgoing(&self, i: usize) -> (r: u64) {
        0
    }

    fn outgoing_kind(&self, i: usize) -> (r: LinkKind) {
        LinkKind::Nullable
    }

    fn set_outgoing(&mut self, i: usize, word: u64) {
    }
}

impl TraceObj for std::sync::atomic::AtomicU16 {
    type Payload = std::sync::atomic::AtomicU16;

    open spec fn payload(&self) -> std::sync::atomic::AtomicU16 {
        *self
    }

    open spec fn outgoings(&self) -> Seq<u64> {
        Seq::empty()
    }

    open spec fn kinds(&self) -> Seq<LinkKind> {
        Seq::empty()
    }

    open spec fn key(&self) -> u64 {
        18
    }

    fn type_key(&self) -> (r: u64) {
        18
    }

    fn outgoing_count(&self) -> (r: usize) {
        0
    }

    fn outgoing(&self, i: usize) -> (r: u64) {
        0
    }

    fn outgoing_kind(&self, i: usize) -> (r: LinkKind) {
        LinkKind::Nullable
    }

    fn set_outgoing(&mut self, i: usize, word: u64) {
    }
}

impl TraceObj for std::sync::atomic::AtomicU32 {
    type Payload = std::sync::atomic::AtomicU32;

    open spec fn payload(&self) -> std::sync::atomic::AtomicU32 {
        *self
    }

    open spec fn outgoings(&self) -> Seq<u64> {
        Seq::empty()
    }

    open spec fn kinds(&self) -> Seq<LinkKind> {
        Seq::empty()
    }

    open spec fn key(&self) -> u64 {
        19
    }

    fn type_key(&self) -> (r: u64) {
        19
    }

    fn outgoing_count(&self) -> (r: usize) {
        0
    }

    fn outgoing(&self, i: usize) -> (r: u64) {
        0
    }

    fn outgoing_kind(&self, i: usize) -> (r: LinkKind) {
        LinkKind::Nullable
    }

    fn set_outgoing(&mut self, i: usize, word: u64) {
    }
}

impl TraceObj for std::sync::atomic::AtomicU64 {
    type Payload = std::sync::atomic::AtomicU64;

    open spec fn payload(&self) -> std::sync::atomic::AtomicU64 {
        *self
    }

    open spec fn outgoings(&self) -> Seq<u64> {
        Seq::empty()
    }

    open spec fn kinds(&self) -> Seq<LinkKind> {
        Seq::empty()
    }

    open spec fn key(&self) -> u64 {
        20
    }

    fn type_key(&self) -> (r: u64) {
        20
    }

    fn outgoing_count(&self) -> (r: usize) {
        0
    }

    fn outgoing(&self, i: usize) -> (r: u64) {
        0
    }

    fn outgoing_kind(&self, i: usize) -> (r: LinkKind) {
        LinkKind::Nullable
    }

    fn set_outgoing(&mut self, i: usize, word: u64) {
    }
}

impl TraceObj for std::sync::atomic::AtomicUsize {
    type Payload = std::sync::atomic::AtomicUsize;

    open spec fn payload(&self) -> std::sync::atomic::AtomicUsize {
        *self
    }

    open spec fn outgoings(&self) -> Seq<u64> {
        Seq::empty()
    }

    open spec fn kinds(&self) -> Seq<LinkKind> {
        Seq::empty()
    }

    open spec fn key(&self) -> u64 {
        21
    }

    fn type_key(&self) -> (r: u64) {
        21
    }

    fn outgoing_count(&self) -> (r: usize) {
        0
    }

    fn outgoing(&self, i: usize) -> (r: u64) {
        0
    }

    fn outgoing_kind(&self, i: usize) -> (r: LinkKind) {
        LinkKind::Nullable
    }

    fn set_outgoing(&mut self, i: usize, word: u64) {
    }
}

impl TraceObj for std::sync::atomic::AtomicI8 {
    type Payload = std::sync::atomic::AtomicI8;

    open spec fn payload(&self) -> std::sync::atomic::AtomicI8 {
        *self
    }

    open spec fn outgoings(&self) -> Seq<u64> {
        Seq::empty()
    }

    open spec fn kinds(&self) -> Seq<LinkKind> {
        Seq::empty()
    }

    open spec fn key(&self) -> u64 {
        22
    }

    fn type_key(&self) -> (r: u64) {
        22
    }

    fn outgoing_count(&self) -> (r: usize) {
        0
    }

    fn outgoing(&self, i: usize) -> (r: u64) {
        0
    }

    fn outgoing_kind(&self, i: usize) -> (r: LinkKind) {
        LinkKind::Nullable
    }

    fn set_outgoing(&mut self, i: usize, word: u64) {
    }
}

impl TraceObj for std::sync::atomic::AtomicI16 {
    type Payload = std::sync::atomic::AtomicI16;

    open spec fn payload(&self) -> std::sync::atomic::AtomicI16 {
        *self
    }

    open spec fn outgoings(&self) -> Seq<u64> {
        Seq::empty()
    }

    open spec fn kinds(&self) -> Seq<LinkKind> {
        Seq::empty()
    }

    open spec fn key(&self) -> u64 {
        23
    }

    fn type_key(&self) -> (r: u64) {
        23
    }

    fn outgoing_count(&self) -> (r: usize) {
        0
    }

    fn outgoing(&self, i: usize) -> (r: u64) {
        0
    }

    fn outgoing_kind(&self, i: usize) -> (r: LinkKind) {
        LinkKind::Nullable
    }

    fn set_outgoing(&mut self, i: usize, word: u64) {
    }
}

impl TraceObj for std::sync::atomic::AtomicI32 {
    type Payload = std::sync::atomic::AtomicI32;

    open spec fn payload(&self) -> std::sync::atomic::AtomicI32 {
        *self
    }

    open spec fn outgoings(&self) -> Seq<u64> {
        Seq::empty()
    }

    open spec fn kinds(&self) -> Seq<LinkKind> {
        Seq::empty()
    }

    open spec fn key(&self) -> u64 {
        24
    }

    fn type_key(&self) -> (r: u64) {
        24
    }

    fn outgoing_count(&self) -> (r: usize) {
        0
    }

    fn outgoing(&self, i: usize) -> (r: u64) {
        0
    }

    fn outgoing_kind(&self, i: usize) -> (r: LinkKind) {
        LinkKind::Nullable
    }

    fn set_outgoing(&mut self, i: usize, word: u64) {
    }
}

impl TraceObj for std::sync::atomic::AtomicI64 {
    type Payload = std::sync::atomic::AtomicI64;

    open spec fn payload(&self) -> std::sync::atomic::AtomicI64 {
        *self
    }

    open spec fn outgoings(&self) -> Seq<u64> {
        Seq::empty()
    }

    open spec fn kinds(&self) -> Seq<LinkKind> {
        Seq::empty()
    }

    open spec fn key(&self) -> u64 {
        25
    }

    fn type_key(&self) -> (r: u64) {
        25
    }

    fn outgoing_count(&self) -> (r: usize) {
        0
    }

    fn outgoing(&self, i: usize) -> (r: u64) {
        0
    }

    fn outgoing_kind(&self, i: usize) -> (r: LinkKind) {
        LinkKind::Nullable
    }

    fn set_outgoing(&mut self, i: usize, word: u64) {
    }
}

impl TraceObj for std::sync::atomic::AtomicIsize {
    type Payload = std::sync::atomic::AtomicIsize;

    open spec fn payload(&self) -> std::sync::atomic::AtomicIsize {
        *self
    }

    open spec fn outgoings(&self) -> Seq<u64> {
        Seq::empty()
    }

    open spec fn kinds(&self) -> Seq<LinkKind> {
        Seq::empty()
    }

    open spec fn key(&self) -> u64 {
        26
    }

    fn type_key(&self) -> (r: u64) {
        26
    }

    fn outgoing_count(&self) -> (r: usize) {
        0
    }

    fn outgoing(&self, i: usize) -> (r: u64) {
        0
    }

    fn outgoing_kind(&self, i: usize) -> (r: LinkKind) {
        LinkKind::Nullable
    }

    fn set_outgoing(&mut self, i: usize, word: u64) {
    }
}

impl TraceObj for std::collections::hash_map::DefaultHasher {
    type Payload = std::collections::hash_map::DefaultHasher;

    open spec fn payload(&self) -> std::collections::hash_map::DefaultHasher {
        *self
    }

    open spec fn outgoings(&self) -> Seq<u64> {
        Seq::empty()
    }

    open spec fn kinds(&self) -> Seq<LinkKind> {
        Seq::empty()
    }

    open spec fn key(&self) -> u64 {
        27
    }

    fn type_key(&self) -> (r: u64) {
        27
    }

    fn outgoing_count(&self) -> (r: usize) {
        0
    }

    fn outgoing(&self, i: usize) -> (r: u64) {
        0
    }

    fn outgoing_kind(&self, i: usize) -> (r: LinkKind) {
        LinkKind::Nullable
    }

    fn set_outgoing(&mut self, i: usize, word: u64) {
    }
}

impl TraceObj for std::hash::RandomState {
    type Payload = std::hash::RandomState;

    open spec fn payload(&self) -> std::hash::RandomState {
        *self
    }

    open spec fn outgoings(&self) -> Seq<u64> {
        Seq::empty()
    }

    open spec fn kinds(&self) -> Seq<LinkKind> {
        Seq::empty()
    }

    open spec fn key(&self) -> u64 {
        28
    }

    fn type_key(&self) -> (r: u64) {
        28
    }

    fn outgoing_count(&self) -> (r: usize) {
        0
    }

    fn outgoing(&self, i: usize) -> (r: u64) {
        0
    }

    fn outgoing_kind(&self, i: usize) -> (r: LinkKind) {
        LinkKind::Nullable
    }

    fn set_outgoing(&mut self, i: usize, word: u64) {
    }
}

/// `std::path::PathBuf`, an owned path.
#[verifier::external_type_specification]
#[verifier::external_body]
pub struct ExPathBuf(std::path::PathBuf);

impl TraceObj for std::path::PathBuf {
    type Payload = std::path::PathBuf;

    open spec fn payload(&self) -> std::path::PathBuf {
        *self
    }

    open spec fn outgoings(&self) -> Seq<u64> {
        Seq::empty()
    }

    open spec fn kinds(&self) -> Seq<LinkKind> {
        Seq::empty()
    }

    open spec fn key(&self) -> u64 {
        29
    }

    fn type_key(&self) -> (r: u64) {
        29
    }

    fn outgoing_count(&self) -> (r: usize) {
        0
    }

    fn outgoing(&self, i: usize) -> (r: u64) {
        0
    }

    fn outgoing_kind(&self, i: usize) -> (r: LinkKind) {
        LinkKind::Nullable
    }

    fn set_outgoing(&mut self, i: usize, word: u64) {
    }
}

/// Values without managed pointers have none, and are nothing but their payload. A type has one
/// number, whatever the value, and no two of these types have the same.
pub proof fn law_leaves_have_no_pointers(
    v0: (),
    v1: bool,
    v2: u8,
    v3: u16,
    v4: u32,
    v5: u64,
    v6: u128,
    v7: usize,
    v8: i8,
    v9: i16,
    v10: i32,
    v11: i64,
    v12: i128,
    v13: isize,
    v14: char,
    v15: String,
    v16: std::sync::atomic::AtomicBool,
    v17: std::sync::atomic::AtomicU8,
    v18: std::sync::atomic::AtomicU16,
    v19: std::sync::atomic::AtomicU32,
    v20: std::sync::atomic::AtomicU64,
    v21: std::sync::atomic::AtomicUsize,
    v22: std::sync::atomic::AtomicI8,
    v23: std::sync::atomic::AtomicI16,
    v24: std::sync::atomic::AtomicI32,
    v25: std::sync::atomic::AtomicI64,
    v26: std::sync::atomic::AtomicIsize,
    v27: std::collections::hash_map::DefaultHasher,
    v28: std::hash::RandomState,
    v29: std::path::PathBuf,
)
    ensures
        v0.outgoings().len() == 0 && v0.kinds().len() == 0 && v0.payload() == v0 && v0.key()
            == 0,
        v1.outgoings().len() == 0 && v1.kinds().len() == 0 && v1.payload() == v1 && v1.key()
            == 1,
        v2.outgoings().len() == 0 && v2.kinds().len() == 0 && v2.payload() == v2 && v2.key()
            == 2,
        v3.outgoings().len() == 0 && v3.kinds().len() == 0 && v3.payload() == v3 && v3.key()
            == 3,
        v4.outgoings().len() == 0 && v4.kinds().len() == 0 && v4.payload() == v4 && v4.key()
            == 4,
        v5.outgoings().len() == 0 && v5.kinds().len() == 0 && v5.payload() == v5 && v5.key()
            == 5,
        v6.outgoings().len() == 0 && v6.kinds().len() == 0 && v6.payload() == v6 && v6.key()
            == 6,
        v7.outgoings().len() == 0 && v7.kinds().len() == 0 && v7.payload() == v7 && v7.key()
            == 7,
        v8.outgoings().len() == 0 && v8.kinds().len() == 0 && v8.payload() == v8 && v8.key()
            == 8,
        v9.outgoings().len() == 0 && v9.kinds().len() == 0 && v9.payload() == v9 && v9.key()
            == 9,
        v10.outgoings().len() == 0 && v10.kinds().len() == 0 && v10.payload() == v10 && v10.key()
            == 10,
        v11.outgoings().len() == 0 && v11.kinds().len() == 0 && v11.payload() == v11 && v11.key()
            == 11,
        v12.outgoings().len() == 0 && v12.kinds().len() == 0 && v12.payload() == v12 && v12.key()
            == 12,
        v13.outgoings().len() == 0 && v13.kinds().len() == 0 && v13.payload() == v13 && v13.key()
            == 13,
        v14.outgoings().len() == 0 && v14.kinds().len() == 0 && v14.payload() == v14 && v14.key()
            == 14,
        v15.outgoings().len() == 0 && v15.kinds().len() == 0 && v15.payload() == v15@ && v15.key()
            == 15,
        v16.outgoings().len() == 0 && v16.kinds().len() == 0 && v16.payload() == v16 && v16.key()
            == 16,
        v17.outgoings().len() == 0 && v17.kinds().len() == 0 && v17.payload() == v17 && v17.key()
            == 17,
        v18.outgoings().len() == 0 && v18.kinds().len() == 0 && v18.payload() == v18 && v18.key()
            == 18,
        v19.outgoings().len() == 0 && v19.kinds().len() == 0 && v19.payload() == v19 && v19.key()
            == 19,
        v20.outgoings().len() == 0 && v20.kinds().len() == 0 && v20.payload() == v20 && v20.key()
            == 20,
        v21.outgoings().len() == 0 && v21.kinds().len() == 0 && v21.payload() == v21 && v21.key()
            == 21,
        v22.outgoings().len() == 0 && v22.kinds().len() == 0 && v22.payload() == v22 && v22.key()
            == 22,
        v23.outgoings().len() == 0 && v23.kinds().len() == 0 && v23.payload() == v23 && v23.key()
            == 23,
        v24.outgoings().len() == 0 && v24.kinds().len() == 0 && v24.payload() == v24 && v24.key()
            == 24,
        v25.outgoings().len() == 0 && v25.kinds().len() == 0 && v25.payload() == v25 && v25.key()
            == 25,
        v26.outgoings().len() == 0 && v26.kinds().len() == 0 && v26.payload() == v26 && v26.key()
            == 26,
        v27.outgoings().len() == 0 && v27.kinds().len() == 0 && v27.payload() == v27 && v27.key()
            == 27,
        v28.outgoings().len() == 0 && v28.kinds().len() == 0 && v28.payload() == v28 && v28.key()
            == 28,
        v29.outgoings().len() == 0 && v29.kinds().len() == 0 && v29.payload() == v29 && v29.key()
            == 29,
{
}

} // verus!
