//! A value with managed pointers, for data structures that need no type of their own.

use crate::pointers::{AtomicShared, AtomicSharedOption, Shared};
use crate::trace::{LinkKind, TraceObj};
use vstd::prelude::*;

verus! {

/// A managed pointer that is to be part of an object.
pub enum Field<T> {
    Nullable(AtomicSharedOption<T>),
    NonNull(AtomicShared<T>),
    Fixed(Shared<T>),
}

impl<T> Field<T> {
    /// The word of the pointer.
    pub open spec fn word(self) -> u64 {
        match self {
            Field::Nullable(ptr) => ptr.link,
            Field::NonNull(ptr) => ptr.inner.link,
            Field::Fixed(ptr) => ptr.word(),
        }
    }

    /// The kind of the pointer.
    pub open spec fn kind(self) -> LinkKind {
        match self {
            Field::Nullable(_) => LinkKind::Nullable,
            Field::NonNull(_) => LinkKind::NonNull,
            Field::Fixed(_) => LinkKind::Fixed,
        }
    }

    /// The word and the kind of the pointer.
    pub fn parts(&self) -> (r: (u64, LinkKind))
        ensures
            r == (self.word(), self.kind()),
    {
        match self {
            Field::Nullable(ptr) => (ptr.link, LinkKind::Nullable),
            Field::NonNull(ptr) => (ptr.inner.link, LinkKind::NonNull),
            Field::Fixed(ptr) => (ptr.inner.inner.link, LinkKind::Fixed),
        }
    }
}

/// A value and the managed pointers that go with it.
pub struct Record<P> {
    /// Tells kinds of records in one heap apart.
    pub kind: u64,
    pub value: P,
    /// The words of the pointers.
    pub links: Vec<u64>,
    /// The kinds of the first pointers. The others may be null.
    pub kinds: Vec<LinkKind>,
}

impl<P> Record<P> {
    /// The kind of a pointer.
    pub open spec fn kind_at(self, i: int) -> LinkKind {
        if i < self.kinds@.len() {
            self.kinds@[i]
        } else {
            LinkKind::Nullable
        }
    }

    /// A record with a value and pointers that may be null, which are part of it from now on.
    pub fn new(value: P, edges: Vec<AtomicSharedOption<Record<P>>>) -> (r: Self)
        ensures
            r.kind == 0,
            r.value == value,
            r.links@ == Seq::new(edges@.len(), |i: int| edges@[i].link),
            r.kinds() == Seq::new(edges@.len(), |i: int| LinkKind::Nullable),
            // The pointers are those that were given, at their own places.
            r.outgoings().len() == edges@.len(),
            forall|i: int| 0 <= i < edges@.len() ==> #[trigger] r.outgoings()[i] == edges@[i].link,
            r.payload() == value,
    {
        Self::with_kind(0, value, edges)
    }

    /// A record of a given kind.
    pub fn with_kind(kind: u64, value: P, edges: Vec<AtomicSharedOption<Record<P>>>) -> (r: Self)
        ensures
            r.kind == kind,
            r.value == value,
            r.links@ == Seq::new(edges@.len(), |i: int| edges@[i].link),
            r.kinds() == Seq::new(edges@.len(), |i: int| LinkKind::Nullable),
            // The pointers are those that were given, at their own places.
            r.outgoings().len() == edges@.len(),
            forall|i: int| 0 <= i < edges@.len() ==> #[trigger] r.outgoings()[i] == edges@[i].link,
            r.payload() == value,
    {
        let mut links: Vec<u64> = Vec::new();
        let mut i: usize = 0;
        while i < edges.len()
            invariant
                i <= edges@.len(),
                links@ == Seq::new(i as nat, |k: int| edges@[k].link),
            decreases edges@.len() - i,
        {
            links.push(edges[i].link);
            i = i + 1;
            assert(links@ =~= Seq::new(i as nat, |k: int| edges@[k].link));
        }
        let r = Record { kind, value, links, kinds: Vec::new() };
        assert(r.kinds() =~= Seq::new(edges@.len(), |i: int| LinkKind::Nullable));
        r
    }

    /// A record of a given kind with pointers of any kinds.
    pub fn with_fields(kind: u64, value: P, fields: Vec<Field<Record<P>>>) -> (r: Self)
        ensures
            r.kind == kind,
            r.value == value,
            r.links@ == Seq::new(fields@.len(), |i: int| fields@[i].word()),
            r.kinds() == Seq::new(fields@.len(), |i: int| fields@[i].kind()),
            // The pointers are those that were given, at their own places and of their own kinds.
            r.outgoings().len() == fields@.len(),
            forall|i: int|
                0 <= i < fields@.len() ==> #[trigger] r.outgoings()[i] == (match fields@[i] {
                    Field::Nullable(ptr) => ptr.link,
                    Field::NonNull(ptr) => ptr.inner.link,
                    Field::Fixed(ptr) => ptr.inner.inner.link,
                }),
            forall|i: int|
                0 <= i < fields@.len() ==> #[trigger] r.kinds()[i] == (match fields@[i] {
                    Field::Nullable(_) => LinkKind::Nullable,
                    Field::NonNull(_) => LinkKind::NonNull,
                    Field::Fixed(_) => LinkKind::Fixed,
                }),
            r.payload() == value,
    {
        let mut links: Vec<u64> = Vec::new();
        let mut kinds: Vec<LinkKind> = Vec::new();
        let mut i: usize = 0;
        while i < fields.len()
            invariant
                i <= fields@.len(),
                links@ == Seq::new(i as nat, |k: int| fields@[k].word()),
                kinds@ == Seq::new(i as nat, |k: int| fields@[k].kind()),
            decreases fields@.len() - i,
        {
            let (word, of) = fields[i].parts();
            links.push(word);
            kinds.push(of);
            i = i + 1;
            assert(links@ =~= Seq::new(i as nat, |k: int| fields@[k].word()));
            assert(kinds@ =~= Seq::new(i as nat, |k: int| fields@[k].kind()));
        }
        let r = Record { kind, value, links, kinds };
        assert(r.kinds() =~= Seq::new(fields@.len(), |i: int| fields@[i].kind()));
        r
    }
}

impl<P> TraceObj for Record<P> {
    type Payload = P;

    open spec fn payload(&self) -> P {
        self.value
    }

    open spec fn outgoings(&self) -> Seq<u64> {
        self.links@
    }

    open spec fn kinds(&self) -> Seq<LinkKind> {
        Seq::new(self.links@.len(), |i: int| self.kind_at(i))
    }

    open spec fn key(&self) -> u64 {
        self.kind
    }

    fn type_key(&self) -> (r: u64) {
        self.kind
    }

    fn outgoing_count(&self) -> (r: usize) {
        self.links.len()
    }

    fn outgoing(&self, i: usize) -> (r: u64) {
        self.links[i]
    }

    fn outgoing_kind(&self, i: usize) -> (r: LinkKind) {
        if i < self.kinds.len() {
            self.kinds[i]
        } else {
            LinkKind::Nullable
        }
    }

    fn set_outgoing(&mut self, i: usize, word: u64) {
        self.links[i] = word;
        assert(self.kinds() =~= old(self).kinds());
    }
}

/// A record is its parts: its pointers are the words it holds, each at its place, and their kinds
/// are those it holds, as far as there are any.
pub proof fn law_records_are_their_parts<P>(r: Record<P>, i: int)
    ensures
        r.outgoings().len() == r.links@.len(),
        r.kinds().len() == r.links@.len(),
        r.payload() == r.value,
        r.key() == r.kind,
        0 <= i < r.links@.len() ==> r.outgoings()[i] == r.links@[i],
        0 <= i < r.links@.len() && i < r.kinds@.len() ==> r.kinds()[i] == r.kinds@[i],
        0 <= i < r.links@.len() && i >= r.kinds@.len() ==> r.kinds()[i] == LinkKind::Nullable,
{
}

/// A record that is built has, for any number of pointers, the word of each one at its place.
pub proof fn law_built_records_lead_where_they_were_given<P>(
    value: P,
    edges: Vec<AtomicSharedOption<Record<P>>>,
    r: Record<P>,
    kind: u64,
)
    requires
        call_ensures(Record::<P>::new, (value, edges), r) || call_ensures(
            Record::<P>::with_kind,
            (kind, value, edges),
            r,
        ),
    ensures
        r.value == value,
        r.links@.len() == edges@.len(),
        r.outgoings().len() == edges@.len(),
        forall|i: int|
            0 <= i < edges@.len() ==> #[trigger] r.outgoings()[i] == edges@[i].link && r.links@[i]
                == edges@[i].link && r.kinds()[i] == LinkKind::Nullable,
{
}

/// The same of a record that is built with pointers of any kinds.
pub proof fn law_built_fields_lead_where_they_were_given<P>(
    value: P,
    fields: Vec<Field<Record<P>>>,
    r: Record<P>,
    kind: u64,
)
    requires
        call_ensures(Record::<P>::with_fields, (kind, value, fields), r),
    ensures
        r.value == value,
        r.kind == kind,
        r.outgoings().len() == fields@.len(),
        r.kinds().len() == fields@.len(),
        forall|i: int|
            0 <= i < fields@.len() ==> match #[trigger] fields@[i] {
                Field::Nullable(ptr) => r.outgoings()[i] == ptr.link && r.links@[i] == ptr.link
                    && r.kinds()[i] == LinkKind::Nullable,
                Field::NonNull(ptr) => r.outgoings()[i] == ptr.inner.link && r.links@[i]
                    == ptr.inner.link && r.kinds()[i] == LinkKind::NonNull,
                Field::Fixed(ptr) => r.outgoings()[i] == ptr.inner.inner.link && r.links@[i]
                    == ptr.inner.inner.link && r.kinds()[i] == LinkKind::Fixed,
            },
{
    assert forall|i: int| 0 <= i < fields@.len() implies match #[trigger] fields@[i] {
        Field::Nullable(ptr) => r.outgoings()[i] == ptr.link && r.links@[i] == ptr.link
            && r.kinds()[i] == LinkKind::Nullable,
        Field::NonNull(ptr) => r.outgoings()[i] == ptr.inner.link && r.links@[i] == ptr.inner.link
            && r.kinds()[i] == LinkKind::NonNull,
        Field::Fixed(ptr) => r.outgoings()[i] == ptr.inner.inner.link && r.links@[i]
            == ptr.inner.inner.link && r.kinds()[i] == LinkKind::Fixed,
    } by {
        assert(r.outgoings()[i] == r.links@[i]);
        assert(r.kinds()[i] == fields@[i].kind());
    }
}

} // verus!
