//! The word of a managed pointer: an address, two bits of metadata above it and a tag below it.

use crate::epoch::Color;
use crate::heap::ManObj;
use std::marker::PhantomData;
use vstd::prelude::*;
use vstd::std_specs::bits::u64_trailing_zeros;

verus! {

/// The two top bits: the metadata.
pub const META_BITS: u64 = 0xc000_0000_0000_0000;

pub const META_POS: u64 = 62;

/// The largest alignment that a type can have is two to the power of this.
pub const MAX_WIDTH: u64 = 29;

/// What a pointer is: a root, or an edge between objects, which has a color.
#[derive(Clone, Copy, Debug, PartialEq, Eq, Structural)]
pub enum PtrMeta {
    Rooted,
    Unrooted(Color),
}

/// The address in a pointer word whose tag is in the given bits. Zero is null.
pub open spec fn addr_in(low: u64, d: u64) -> u64 {
    d & 0x3fff_ffff_ffff_ffff & !low
}

/// The number of tag bits of a pointer to an object with an item of the type: as many as the
/// alignment of the object leaves free.
pub open spec fn tag_width<T>() -> u64 {
    let zeros = u64_trailing_zeros(vstd::layout::align_of::<ManObj<T>>() as u64);
    if zeros <= 29 {
        zeros as u64
    } else {
        29
    }
}

/// The tag bits of a pointer to an object with an item of the type.
pub open spec fn tag_bits<T>() -> u64 {
    !(0xffff_ffff_ffff_ffffu64 << tag_width::<T>())
}

/// The address in a pointer word. Zero is null.
pub open spec fn addr_of<T>(d: u64) -> u64 {
    addr_in(tag_bits::<T>(), d)
}

/// The tag in a pointer word.
pub open spec fn tag_of<T>(d: u64) -> u64 {
    d & tag_bits::<T>()
}

/// The metadata in a pointer word.
pub open spec fn meta_of(d: u64) -> PtrMeta {
    if d & 0x8000_0000_0000_0000 == 0 {
        PtrMeta::Rooted
    } else if d & 0x4000_0000_0000_0000 == 0 {
        PtrMeta::Unrooted(Color::C0)
    } else {
        PtrMeta::Unrooted(Color::C1)
    }
}

/// The word has one of the three forms of metadata.
pub open spec fn meta_valid(d: u64) -> bool {
    d & 0xc000_0000_0000_0000 != 0x4000_0000_0000_0000
}

/// The two metadata bits of a kind of pointer.
pub open spec fn meta_code(m: PtrMeta) -> u64 {
    match m {
        PtrMeta::Rooted => 0,
        PtrMeta::Unrooted(Color::C0) => 2,
        PtrMeta::Unrooted(Color::C1) => 3,
    }
}

/// The word with other metadata.
pub open spec fn set_meta(d: u64, m: PtrMeta) -> u64 {
    (meta_code(m) << 62) | (d & 0x3fff_ffff_ffff_ffff)
}

/// The word without metadata.
pub open spec fn clear_meta(d: u64) -> u64 {
    d & 0x3fff_ffff_ffff_ffff
}

/// The word with another tag, of which as much is kept as there are bits for.
pub open spec fn set_tag<T>(d: u64, tag: u64) -> u64 {
    (d & !tag_bits::<T>()) | (tag & tag_bits::<T>())
}

/// An address that an object can have.
pub open spec fn is_addr<T>(a: u64) -> bool {
    addr_of::<T>(a) == a
}

/// The word leads to the address and has as much of the tag as there are bits for.
pub open spec fn holds<T>(d: u64, a: u64, tag: u64) -> bool {
    addr_of::<T>(d) == a && tag_of::<T>(d) == tag & tag_bits::<T>()
}

/// The tag bits are the lowest ones, and not more than the largest alignment leaves free.
pub proof fn lemma_tag_bits<T>()
    ensures
        tag_width::<T>() <= MAX_WIDTH,
        tag_bits::<T>() == (1u64 << tag_width::<T>()) - 1,
        tag_bits::<T>() <= 0x1fff_ffff,
{
    let w = tag_width::<T>();
    assert(!(0xffff_ffff_ffff_ffffu64 << w) == (1u64 << w) - 1 && !(0xffff_ffff_ffff_ffffu64 << w)
        <= 0x1fff_ffff) by (bit_vector)
        requires
            w <= 29,
    ;
}

/// A word is that of an address and a tag if it leads there and has the tag.
pub proof fn lemma_holds<T>(d: u64, a: u64, tag: u64)
    requires
        is_addr::<T>(a),
    ensures
        holds::<T>(d, a, tag) == (clear_meta(d) == set_tag::<T>(a, tag)),
{
    lemma_tag_bits::<T>();
    let m = tag_bits::<T>();
    assert(((d & 0x3fff_ffff_ffff_ffff & !m == a && d & m == tag & m) == (d & 0x3fff_ffff_ffff_ffff
        == (a & !m) | (tag & m)))) by (bit_vector)
        requires
            m <= 0x1fff_ffff,
            a & 0x3fff_ffff_ffff_ffff & !m == a,
    ;
}

/// What changing the metadata of a pointer word does to the address, wherever the tag is.
pub proof fn lemma_meta(low: u64, d: u64)
    ensures
        forall|m: PtrMeta|
            #![trigger set_meta(d, m)]
            {
                &&& meta_of(set_meta(d, m)) == m
                &&& meta_valid(set_meta(d, m))
                &&& addr_in(low, set_meta(d, m)) == addr_in(low, d)
                &&& clear_meta(set_meta(d, m)) == clear_meta(d)
                &&& clear_meta(d) == set_meta(d, PtrMeta::Rooted)
            },
        meta_of(clear_meta(d)) == PtrMeta::Rooted,
        meta_valid(clear_meta(d)),
        addr_in(low, clear_meta(d)) == addr_in(low, d),
        clear_meta(clear_meta(d)) == clear_meta(d),
        addr_in(low, addr_in(low, d)) == addr_in(low, d),
        clear_meta(addr_in(low, d)) == addr_in(low, d),
        meta_of(addr_in(low, d)) == PtrMeta::Rooted,
        meta_valid(addr_in(low, d)),
{
    assert(forall|m: u64|
        m == 0 || m == 2 || m == 3 ==> {
            let e = #[trigger] ((m << 62) | (d & 0x3fff_ffff_ffff_ffff));
            &&& (e & 0x8000_0000_0000_0000 == 0) == (m == 0)
            &&& m != 0 ==> (e & 0x4000_0000_0000_0000 == 0) == (m == 2)
            &&& e & 0xc000_0000_0000_0000 != 0x4000_0000_0000_0000
            &&& e & 0x3fff_ffff_ffff_ffff & !low == d & 0x3fff_ffff_ffff_ffff & !low
            &&& e & 0x3fff_ffff_ffff_ffff == d & 0x3fff_ffff_ffff_ffff
        }) by (bit_vector);
    assert(({
        let e = d & 0x3fff_ffff_ffff_ffff;
        let a = d & 0x3fff_ffff_ffff_ffff & !low;
        &&& e & 0x8000_0000_0000_0000 == 0
        &&& e & 0xc000_0000_0000_0000 != 0x4000_0000_0000_0000
        &&& e & 0x3fff_ffff_ffff_ffff & !low == a
        &&& e & 0x3fff_ffff_ffff_ffff == e
        &&& e == (0u64 << 62) | e
        &&& a & 0x3fff_ffff_ffff_ffff & !low == a
        &&& a & 0x3fff_ffff_ffff_ffff == a
        &&& a & 0x8000_0000_0000_0000 == 0
        &&& a & 0xc000_0000_0000_0000 != 0x4000_0000_0000_0000
    })) by (bit_vector);
}

/// What changing the metadata of a pointer word does to the other fields.
pub proof fn lemma_word<T>(d: u64)
    ensures
        forall|m: PtrMeta|
            #![trigger set_meta(d, m)]
            {
                &&& meta_of(set_meta(d, m)) == m
                &&& meta_valid(set_meta(d, m))
                &&& addr_of::<T>(set_meta(d, m)) == addr_of::<T>(d)
                &&& tag_of::<T>(set_meta(d, m)) == tag_of::<T>(d)
                &&& clear_meta(set_meta(d, m)) == clear_meta(d)
                &&& clear_meta(d) == set_meta(d, PtrMeta::Rooted)
            },
        meta_of(clear_meta(d)) == PtrMeta::Rooted,
        meta_valid(clear_meta(d)),
        addr_of::<T>(clear_meta(d)) == addr_of::<T>(d),
        tag_of::<T>(clear_meta(d)) == tag_of::<T>(d),
        clear_meta(clear_meta(d)) == clear_meta(d),
        is_addr::<T>(addr_of::<T>(d)),
        tag_of::<T>(d) <= tag_bits::<T>() <= 0x1fff_ffff,
        tag_of::<T>(addr_of::<T>(d)) == 0,
        clear_meta(addr_of::<T>(d)) == addr_of::<T>(d),
        meta_of(addr_of::<T>(d)) == PtrMeta::Rooted,
        meta_valid(addr_of::<T>(d)),
        clear_meta(d) == addr_of::<T>(d) | tag_of::<T>(d),
{
    let low = tag_bits::<T>();
    lemma_tag_bits::<T>();
    lemma_meta(low, d);
    assert(forall|m: u64| #[trigger]
        ((m << 62) | (d & 0x3fff_ffff_ffff_ffff)) & low == d & low) by (bit_vector)
        requires
            low <= 0x1fff_ffff,
    ;
    assert(({
        let a = d & 0x3fff_ffff_ffff_ffff & !low;
        &&& (d & 0x3fff_ffff_ffff_ffff) & low == d & low
        &&& d & low <= low
        &&& a & low == 0
        &&& d & 0x3fff_ffff_ffff_ffff == a | (d & low)
    })) by (bit_vector)
        requires
            low <= 0x1fff_ffff,
    ;
}

/// What changing the tag of a pointer word does to the other fields.
pub proof fn lemma_tag<T>(d: u64, tag: u64)
    ensures
        meta_of(set_tag::<T>(d, tag)) == meta_of(d),
        meta_valid(set_tag::<T>(d, tag)) == meta_valid(d),
        addr_of::<T>(set_tag::<T>(d, tag)) == addr_of::<T>(d),
        tag_of::<T>(set_tag::<T>(d, tag)) == tag & tag_bits::<T>(),
        clear_meta(set_tag::<T>(d, tag)) == set_tag::<T>(clear_meta(d), tag),
        tag & tag_bits::<T>() <= tag_bits::<T>() <= 0x1fff_ffff,
        0 & tag_bits::<T>() == 0,
        set_tag::<T>(clear_meta(d), 0) == addr_of::<T>(d),
        set_tag::<T>(d, tag_of::<T>(d)) == d,
{
    lemma_tag_bits::<T>();
    let m = tag_bits::<T>();
    assert(({
        let t = (d & !m) | (tag & m);
        let e = d & 0x3fff_ffff_ffff_ffff;
        &&& t & 0x8000_0000_0000_0000 == d & 0x8000_0000_0000_0000
        &&& t & 0x4000_0000_0000_0000 == d & 0x4000_0000_0000_0000
        &&& t & 0xc000_0000_0000_0000 == d & 0xc000_0000_0000_0000
        &&& t & 0x3fff_ffff_ffff_ffff & !m == d & 0x3fff_ffff_ffff_ffff & !m
        &&& t & m == tag & m
        &&& t & 0x3fff_ffff_ffff_ffff == (e & !m) | (tag & m)
        &&& tag & m <= m
        &&& 0u64 & m == 0
        &&& (e & !m) | (0u64 & m) == d & 0x3fff_ffff_ffff_ffff & !m
        &&& (d & !m) | ((d & m) & m) == d
    })) by (bit_vector)
        requires
            m <= 0x1fff_ffff,
    ;
}

/// A pointer that is given a tag has as much of the tag as there are bits below the alignment of
/// its object, and is the same pointer otherwise. Given the tag that it has, it stays as it is.
pub proof fn law_tag_roundtrip<T>(p: ManPtr<T>, tag: u64)
    ensures
        tag_of::<T>(set_tag::<T>(p.data, tag)) == tag & tag_bits::<T>(),
        addr_of::<T>(set_tag::<T>(p.data, tag)) == addr_of::<T>(p.data),
        meta_of(set_tag::<T>(p.data, tag)) == meta_of(p.data),
        set_tag::<T>(p.data, tag_of::<T>(p.data)) == p.data,
        set_tag::<T>(set_tag::<T>(p.data, tag), tag_of::<T>(p.data)) == p.data,
{
    let d = p.data;
    lemma_tag::<T>(d, tag);
    lemma_tag::<T>(set_tag::<T>(d, tag), tag_of::<T>(d));
    let m = tag_bits::<T>();
    assert((((d & !m) | (tag & m)) & !m) | ((d & m) & m) == d) by (bit_vector);
}

/// A pointer word is the sum of its three fields: two words that agree in the address, the tag
/// and the metadata are equal.
pub proof fn law_word_fields<T>(a: u64, b: u64)
    requires
        meta_valid(a),
        meta_valid(b),
        addr_of::<T>(a) == addr_of::<T>(b),
        tag_of::<T>(a) == tag_of::<T>(b),
        meta_of(a) == meta_of(b),
    ensures
        a == b,
{
    lemma_word::<T>(a);
    lemma_word::<T>(b);
    lemma_same_word(a, b);
}

/// Two words that agree in the metadata and in all else are equal.
proof fn lemma_same_word(a: u64, b: u64)
    requires
        meta_valid(a),
        meta_valid(b),
        clear_meta(a) == clear_meta(b),
        meta_of(a) == meta_of(b),
    ensures
        a == b,
{
    assert(a == b) by (bit_vector)
        requires
            a & 0xc000_0000_0000_0000 != 0x4000_0000_0000_0000,
            b & 0xc000_0000_0000_0000 != 0x4000_0000_0000_0000,
            a & 0x3fff_ffff_ffff_ffff == b & 0x3fff_ffff_ffff_ffff,
            (a & 0x8000_0000_0000_0000 == 0) == (b & 0x8000_0000_0000_0000 == 0),
            a & 0x8000_0000_0000_0000 != 0 ==> (a & 0x4000_0000_0000_0000 == 0) == (b
                & 0x4000_0000_0000_0000 == 0),
    ;
}

/// An edge that is given the color it has stays as it is.
pub proof fn lemma_same_meta(d: u64, c: Color)
    requires
        meta_of(d) == PtrMeta::Unrooted(c),
    ensures
        set_meta(d, PtrMeta::Unrooted(c)) == d,
        meta_valid(d),
{
    assert(d & 0x8000_0000_0000_0000 != 0 ==> d & 0xc000_0000_0000_0000 != 0x4000_0000_0000_0000)
        by (bit_vector);
    lemma_meta(0, d);
    lemma_same_word(set_meta(d, PtrMeta::Unrooted(c)), d);
}

/// Null words: no address, and no metadata or tag unless given.
pub proof fn lemma_null_word<T>(tag: u64)
    ensures
        addr_of::<T>(0) == 0,
        tag_of::<T>(0) == 0,
        meta_of(0) == PtrMeta::Rooted,
        meta_valid(0),
        addr_of::<T>(set_tag::<T>(0, tag)) == 0,
        tag_of::<T>(set_tag::<T>(0, tag)) == tag & tag_bits::<T>(),
        meta_of(set_tag::<T>(0, tag)) == PtrMeta::Rooted,
        meta_valid(set_tag::<T>(0, tag)),
        tag & tag_bits::<T>() == set_tag::<T>(0, tag),
        set_tag::<T>(0, 0) == 0,
        holds::<T>(0, 0, 0),
{
    let m = tag_bits::<T>();
    lemma_tag::<T>(0, tag);
    assert(0u64 & 0x3fff_ffff_ffff_ffff & !m == 0 && 0u64 & m == 0 && 0u64 & 0x8000_0000_0000_0000
        == 0 && 0u64 & 0xc000_0000_0000_0000 == 0 && tag & m == (0u64 & !m) | (tag & m) && (0u64
        & !m) | (0u64 & m) == 0) by (bit_vector);
}

/// A pointer word. It has to be stripped of its metadata and its tag before it names an object.
pub struct ManPtr<T> {
    pub data: u64,
    pub marker: PhantomData<T>,
}

impl<T> Clone for ManPtr<T> {
    fn clone(&self) -> (r: Self)
        ensures
            r == *self,
    {
        *self
    }
}

impl<T> Copy for ManPtr<T> {

}

impl<T> vstd::std_specs::cmp::PartialEqSpecImpl for ManPtr<T> {
    open spec fn obeys_eq_spec() -> bool {
        true
    }

    open spec fn eq_spec(&self, other: &Self) -> bool {
        self.data == other.data
    }
}

impl<T> PartialEq for ManPtr<T> {
    fn eq(&self, other: &Self) -> (r: bool) {
        self.data == other.data
    }
}

impl<T> Eq for ManPtr<T> {

}

impl<T> ManPtr<T> {
    /// How many tag bits there are: as many as the alignment of an object leaves free.
    pub fn low_width() -> (r: u64)
        ensures
            r == tag_width::<T>(),
            r <= MAX_WIDTH,
    {
        let align: u64 = core::mem::align_of::<ManObj<T>>() as u64;
        let zeros: u32 = align.trailing_zeros();
        if zeros <= 29 {
            zeros as u64
        } else {
            29
        }
    }

    /// The tag bits: those below the alignment of an object.
    pub fn low_bits() -> (r: u64)
        ensures
            r == tag_bits::<T>(),
    {
        let width: u64 = Self::low_width();
        !(0xffff_ffff_ffff_ffffu64 << width)
    }

    /// A pointer with the given word.
    pub fn from(data: u64) -> (r: Self)
        ensures
            r.data == data,
    {
        ManPtr { data, marker: PhantomData }
    }

    /// Null, without metadata.
    pub fn null_base() -> (r: Self)
        ensures
            r.data == 0,
            addr_of::<T>(r.data) == 0,
            tag_of::<T>(r.data) == 0,
    {
        proof {
            lemma_null_word::<T>(0);
        }
        Self::from(0)
    }

    /// A rooted null.
    pub fn null_rooted() -> (r: Self)
        ensures
            r.data == 0,
            addr_of::<T>(r.data) == 0,
            tag_of::<T>(r.data) == 0,
            meta_of(r.data) == PtrMeta::Rooted,
    {
        proof {
            lemma_null_word::<T>(0);
        }
        Self::from(0)
    }

    /// A rooted null with a tag.
    pub fn null_rooted_with_tag(tag: u64) -> (r: Self)
        ensures
            r.data == set_tag::<T>(0, tag),
            addr_of::<T>(r.data) == 0,
            tag_of::<T>(r.data) == tag & tag_bits::<T>(),
            meta_of(r.data) == PtrMeta::Rooted,
            meta_valid(r.data),
    {
        proof {
            lemma_null_word::<T>(tag);
        }
        Self::from(tag & Self::low_bits())
    }

    /// The metadata.
    pub fn meta(self) -> (r: PtrMeta)
        ensures
            r == meta_of(self.data),
    {
        let bits: u64 = self.data;
        if bits & 0x8000_0000_0000_0000 == 0 {
            PtrMeta::Rooted
        } else {
            PtrMeta::Unrooted(Color::from(bits & 0x4000_0000_0000_0000))
        }
    }

    /// The same pointer with other metadata.
    pub fn with_meta(self, meta: PtrMeta) -> (r: Self)
        ensures
            r.data == set_meta(self.data, meta),
            meta_of(r.data) == meta,
            meta_valid(r.data),
            addr_of::<T>(r.data) == addr_of::<T>(self.data),
            tag_of::<T>(r.data) == tag_of::<T>(self.data),
    {
        let code: u64 = match meta {
            PtrMeta::Rooted => 0,
            PtrMeta::Unrooted(c) => match c {
                Color::C0 => 2,
                Color::C1 => 3,
            },
        };
        proof {
            lemma_word::<T>(self.data);
            assert(code == meta_code(meta));
            assert(meta_of(set_meta(self.data, meta)) == meta);
            assert(!0xc000_0000_0000_0000u64 == 0x3fff_ffff_ffff_ffffu64) by (bit_vector);
        }
        let without: u64 = self.data & !META_BITS;
        Self::from((code << META_POS) | without)
    }

    /// The same pointer without metadata.
    pub fn without_meta(self) -> (r: Self)
        ensures
            r.data == clear_meta(self.data),
            addr_of::<T>(r.data) == addr_of::<T>(self.data),
            tag_of::<T>(r.data) == tag_of::<T>(self.data),
    {
        proof {
            lemma_word::<T>(self.data);
            assert(!0xc000_0000_0000_0000u64 == 0x3fff_ffff_ffff_ffffu64) by (bit_vector);
        }
        Self::from(self.data & !META_BITS)
    }

    /// The address of the object, or zero.
    pub fn as_ptr(self) -> (r: u64)
        ensures
            r == addr_of::<T>(self.data),
            is_addr::<T>(r),
    {
        proof {
            lemma_word::<T>(self.data);
            assert(!0xc000_0000_0000_0000u64 == 0x3fff_ffff_ffff_ffffu64) by (bit_vector);
        }
        self.data & !META_BITS & !Self::low_bits()
    }

    /// The tag.
    pub fn tag(self) -> (r: u64)
        ensures
            r == tag_of::<T>(self.data),
            r <= tag_bits::<T>(),
    {
        proof {
            lemma_word::<T>(self.data);
        }
        self.data & Self::low_bits()
    }

    /// The same pointer with another tag, of which the bits below the alignment of the object are
    /// kept.
    pub fn with_tag(self, tag: u64) -> (r: Self)
        ensures
            r.data == set_tag::<T>(self.data, tag),
            addr_of::<T>(r.data) == addr_of::<T>(self.data),
            meta_of(r.data) == meta_of(self.data),
            meta_valid(r.data) == meta_valid(self.data),
            tag_of::<T>(r.data) == tag & tag_bits::<T>(),
            tag == tag_of::<T>(self.data) ==> r == self,
    {
        proof {
            lemma_tag::<T>(self.data, tag);
        }
        Self::from((self.data & !Self::low_bits()) | (tag & Self::low_bits()))
    }

    /// Returns `true` if the pointer names no object.
    pub fn is_null(self) -> (r: bool)
        ensures
            r == (addr_of::<T>(self.data) == 0),
    {
        self.as_ptr() == 0
    }
}

} // verus!
