//! The header word of a managed object: its color, the number of its type and its root count.

use crate::epoch::Color;
use vstd::prelude::*;

verus! {

/// Maximum number of distinct managed types.
pub const MAX_TYPE_ID: usize = 256;

/// Bit 63: the color.
pub const COLOR_SHIFT: u64 = 63;

pub const COLOR_MASK: u64 = 0x8000_0000_0000_0000;

/// Bits 55 to 62: the type number.
pub const TYPE_ID_SHIFT: u64 = 55;

pub const TYPE_ID_MASK: u64 = 0x7f80_0000_0000_0000;

/// Bits 0 to 54: the root count.
pub const ROOT_COUNT_MASK: u64 = 0x007f_ffff_ffff_ffff;

/// A header word.
#[derive(Clone, Copy, Debug, PartialEq, Eq, Structural)]
pub struct ObjMeta(pub u64);

impl ObjMeta {
    pub open spec fn color_bits(self) -> u64 {
        self.0 >> 63
    }

    pub open spec fn tid_bits(self) -> u64 {
        (self.0 & 0x7f80_0000_0000_0000) >> 55
    }

    /// The color field.
    pub open spec fn color(self) -> Color {
        if self.color_bits() == 0 {
            Color::C0
        } else {
            Color::C1
        }
    }

    /// The type number field.
    pub open spec fn tid(self) -> u8 {
        self.tid_bits() as u8
    }

    /// The root count field.
    pub open spec fn rc(self) -> u64 {
        self.0 & 0x007f_ffff_ffff_ffff
    }

    /// A header of the first type.
    pub fn new(marked: Color, root_count: u64) -> (r: Self)
        requires
            root_count <= ROOT_COUNT_MASK,
        ensures
            r.color() == marked,
            r.rc() == root_count,
            r.tid() == 0,
    {
        Self::new_with_type_id(marked, root_count, 0)
    }

    /// A header.
    pub fn new_with_type_id(marked: Color, root_count: u64, type_id: u8) -> (r: Self)
        requires
            root_count <= ROOT_COUNT_MASK,
        ensures
            r.color() == marked,
            r.rc() == root_count,
            r.tid() == type_id,
    {
        let c: u64 = marked.number();
        let t: u64 = type_id as u64;
        proof {
            lemma_pack(c, root_count, t);
        }
        ObjMeta((c << COLOR_SHIFT) | (t << TYPE_ID_SHIFT) | (root_count & ROOT_COUNT_MASK))
    }

    /// The type number.
    pub fn type_id(self) -> (r: u8)
        ensures
            r == self.tid(),
    {
        ((self.0 & TYPE_ID_MASK) >> TYPE_ID_SHIFT) as u8
    }

    /// The color.
    pub fn marked(self) -> (r: Color)
        ensures
            r == self.color(),
    {
        Color::from(self.0 >> COLOR_SHIFT)
    }

    /// The same header in another color.
    pub fn with_marked(self, color: Color) -> (r: Self)
        ensures
            r.color() == color,
            r.tid() == self.tid(),
            r.rc() == self.rc(),
    {
        let c: u64 = color.number();
        proof {
            lemma_recolor(self.0, c);
        }
        let cleared: u64 = self.0 & !COLOR_MASK;
        ObjMeta(cleared | (c << COLOR_SHIFT))
    }

    /// The root count.
    pub fn root_count(self) -> (r: u64)
        ensures
            r == self.rc(),
            r <= ROOT_COUNT_MASK,
    {
        let d: u64 = self.0;
        assert(d & 0x007f_ffff_ffff_ffff <= 0x007f_ffff_ffff_ffff) by (bit_vector);
        self.0 & ROOT_COUNT_MASK
    }
}

impl Default for ObjMeta {
    /// A header of the first type and the first color, with no roots.
    fn default() -> (r: Self)
        ensures
            r.color() == Color::C0,
            r.rc() == 0,
            r.tid() == 0,
    {
        Self::new(Color::C0, 0)
    }
}

proof fn lemma_pack(c: u64, rc: u64, t: u64)
    requires
        c <= 1,
        rc <= ROOT_COUNT_MASK,
        t < 256,
    ensures
        ({
            let d = (c << 63) | (t << 55) | (rc & 0x007f_ffff_ffff_ffff);
            &&& d >> 63 == c
            &&& (d & 0x7f80_0000_0000_0000) >> 55 == t
            &&& d & 0x007f_ffff_ffff_ffff == rc
        }),
{
    let d = (c << 63) | (t << 55) | (rc & 0x007f_ffff_ffff_ffff);
    assert(d >> 63 == c && (d & 0x7f80_0000_0000_0000) >> 55 == t && d & 0x007f_ffff_ffff_ffff
        == rc) by (bit_vector)
        requires
            c <= 1,
            rc <= 0x007f_ffff_ffff_ffff,
            t < 256,
            d == (c << 63) | (t << 55) | (rc & 0x007f_ffff_ffff_ffff),
    ;
}

proof fn lemma_recolor(d: u64, c: u64)
    requires
        c <= 1,
    ensures
        ({
            let e = (d & !0x8000_0000_0000_0000u64) | (c << 63);
            &&& e >> 63 == c
            &&& (e & 0x7f80_0000_0000_0000) >> 55 == (d & 0x7f80_0000_0000_0000) >> 55
            &&& e & 0x007f_ffff_ffff_ffff == d & 0x007f_ffff_ffff_ffff
        }),
{
    let e = (d & !0x8000_0000_0000_0000u64) | (c << 63);
    assert(e >> 63 == c && (e & 0x7f80_0000_0000_0000) >> 55 == (d & 0x7f80_0000_0000_0000) >> 55
        && e & 0x007f_ffff_ffff_ffff == d & 0x007f_ffff_ffff_ffff) by (bit_vector)
        requires
            c <= 1,
            e == (d & !0x8000_0000_0000_0000u64) | (c << 63),
    ;
}

/// A step of one in the root count leaves the other fields of a header alone.
proof fn lemma_count_step(d: u64)
    ensures
        d & 0x007f_ffff_ffff_ffff < 0x007f_ffff_ffff_ffff ==> {
            &&& d < 0xffff_ffff_ffff_ffff
            &&& ObjMeta((d + 1) as u64).color() == ObjMeta(d).color()
            &&& ObjMeta((d + 1) as u64).tid() == ObjMeta(d).tid()
            &&& ObjMeta((d + 1) as u64).rc() == ObjMeta(d).rc() + 1
        },
        d & 0x007f_ffff_ffff_ffff > 0 ==> {
            &&& d > 0
            &&& ObjMeta((d - 1) as u64).color() == ObjMeta(d).color()
            &&& ObjMeta((d - 1) as u64).tid() == ObjMeta(d).tid()
            &&& ObjMeta((d - 1) as u64).rc() == ObjMeta(d).rc() - 1
        },
{
    if d & 0x007f_ffff_ffff_ffff < 0x007f_ffff_ffff_ffff {
        assert(d < 0xffff_ffff_ffff_ffff) by (bit_vector)
            requires
                d & 0x007f_ffff_ffff_ffff < 0x007f_ffff_ffff_ffff,
        ;
        let e: u64 = (d + 1) as u64;
        assert(e >> 63 == d >> 63 && e & 0x7f80_0000_0000_0000 == d & 0x7f80_0000_0000_0000 && e
            & 0x007f_ffff_ffff_ffff == (d & 0x007f_ffff_ffff_ffff) + 1) by (bit_vector)
            requires
                d & 0x007f_ffff_ffff_ffff < 0x007f_ffff_ffff_ffff,
                e == d + 1,
        ;
    }
    if d & 0x007f_ffff_ffff_ffff > 0 {
        assert(d > 0) by (bit_vector)
            requires
                d & 0x007f_ffff_ffff_ffff > 0,
        ;
        let e: u64 = (d - 1) as u64;
        assert(e >> 63 == d >> 63 && e & 0x7f80_0000_0000_0000 == d & 0x7f80_0000_0000_0000 && (e
            & 0x007f_ffff_ffff_ffff) + 1 == d & 0x007f_ffff_ffff_ffff) by (bit_vector)
            requires
                d & 0x007f_ffff_ffff_ffff > 0,
                e + 1 == d,
        ;
    }
}

/// A header in place.
#[derive(Debug)]
pub struct AtomicObjMeta(pub ObjMeta);

impl AtomicObjMeta {
    /// A header of the first type.
    pub fn new(marked: Color, root_count: u64) -> (r: Self)
        requires
            root_count <= ROOT_COUNT_MASK,
        ensures
            r.0.color() == marked,
            r.0.rc() == root_count,
            r.0.tid() == 0,
    {
        AtomicObjMeta(ObjMeta::new(marked, root_count))
    }

    /// The current header.
    pub fn load(&self) -> (r: ObjMeta)
        ensures
            r == self.0,
    {
        self.0
    }

    /// Adds one to the root count and returns what it was.
    pub fn increment_root_count(&mut self) -> (r: u64)
        requires
            old(self).0.rc() < ROOT_COUNT_MASK,
        ensures
            r == old(self).0.rc(),
            final(self).0.rc() == old(self).0.rc() + 1,
            final(self).0.color() == old(self).0.color(),
            final(self).0.tid() == old(self).0.tid(),
    {
        let meta: ObjMeta = self.0;
        proof {
            lemma_count_step(meta.0);
        }
        self.0 = ObjMeta(meta.0 + 1);
        meta.root_count()
    }

    /// Takes one off the root count and returns what it was.
    pub fn decrement_root_count(&mut self) -> (r: u64)
        requires
            old(self).0.rc() > 0,
        ensures
            r == old(self).0.rc(),
            final(self).0.rc() == old(self).0.rc() - 1,
            final(self).0.color() == old(self).0.color(),
            final(self).0.tid() == old(self).0.tid(),
    {
        let meta: ObjMeta = self.0;
        proof {
            lemma_count_step(meta.0);
        }
        self.0 = ObjMeta(meta.0 - 1);
        meta.root_count()
    }

    /// Gives the header the black color.
    pub fn mark(&mut self, black: Color)
        ensures
            final(self).0.color() == black,
            final(self).0.tid() == old(self).0.tid(),
            final(self).0.rc() == old(self).0.rc(),
            old(self).0.color() == black ==> *final(self) == *old(self),
    {
        let meta: ObjMeta = self.0;
        if meta.marked() != black {
            self.0 = meta.with_marked(black);
        }
    }
}

impl Default for AtomicObjMeta {
    /// A header of the first type and the first color, with no roots.
    fn default() -> (r: Self)
        ensures
            r.0.color() == Color::C0,
            r.0.rc() == 0,
            r.0.tid() == 0,
    {
        AtomicObjMeta(ObjMeta::default())
    }
}

impl vstd::std_specs::convert::FromSpecImpl<u64> for ObjMeta {
    open spec fn obeys_from_spec() -> bool {
        true
    }

    open spec fn from_spec(v: u64) -> Self {
        ObjMeta(v)
    }
}

impl From<u64> for ObjMeta {
    fn from(value: u64) -> (r: Self) {
        ObjMeta(value)
    }
}

impl vstd::std_specs::convert::FromSpecImpl<ObjMeta> for AtomicObjMeta {
    open spec fn obeys_from_spec() -> bool {
        true
    }

    open spec fn from_spec(v: ObjMeta) -> Self {
        AtomicObjMeta(v)
    }
}

impl From<ObjMeta> for AtomicObjMeta {
    fn from(value: ObjMeta) -> (r: Self) {
        AtomicObjMeta(value)
    }
}

/// A header is the sum of its three fields: two headers that agree in all of them are equal.
pub proof fn law_obj_meta_fields(a: ObjMeta, b: ObjMeta)
    requires
        a.color() == b.color(),
        a.tid() == b.tid(),
        a.rc() == b.rc(),
    ensures
        a == b,
{
    let x = a.0;
    let y = b.0;
    assert(x == y) by (bit_vector)
        requires
            (x >> 63 == 0) == (y >> 63 == 0),
            ((x & 0x7f80_0000_0000_0000) >> 55) as u8 == ((y & 0x7f80_0000_0000_0000) >> 55) as u8,
            x & 0x007f_ffff_ffff_ffff == y & 0x007f_ffff_ffff_ffff,
    ;
}

} // verus!
