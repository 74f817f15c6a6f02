//! The global epoch: one word that packs the pinned flag, the phase, the white color and a
//! timestamp.

use vstd::prelude::*;

verus! {

/// Bit 0: set if pinned.
pub const PINNED_BIT: u64 = 0b1;

/// Bits 1 and 2: the phase number.
pub const PHASE_NUMBER_BITS: u64 = 0b110;

pub const PHASE_NUMBER_POS: u64 = 1;

/// Bit 3: the white color.
pub const COLOR_BIT: u64 = 0b1000;

pub const COLOR_POS: u64 = 3;

/// The remaining bits: the timestamp.
pub const TIMESTAMP_BITS: u64 = 0xffff_ffff_ffff_fff0;

pub const TIMESTAMP_POS: u64 = 4;

/// Timestamps are kept modulo this number.
pub const TIMESTAMP_LIMIT: u64 = 0x1000_0000_0000_0000;

/// The phase of a collection cycle.
#[derive(Clone, Copy, Debug, PartialEq, Eq, Structural)]
pub enum Phase {
    /// Normal phase.
    N,
    /// Root tracing phase.
    RT,
    /// Completion tracing phase.
    CT,
}

impl Phase {
    /// The number that stands for the phase in an epoch word.
    pub open spec fn code(self) -> u64 {
        match self {
            Phase::N => 0,
            Phase::RT => 1,
            Phase::CT => 2,
        }
    }

    /// The phase with the given number.
    pub fn from(value: u64) -> (r: Self)
        requires
            value <= 2,
        ensures
            r.code() == value,
    {
        match value {
            0 => Phase::N,
            1 => Phase::RT,
            _ => Phase::CT,
        }
    }

    /// The number of the phase.
    pub fn number(self) -> (r: u64)
        ensures
            r == self.code(),
            r <= 2,
    {
        match self {
            Phase::N => 0,
            Phase::RT => 1,
            Phase::CT => 2,
        }
    }
}

/// One of the two object colors. Which of them is white is a matter of the epoch.
#[derive(Clone, Copy, Debug, PartialEq, Eq, Structural)]
pub enum Color {
    C0,
    C1,
}

impl Color {
    /// The number that stands for the color in a header or an epoch word.
    pub open spec fn code(self) -> u64 {
        match self {
            Color::C0 => 0,
            Color::C1 => 1,
        }
    }

    /// The other color.
    pub open spec fn flipped(self) -> Color {
        match self {
            Color::C0 => Color::C1,
            Color::C1 => Color::C0,
        }
    }

    /// The color of a bit: zero is `C0`, everything else is `C1`.
    pub fn from(value: u64) -> (r: Self)
        ensures
            r == (if value == 0 { Color::C0 } else { Color::C1 }),
    {
        if value == 0 {
            Color::C0
        } else {
            Color::C1
        }
    }

    /// The number of the color, as a bit of a word.
    pub fn number(self) -> (r: u64)
        ensures
            r == self.code(),
            r < 2,
    {
        match self {
            Color::C0 => 0,
            Color::C1 => 1,
        }
    }

    /// The index of the color in a table by color.
    pub fn index(self) -> (r: usize)
        ensures
            r == self.code(),
            r < 2,
    {
        match self {
            Color::C0 => 0,
            Color::C1 => 1,
        }
    }

    /// The other color.
    pub fn flip(self) -> (r: Self)
        ensures
            r == self.flipped(),
    {
        match self {
            Color::C0 => Color::C1,
            Color::C1 => Color::C0,
        }
    }
}

/// Flipping a color twice gives the color back, and flipping it once never does.
pub proof fn law_color_flip(c: Color)
    ensures
        c.flipped().flipped() == c,
        c.flipped() != c,
{
}

/// An epoch that can be marked as pinned or unpinned.
#[derive(Copy, Clone, Debug, PartialEq, Eq, Structural)]
pub struct Epoch {
    /// From the least significant bit: pinned (1 bit), phase number (2 bits), white color
    /// (1 bit), timestamp (the rest).
    pub data: u64,
}

impl Epoch {
    pub open spec fn pinned_flag(self) -> bool {
        self.data & 1 == 1
    }

    pub open spec fn phase_code(self) -> u64 {
        (self.data & 6) >> 1
    }

    pub open spec fn color_code(self) -> u64 {
        (self.data & 8) >> 3
    }

    /// The timestamp field.
    pub open spec fn ts(self) -> u64 {
        self.data >> 4
    }

    /// The phase field. Only meaningful of a valid epoch.
    pub open spec fn ph(self) -> Phase {
        if self.phase_code() == 0 {
            Phase::N
        } else if self.phase_code() == 1 {
            Phase::RT
        } else {
            Phase::CT
        }
    }

    /// The white color.
    pub open spec fn white(self) -> Color {
        if self.color_code() == 0 {
            Color::C0
        } else {
            Color::C1
        }
    }

    /// The phase number is that of a phase.
    pub open spec fn valid(self) -> bool {
        self.phase_code() <= 2
    }

    /// Returns the starting epoch in unpinned state.
    pub fn starting() -> (r: Self)
        ensures
            r.data == 0,
            r.valid(),
            !r.pinned_flag(),
            r.ph() == Phase::N,
            r.white() == Color::C0,
            r.ts() == 0,
    {
        proof {
            lemma_zero_epoch();
        }
        Epoch { data: 0 }
    }

    /// Returns `true` if the epoch is marked as pinned.
    pub fn is_pinned(self) -> (r: bool)
        ensures
            r == self.pinned_flag(),
    {
        let d: u64 = self.data;
        assert((d & 1) > 0 <==> d & 1 == 1) by (bit_vector);
        (self.data & PINNED_BIT) > 0
    }

    /// Returns the same epoch, but marked as pinned.
    pub fn pinned(self) -> (r: Self)
        ensures
            r == self.pin_of(),
            r.pinned_flag(),
            r.phase_code() == self.phase_code(),
            r.color_code() == self.color_code(),
            r.ts() == self.ts(),
    {
        proof {
            lemma_pin(self.data);
        }
        Epoch { data: self.data | PINNED_BIT }
    }

    /// The same epoch, marked as pinned.
    pub open spec fn pin_of(self) -> Epoch {
        Epoch { data: self.data | 1 }
    }

    /// Returns the same epoch, but marked as unpinned.
    pub fn unpinned(self) -> (r: Self)
        ensures
            !r.pinned_flag(),
            r.phase_code() == self.phase_code(),
            r.color_code() == self.color_code(),
            r.ts() == self.ts(),
    {
        proof {
            lemma_pin(self.data);
        }
        Epoch { data: self.data & !PINNED_BIT }
    }

    /// The phase.
    pub fn phase(self) -> (r: Phase)
        requires
            self.valid(),
        ensures
            r == self.ph(),
    {
        Phase::from((self.data & PHASE_NUMBER_BITS) >> PHASE_NUMBER_POS)
    }

    /// Returns the same epoch in another phase.
    pub fn with_phase(self, phase: Phase) -> (r: Self)
        ensures
            r.valid(),
            r.ph() == phase,
            r.phase_code() == phase.code(),
            r.pinned_flag() == self.pinned_flag(),
            r.color_code() == self.color_code(),
            r.ts() == self.ts(),
    {
        let n: u64 = phase.number();
        proof {
            lemma_with_fields(self.data, n, 0, 0);
        }
        Epoch { data: (self.data & !PHASE_NUMBER_BITS) | (n << PHASE_NUMBER_POS) }
    }

    /// The white color.
    pub fn color(self) -> (r: Color)
        ensures
            r == self.white(),
    {
        Color::from((self.data & COLOR_BIT) >> COLOR_POS)
    }

    /// Returns the same epoch with another white color.
    pub fn with_color(self, color: Color) -> (r: Self)
        ensures
            r.white() == color,
            r.color_code() == color.code(),
            r.pinned_flag() == self.pinned_flag(),
            r.phase_code() == self.phase_code(),
            r.ts() == self.ts(),
    {
        let n: u64 = color.number();
        proof {
            lemma_with_fields(self.data, 0, n, 0);
        }
        Epoch { data: (self.data & !COLOR_BIT) | (n << COLOR_POS) }
    }

    /// The timestamp.
    pub fn timestamp(self) -> (r: u64)
        ensures
            r == self.ts(),
            r < TIMESTAMP_LIMIT,
    {
        proof {
            lemma_with_fields(self.data, 0, 0, 0);
        }
        (self.data & TIMESTAMP_BITS) >> TIMESTAMP_POS
    }

    /// Returns the same epoch with another timestamp, of which the low bits are kept.
    pub fn with_timestamp(self, value: u64) -> (r: Self)
        ensures
            r.ts() == value % TIMESTAMP_LIMIT,
            r.pinned_flag() == self.pinned_flag(),
            r.phase_code() == self.phase_code(),
            r.color_code() == self.color_code(),
    {
        proof {
            lemma_with_fields(self.data, 0, 0, value);
        }
        Epoch { data: (self.data & !TIMESTAMP_BITS) | (value << TIMESTAMP_POS) }
    }
}

proof fn lemma_zero_epoch()
    ensures
        0u64 & 1 == 0,
        (0u64 & 6) >> 1 == 0,
        (0u64 & 8) >> 3 == 0,
        0u64 >> 4 == 0,
{
    assert(0u64 & 1 == 0 && (0u64 & 6) >> 1 == 0 && (0u64 & 8) >> 3 == 0 && 0u64 >> 4 == 0)
        by (bit_vector);
}

proof fn lemma_pin(d: u64)
    ensures
        (d | 1) & 1 == 1,
        ((d | 1) & 6) >> 1 == (d & 6) >> 1,
        ((d | 1) & 8) >> 3 == (d & 8) >> 3,
        (d | 1) >> 4 == d >> 4,
        (d & !1u64) & 1 == 0,
        ((d & !1u64) & 6) >> 1 == (d & 6) >> 1,
        ((d & !1u64) & 8) >> 3 == (d & 8) >> 3,
        (d & !1u64) >> 4 == d >> 4,
{
    assert((d | 1) & 1 == 1 && ((d | 1) & 6) >> 1 == (d & 6) >> 1 && ((d | 1) & 8) >> 3 == (d & 8)
        >> 3 && (d | 1) >> 4 == d >> 4 && (d & !1u64) & 1 == 0 && ((d & !1u64) & 6) >> 1 == (d
        & 6) >> 1 && ((d & !1u64) & 8) >> 3 == (d & 8) >> 3 && (d & !1u64) >> 4 == d >> 4)
        by (bit_vector);
}

proof fn lemma_with_fields(d: u64, ph: u64, c: u64, ts: u64)
    requires
        ph <= 2,
        c <= 1,
    ensures
        ({
            let p = (d & !6u64) | (ph << 1);
            let q = (d & !8u64) | (c << 3);
            let t = (d & !0xffff_ffff_ffff_fff0u64) | (ts << 4);
            &&& p & 1 == d & 1
            &&& (p & 6) >> 1 == ph
            &&& (p & 8) >> 3 == (d & 8) >> 3
            &&& p >> 4 == d >> 4
            &&& q & 1 == d & 1
            &&& (q & 6) >> 1 == (d & 6) >> 1
            &&& (q & 8) >> 3 == c
            &&& q >> 4 == d >> 4
            &&& t & 1 == d & 1
            &&& (t & 6) >> 1 == (d & 6) >> 1
            &&& (t & 8) >> 3 == (d & 8) >> 3
            &&& t >> 4 == ts % 0x1000_0000_0000_0000
            &&& (d & 0xffff_ffff_ffff_fff0) >> 4 == d >> 4
            &&& d >> 4 < 0x1000_0000_0000_0000
        }),
{
    let p = (d & !6u64) | (ph << 1);
    let q = (d & !8u64) | (c << 3);
    let t = (d & !0xffff_ffff_ffff_fff0u64) | (ts << 4);
    assert(p & 1 == d & 1 && (p & 6) >> 1 == ph && (p & 8) >> 3 == (d & 8) >> 3 && p >> 4 == d >> 4
        && q & 1 == d & 1 && (q & 6) >> 1 == (d & 6) >> 1 && (q & 8) >> 3 == c && q >> 4 == d >> 4
        && t & 1 == d & 1 && (t & 6) >> 1 == (d & 6) >> 1 && (t & 8) >> 3 == (d & 8) >> 3 && t >> 4
        == ts % 0x1000_0000_0000_0000 && (d & 0xffff_ffff_ffff_fff0) >> 4 == d >> 4 && d >> 4
        < 0x1000_0000_0000_0000) by (bit_vector)
        requires
            ph <= 2,
            c <= 1,
            p == (d & !6u64) | (ph << 1),
            q == (d & !8u64) | (c << 3),
            t == (d & !0xffff_ffff_ffff_fff0u64) | (ts << 4),
    ;
}

impl Default for Epoch {
    /// The starting epoch.
    fn default() -> (r: Self)
        ensures
            r.data == 0,
    {
        Self::starting()
    }
}

/// A cell that holds an epoch.
#[derive(Debug)]
pub struct AtomicEpoch {
    pub data: Epoch,
}

impl Default for AtomicEpoch {
    /// A cell with the starting epoch.
    fn default() -> (r: Self)
        ensures
            r.data.data == 0,
    {
        Self::new(Epoch::default())
    }
}

impl AtomicEpoch {
    /// Creates a new cell.
    pub fn new(epoch: Epoch) -> (r: Self)
        ensures
            r.data == epoch,
    {
        AtomicEpoch { data: epoch }
    }

    /// Loads the value of the cell.
    pub fn load(&self) -> (r: Epoch)
        ensures
            r == self.data,
    {
        self.data
    }

    /// Loads the value of the cell, which nobody writes meanwhile.
    pub fn load_non_atomic(&self) -> (r: Epoch)
        ensures
            r == self.data,
    {
        self.data
    }

    /// Stores a value into the cell.
    pub fn store(&mut self, epoch: Epoch)
        ensures
            final(self).data == epoch,
    {
        self.data = epoch;
    }

    /// Stores a value into the cell if the current value is the same as `current`. The result
    /// says whether the new value was written, and holds the previous one.
    pub fn compare_exchange(&mut self, current: Epoch, new: Epoch) -> (r: Result<Epoch, Epoch>)
        ensures
            old(self).data == current ==> r == Ok::<Epoch, Epoch>(current),
            old(self).data == current ==> final(self).data == new,
            old(self).data != current ==> r == Err::<Epoch, Epoch>(old(self).data),
            old(self).data != current ==> final(self).data == old(self).data,
    {
        let previous: Epoch = self.data;
        if previous.data == current.data {
            self.data = new;
            Ok(previous)
        } else {
            Err(previous)
        }
    }
}

/// An epoch is the sum of its four fields: two epochs that agree in all of them are equal.
pub proof fn law_epoch_fields(a: Epoch, b: Epoch)
    requires
        a.pinned_flag() == b.pinned_flag(),
        a.phase_code() == b.phase_code(),
        a.color_code() == b.color_code(),
        a.ts() == b.ts(),
    ensures
        a == b,
{
    let x = a.data;
    let y = b.data;
    assert(x == y) by (bit_vector)
        requires
            (x & 1 == 1) == (y & 1 == 1),
            (x & 6) >> 1 == (y & 6) >> 1,
            (x & 8) >> 3 == (y & 8) >> 3,
            x >> 4 == y >> 4,
    ;
}

} // verus!
