//! What can be set: the heap headroom and the way collection is driven.

use crate::shards::{clamp, clamped};
use vstd::prelude::*;

verus! {

/// How much the heap may grow beyond what is in use before it is collected.
#[derive(Clone, Copy, Debug, PartialEq, Eq, Structural)]
pub enum HeapHeadroom {
    /// At least this many MiB. Held within 1 and 1024.
    FixedMiB(usize),
    /// At least the heap usage divided by this number. Held within 1 and 1024.
    Proportional(usize),
}

/// Marks a packed headroom as proportional.
pub const HEADROOM_PROPORTIONAL_BIT: u64 = 0x8000_0000_0000_0000;

/// The number of bytes in a MiB.
pub const MIB: u64 = 1_048_576;

impl HeapHeadroom {
    /// The headroom with its number held within bounds.
    pub open spec fn bounded(self) -> HeapHeadroom {
        match self {
            HeapHeadroom::FixedMiB(mib) => HeapHeadroom::FixedMiB(clamped(mib, 1, 1024)),
            HeapHeadroom::Proportional(div) => HeapHeadroom::Proportional(clamped(div, 1, 1024)),
        }
    }

    /// The headroom in one word.
    pub open spec fn packed(self) -> u64 {
        match self {
            HeapHeadroom::FixedMiB(mib) => (clamped(mib, 1, 1024) * MIB) as u64,
            HeapHeadroom::Proportional(div) => (clamped(div, 1, 1024) as u64)
                | 0x8000_0000_0000_0000,
        }
    }

    /// The headroom that a word stands for.
    pub open spec fn unpacked(bits: u64) -> HeapHeadroom {
        if bits & 0x8000_0000_0000_0000 != 0 {
            HeapHeadroom::Proportional((bits & !0x8000_0000_0000_0000u64) as usize)
        } else {
            HeapHeadroom::FixedMiB((bits / MIB) as usize)
        }
    }

    /// The headroom in one word.
    pub fn pack(self) -> (r: u64)
        ensures
            r == self.packed(),
    {
        match self {
            HeapHeadroom::FixedMiB(mib) => clamp(mib, 1, 1024) as u64 * MIB,
            HeapHeadroom::Proportional(div) => (clamp(div, 1, 1024) as u64)
                | HEADROOM_PROPORTIONAL_BIT,
        }
    }

    /// The headroom that a word stands for.
    pub fn unpack(bits: u64) -> (r: Self)
        ensures
            r == Self::unpacked(bits),
    {
        if bits & HEADROOM_PROPORTIONAL_BIT != 0 {
            HeapHeadroom::Proportional((bits & !HEADROOM_PROPORTIONAL_BIT) as usize)
        } else {
            HeapHeadroom::FixedMiB((bits / MIB) as usize)
        }
    }
}

/// A headroom comes back from its word as it was, but for its bounds.
pub proof fn law_headroom_roundtrip(h: HeapHeadroom)
    ensures
        HeapHeadroom::unpacked(h.packed()) == h.bounded(),
{
    match h {
        HeapHeadroom::FixedMiB(mib) => {
            let n = clamped(mib, 1, 1024) as u64;
            let bits = (n * MIB) as u64;
            assert(bits & 0x8000_0000_0000_0000 == 0) by (bit_vector)
                requires
                    bits <= 0x4000_0000,
            ;
        },
        HeapHeadroom::Proportional(div) => {
            let n = clamped(div, 1, 1024) as u64;
            let bits = n | 0x8000_0000_0000_0000;
            assert(bits & 0x8000_0000_0000_0000 != 0 && bits & !0x8000_0000_0000_0000u64 == n)
                by (bit_vector)
                requires
                    n <= 1024,
                    bits == n | 0x8000_0000_0000_0000,
            ;
        },
    }
}

/// How collection is driven.
#[derive(Clone, Copy, Debug, PartialEq, Eq, Structural)]
pub enum CollectionMode {
    /// A background thread watches the heap and collects.
    Threaded,
    /// Mutators collect when they leave their last critical section, and on request.
    Cooperative,
}

/// Set once the collector has been deployed. The mode cannot change then.
pub const MODE_LATCH: u8 = 0b10;

/// The mode in a mode word.
pub open spec fn mode_of(bits: u8) -> CollectionMode {
    if bits & 1 == 1 {
        CollectionMode::Cooperative
    } else {
        CollectionMode::Threaded
    }
}

/// The mode in a mode word is fixed.
pub open spec fn mode_latched(bits: u8) -> bool {
    bits & 2 != 0
}

impl CollectionMode {
    /// The number of the mode.
    pub open spec fn code(self) -> u8 {
        match self {
            CollectionMode::Threaded => 0,
            CollectionMode::Cooperative => 1,
        }
    }

    /// The mode in a mode word.
    pub fn from_u8(bits: u8) -> (r: Self)
        ensures
            r == mode_of(bits),
    {
        if bits & 0b1 == 1 {
            CollectionMode::Cooperative
        } else {
            CollectionMode::Threaded
        }
    }

    /// The number of the mode.
    pub fn number(self) -> (r: u8)
        ensures
            r == self.code(),
            mode_of(r) == self,
            !mode_latched(r),
    {
        assert(0u8 & 1 == 0 && 1u8 & 1 == 1 && 0u8 & 2 == 0 && 1u8 & 2 == 0) by (bit_vector);
        match self {
            CollectionMode::Threaded => 0,
            CollectionMode::Cooperative => 1,
        }
    }
}

/// Latching a mode word keeps the mode.
pub proof fn lemma_latch(bits: u8)
    ensures
        mode_latched(bits | 2),
        mode_of(bits | 2) == mode_of(bits),
{
    assert((bits | 2) & 2 != 0 && (bits | 2) & 1 == bits & 1) by (bit_vector);
}

} // verus!
