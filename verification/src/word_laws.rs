//! What the packed words hold, in numbers.

use crate::config::{mode_latched, mode_of, CollectionMode, HeapHeadroom};
use crate::epoch::{Color, Epoch, Phase};
use crate::heap::ManObj;
use crate::man_ptr::{
    addr_of, clear_meta, holds, is_addr, lemma_tag, lemma_tag_bits, lemma_word, meta_of, set_meta,
    set_tag, tag_bits, tag_of, tag_width, PtrMeta,
};
use crate::obj_meta::ObjMeta;
use crate::shards::clamped;
use vstd::arithmetic::power2::{lemma_pow2_pos, pow2};
use vstd::bits::{lemma_u64_low_bits_mask_is_mod, lemma_u64_shl_is_mul, low_bits_mask};
use vstd::prelude::*;
use vstd::std_specs::bits::{axiom_u64_trailing_zeros, u64_trailing_zeros};

verus! {

/// An epoch is a number made of its fields: one for a pin, two for each step of the phase, eight
/// for the second color and sixteen for each step of the timestamp.
pub proof fn law_epoch_is_its_fields(e: Epoch)
    ensures
        e.pinned_flag() <==> e.data % 2 == 1,
        e.phase_code() == e.data / 2 % 4,
        e.color_code() == e.data / 8 % 2,
        e.ts() == e.data / 16,
        e.ph() == Phase::N <==> e.data / 2 % 4 == 0,
        e.ph() == Phase::RT <==> e.data / 2 % 4 == 1,
        e.ph() == Phase::CT <==> e.data / 2 % 4 >= 2,
        e.valid() <==> e.data / 2 % 4 != 3,
        e.white() == Color::C1 <==> e.data / 8 % 2 == 1,
        e.pin_of().data == e.data + (if e.data % 2 == 1 {
            0int
        } else {
            1
        }),
{
    let d = e.data;
    assert((d & 1 == 1 <==> d % 2 == 1) && (d & 6) >> 1 == d / 2 % 4 && (d & 8) >> 3 == d / 8 % 2
        && d >> 4 == d / 16 && d | 1 == d + (1 - d % 2)) by (bit_vector);
}

/// A color or a phase and its number belong together.
pub proof fn law_numbers_of_colors_and_phases(c: Color, p: Phase)
    ensures
        c.code() == 0 <==> c == Color::C0,
        c.code() == 1 <==> c == Color::C1,
        p.code() == 0 <==> p == Phase::N,
        p.code() == 1 <==> p == Phase::RT,
        p.code() == 2 <==> p == Phase::CT,
        c == Color::C0 <==> c.flipped() == Color::C1,
{
}

/// A header is a number made of its fields: the root count is its remainder by two to the power of
/// 55, then comes the type, and the second color is the highest bit.
pub proof fn law_header_is_its_fields(m: ObjMeta)
    ensures
        m.rc() == m.0 % 0x80_0000_0000_0000,
        m.tid() as int == m.0 / 0x80_0000_0000_0000 % 256,
        m.color() == Color::C1 <==> m.0 >= 0x8000_0000_0000_0000,
{
    let d = m.0;
    assert(d & 0x007f_ffff_ffff_ffff == d % 0x80_0000_0000_0000 && (d & 0x7f80_0000_0000_0000)
        >> 55 == d / 0x80_0000_0000_0000 % 256 && (d & 0x7f80_0000_0000_0000) >> 55 < 256 && (d
        >> 63 == 0 <==> d < 0x8000_0000_0000_0000)) by (bit_vector);
}

/// How far apart objects are: two to the power of the number of tag bits.
pub open spec fn stride<T>() -> int {
    tag_bits::<T>() + 1
}

/// There are as many tags as the alignment of an object leaves free: objects are exactly as far
/// apart as their alignment asks for.
pub proof fn law_stride_is_the_alignment<T>(k: nat)
    requires
        k <= 29,
        vstd::layout::align_of::<ManObj<T>>() == pow2(k),
    ensures
        stride::<T>() == vstd::layout::align_of::<ManObj<T>>(),
        tag_width::<T>() == k,
{
    let n = k as u64;
    lemma_pow2_pos(k);
    lemma_one_shifted(n);
    let a = 1u64 << n;
    assert(vstd::layout::align_of::<ManObj<T>>() as u64 == a);
    let z = u64_trailing_zeros(a) as u64;
    axiom_u64_trailing_zeros(a);
    assert(a != 0 && (a >> n) & 1 == 1) by (bit_vector)
        requires
            n <= 29,
            a == 1u64 << n,
    ;
    if z > n {
        assert((a >> n) & 1u64 == 0u64);
    }
    if z < n {
        assert((a >> z) & 1 == 0) by (bit_vector)
            requires
                z < n,
                n <= 29,
                a == 1u64 << n,
        ;
    }
    lemma_tag_bits::<T>();
}

/// One shifted is a power of two.
pub proof fn lemma_one_shifted(n: u64)
    requires
        n <= 29,
    ensures
        1u64 << n == pow2(n as nat),
        1 <= pow2(n as nat) <= 0x2000_0000,
{
    vstd::bits::lemma_u64_pow2_no_overflow(n as nat);
    lemma_u64_shl_is_mul(1, n);
    assert(1u64 <= (1u64 << n) <= 0x2000_0000) by (bit_vector)
        requires
            n <= 29,
    ;
}

/// A pointer word is a number made of its fields: the tag is its remainder by the distance between
/// objects, the metadata are its highest two bits, and the address is the rest.
pub proof fn law_pointer_word_is_its_fields<T>(d: u64)
    ensures
        tag_of::<T>(d) as int == d as int % stride::<T>(),
        addr_of::<T>(d) as int == d % 0x4000_0000_0000_0000 - d as int % stride::<T>(),
        clear_meta(d) == d % 0x4000_0000_0000_0000,
        meta_of(d) == PtrMeta::Rooted <==> d < 0x8000_0000_0000_0000,
        meta_of(d) == PtrMeta::Unrooted(Color::C0) <==> 0x8000_0000_0000_0000 <= d
            < 0xc000_0000_0000_0000,
        meta_of(d) == PtrMeta::Unrooted(Color::C1) <==> 0xc000_0000_0000_0000 <= d,
        is_addr::<T>(d) <==> d < 0x4000_0000_0000_0000 && d as int % stride::<T>() == 0,
        1 <= stride::<T>() <= 0x2000_0000,
{
    let low = tag_bits::<T>();
    let w = tag_width::<T>();
    lemma_tag_bits::<T>();
    lemma_one_shifted(w);
    lemma_u64_low_bits_mask_is_mod(d, w as nat);
    assert(low_bits_mask(w as nat) == low);
    lemma_word::<T>(d);
    assert(({
        let a = d & 0x3fff_ffff_ffff_ffff & !low;
        &&& d & 0x3fff_ffff_ffff_ffff == d % 0x4000_0000_0000_0000
        &&& a + (d & low) == d % 0x4000_0000_0000_0000
        &&& (d & 0x8000_0000_0000_0000 == 0 <==> d < 0x8000_0000_0000_0000)
        &&& (d & 0x8000_0000_0000_0000 != 0 ==> (d & 0x4000_0000_0000_0000 == 0 <==> d
            < 0xc000_0000_0000_0000))
    })) by (bit_vector)
        requires
            low <= 0x1fff_ffff,
    ;
}

/// Metadata and tags go where they are read, and nothing else of a word changes.
pub proof fn law_words_with_other_fields<T>(d: u64, m: PtrMeta, tag: u64)
    ensures
        set_meta(d, m) % 0x4000_0000_0000_0000 == d % 0x4000_0000_0000_0000,
        meta_of(set_meta(d, m)) == m,
        set_tag::<T>(d, tag) as int == d - d as int % stride::<T>() + tag as int % stride::<T>(),
{
    let low = tag_bits::<T>();
    let w = tag_width::<T>();
    lemma_word::<T>(d);
    lemma_tag::<T>(d, tag);
    lemma_tag_bits::<T>();
    law_pointer_word_is_its_fields::<T>(d);
    law_pointer_word_is_its_fields::<T>(tag);
    law_pointer_word_is_its_fields::<T>(set_meta(d, m));
    assert((d & !low) | (tag & low) == d - (d & low) + (tag & low)) by (bit_vector);
}

/// A word holds an address and a tag exactly if it is their sum, but for its metadata. Of the tag
/// only the remainder by the distance between objects counts.
pub proof fn law_words_hold_addresses_and_tags<T>(d: u64, a: u64, tag: u64)
    requires
        is_addr::<T>(a),
    ensures
        holds::<T>(d, a, tag) <==> d % 0x4000_0000_0000_0000 == a + tag as int % stride::<T>(),
{
    law_pointer_word_is_its_fields::<T>(d);
    law_pointer_word_is_its_fields::<T>(a);
    law_pointer_word_is_its_fields::<T>(tag);
    let n = stride::<T>();
    let t = tag as int % n;
    assert(0 <= t < n);
    if d % 0x4000_0000_0000_0000 == a + t {
        lemma_word::<T>(d);
        law_pointer_word_is_its_fields::<T>(clear_meta(d));
        vstd::arithmetic::div_mod::lemma_add_mod_noop(a as int, t, n);
        vstd::arithmetic::div_mod::lemma_small_mod(t as nat, n as nat);
        vstd::arithmetic::div_mod::lemma_mod_twice(t, n);
        assert((a + t) % n == t % n);
    }
}

/// A number that is held within bounds is within them, is the nearest of these, and is itself where
/// it was within them.
pub proof fn law_clamped(x: usize, low: usize, high: usize)
    requires
        low <= high,
    ensures
        low <= clamped(x, low, high) <= high,
        low <= x <= high ==> clamped(x, low, high) == x,
        x < low ==> clamped(x, low, high) == low,
        x > high ==> clamped(x, low, high) == high,
{
}

/// A headroom keeps its kind, and its number where that is from 1 to 1024. Otherwise the number
/// becomes the nearest of these. In a word, a fixed headroom is its bytes.
pub proof fn law_headroom_bounds(h: HeapHeadroom)
    ensures
        h matches HeapHeadroom::FixedMiB(n) ==> {
            &&& h.bounded() is FixedMiB
            &&& 1 <= h.bounded()->FixedMiB_0 <= 1024
            &&& 1 <= n <= 1024 ==> h.bounded() == h && h.packed() == n * 1_048_576
            &&& n == 0 ==> h.bounded() == HeapHeadroom::FixedMiB(1)
            &&& n > 1024 ==> h.bounded() == HeapHeadroom::FixedMiB(1024)
        },
        h matches HeapHeadroom::Proportional(n) ==> {
            &&& h.bounded() is Proportional
            &&& 1 <= h.bounded()->Proportional_0 <= 1024
            &&& 1 <= n <= 1024 ==> h.bounded() == h
            &&& n == 0 ==> h.bounded() == HeapHeadroom::Proportional(1)
            &&& n > 1024 ==> h.bounded() == HeapHeadroom::Proportional(1024)
        },
        HeapHeadroom::unpacked(h.packed()) == h.bounded(),
{
    crate::config::law_headroom_roundtrip(h);
}

/// The mode is the lowest bit of its word, and the next one says whether it is fixed.
pub proof fn law_mode_words(bits: u8, mode: CollectionMode)
    ensures
        mode_of(bits) == CollectionMode::Cooperative <==> bits % 2 == 1,
        mode_latched(bits) <==> bits / 2 % 2 == 1,
        mode.code() == 1 <==> mode == CollectionMode::Cooperative,
        mode.code() == 0 <==> mode == CollectionMode::Threaded,
{
    assert((bits & 1 == 1 <==> bits % 2 == 1) && (bits & 2 != 0 <==> bits / 2 % 2 == 1))
        by (bit_vector);
}

} // verus!
