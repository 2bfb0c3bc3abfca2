//! Alignment arithmetic, header packing and chunk sizing.

use vstd::arithmetic::power2::*;
use vstd::bits::*;
use vstd::prelude::*;

verus! {

/// Size of a record header in bytes. Headers also start on multiples of it.
pub const HEADER: usize = 8;

/// Largest alignment a type descriptor may ask for.
pub const MAX_ALIGN: usize = 0x2000_0000;

/// Largest capacity a chunk may have.
pub const MAX_CHUNK: usize = usize::MAX / 4 + 1;

/// An alignment is a power of two that does not exceed `MAX_ALIGN`.
pub open spec fn is_align(align: int) -> bool {
    is_pow2(align) && align <= MAX_ALIGN
}

/// The least multiple of `align` that is not below `base`.
pub open spec fn spec_round_up(base: int, align: int) -> int {
    ((base + align - 1) / align) * align
}

/// `spec_round_up` lands on a multiple of `align`, at or after `base`, and
/// skips fewer than `align` bytes.
pub proof fn lemma_round_up(base: int, align: int)
    requires
        0 <= base,
        0 < align,
    ensures
        spec_round_up(base, align) % align == 0,
        base <= spec_round_up(base, align) < base + align,
        base % align == 0 ==> spec_round_up(base, align) == base,
{
    let q = (base + align - 1) / align;
    assert(q * align % align == 0 && q * align <= base + align - 1 && base + align - 1 < q * align
        + align && (base % align == 0 ==> q * align == base)) by (nonlinear_arith)
        requires
            q == (base + align - 1) / align,
            0 <= base,
            0 < align,
    ;
}

/// Rounding up is monotone in the base.
pub proof fn lemma_round_up_monotone(a: int, b: int, align: int)
    requires
        0 <= a <= b,
        0 < align,
    ensures
        spec_round_up(a, align) <= spec_round_up(b, align),
{
    assert(((a + align - 1) / align) * align <= ((b + align - 1) / align) * align)
        by (nonlinear_arith)
        requires
            0 <= a <= b,
            0 < align,
    ;
}

/// An alignment is at least 1.
pub proof fn lemma_align_positive(align: int)
    requires
        is_align(align),
    ensures
        1 <= align,
{
    reveal(is_pow2);
}

/// 1 is an alignment.
pub proof fn lemma_one_is_align()
    ensures
        is_align(1),
{
    reveal(is_pow2);
}

/// A power of two within `MAX_ALIGN` is `pow2(k)` for some `k` below 30.
pub proof fn lemma_align_exponent(align: int) -> (k: nat)
    requires
        is_align(align),
    ensures
        k < 30,
        pow2(k) == align,
{
    is_pow2_equiv(align);
    assert(is_pow2_exists(align));
    let k = choose|i: nat| vstd::arithmetic::power::pow(2, i) == align;
    assert(vstd::arithmetic::power::pow(2, k) == align);
    lemma_align_positive(align);
    assert(pow2(k) == align);
    if k >= 30 {
        lemma2_to64();
        assert(pow2(29) == 0x2000_0000);
        if k > 29 {
            lemma_pow2_strictly_increases(29, k);
        }
    }
    k
}

/// A number is a power of two just when it is not 0 and shares no bit with
/// its predecessor.
pub proof fn lemma_pow2_bit_test(a: usize)
    ensures
        is_pow2(a as int) == (a != 0 && a & ((a - 1) as usize) == 0),
    decreases a,
{
    reveal(is_pow2);
    if a == 0 {
    } else if a == 1 {
        assert(1usize & 0usize == 0) by (bit_vector);
    } else if a % 2 == 0 {
        let h: usize = a / 2;
        lemma_pow2_bit_test(h);
        assert((a & ((a - 1) as usize) == 0) == (h & ((h - 1) as usize) == 0)) by (bit_vector)
            requires
                a >= 2,
                a % 2 == 0,
                h == a / 2,
        ;
    } else {
        assert(a & ((a - 1) as usize) != 0) by (bit_vector)
            requires
                a > 1,
                a % 2 == 1,
        ;
    }
}

/// Whether `align` is an alignment.
pub fn is_alignment(align: usize) -> (b: bool)
    ensures
        b == is_align(align as int),
{
    proof {
        lemma_pow2_bit_test(align);
    }
    align != 0 && align <= MAX_ALIGN && align & (align - 1) == 0
}

/// Rounds `base` up to the next multiple of `align`.
pub fn round_up(base: usize, align: usize) -> (r: usize)
    requires
        is_align(align as int),
        base + align - 1 <= usize::MAX,
    ensures
        r == spec_round_up(base as int, align as int),
        r % align == 0,
        base <= r < base + align,
{
    proof {
        lemma_align_positive(align as int);
    }
    let m: usize = align - 1;
    let x: usize = base + m;
    let r: usize = x & !m;
    proof {
        let k = lemma_align_exponent(align as int);
        lemma_usize_low_bits_mask_is_mod(x, k);
        assert(low_bits_mask(k) as usize == m);
        assert(x & !m == x - (x & m)) by (bit_vector);
        assert(x - x % align == (x / align) * align) by (nonlinear_arith)
            requires
                align > 0,
        ;
        lemma_round_up(base as int, align as int);
    }
    r
}

/// The header word for descriptor address `p`: the address with the
/// initialisation flag in its lowest bit. An odd `p` is handed back as it is.
pub open spec fn spec_bitpack(p: usize, is_done: bool) -> usize {
    if is_done && p % 2 == 0 {
        (p + 1) as usize
    } else {
        p
    }
}

/// The descriptor address and the initialisation flag held by header word `w`.
pub open spec fn spec_un_bitpack(w: usize) -> (usize, bool) {
    ((w - w % 2) as usize, w % 2 == 1)
}

/// Unpacking a packed even address gives back the address and the flag.
pub proof fn lemma_bitpack_round_trip(p: usize, is_done: bool)
    requires
        p % 2 == 0,
    ensures
        spec_un_bitpack(spec_bitpack(p, is_done)) == (p, is_done),
{
}

/// Packs a descriptor address and the initialisation flag into one word.
pub fn bitpack_tydesc_ptr(p: usize, is_done: bool) -> (w: usize)
    ensures
        w == spec_bitpack(p, is_done),
{
    let bit: usize = if is_done { 1 } else { 0 };
    let w: usize = p | bit;
    assert(p | 0usize == p) by (bit_vector);
    assert(p % 2 == 0 ==> (p | 1usize) == p + 1) by (bit_vector);
    assert(p % 2 != 0 ==> (p | 1usize) == p) by (bit_vector);
    w
}

/// Splits a header word into the descriptor address and the initialisation flag.
pub fn un_bitpack_tydesc_ptr(w: usize) -> (r: (usize, bool))
    ensures
        r == spec_un_bitpack(w),
{
    assert(w & !1usize == w - w % 2) by (bit_vector);
    assert((w & 1usize == 1) == (w % 2 == 1)) by (bit_vector);
    (w & !1, w & 1 == 1)
}

/// The first value at or above `x` among `p`, `2 * p`, `4 * p`, and so on.
pub open spec fn doubled_to(p: nat, x: nat) -> nat
    decreases (if p < x { x - p } else { 0 }),
{
    if p >= x || p == 0 {
        p
    } else {
        doubled_to(2 * p, x)
    }
}

/// The least power of two that is not below `x`.
pub open spec fn spec_next_power_of_two(x: nat) -> nat {
    doubled_to(1, x)
}

proof fn lemma_doubled_to(p: nat, x: nat)
    requires
        is_pow2(p as int),
        p == 1 || p < 2 * x,
    ensures
        is_pow2(doubled_to(p, x) as int),
        x <= doubled_to(p, x),
        p <= doubled_to(p, x),
        doubled_to(p, x) == 1 || doubled_to(p, x) < 2 * x,
    decreases (if p < x { x - p } else { 0 }),
{
    reveal(is_pow2);
    if p >= x || p == 0 {
    } else {
        assert(is_pow2(2 * p as int));
        lemma_doubled_to(2 * p, x);
    }
}

/// `spec_next_power_of_two(x)` is a power of two, is not below `x`, and is
/// below `2 * x` unless it is 1: so it is the least such power.
pub proof fn lemma_next_power_of_two(x: nat)
    ensures
        is_pow2(spec_next_power_of_two(x) as int),
        x <= spec_next_power_of_two(x),
        spec_next_power_of_two(x) == 1 || spec_next_power_of_two(x) < 2 * x,
{
    reveal(is_pow2);
    assert(is_pow2(1));
    lemma_doubled_to(1, x);
}

/// The least power of two that is not below `x`.
pub fn next_power_of_two(x: usize) -> (r: usize)
    requires
        x <= usize::MAX / 2 + 1,
    ensures
        r == spec_next_power_of_two(x as nat),
{
    let mut p: usize = 1;
    while p < x
        invariant
            1 <= p,
            x <= usize::MAX / 2 + 1,
            doubled_to(p as nat, x as nat) == doubled_to(1, x as nat),
        decreases (if p < x { x - p } else { 0 }),
    {
        p = p * 2;
    }
    p
}

} // verus!
