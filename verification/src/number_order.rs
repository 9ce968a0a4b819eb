//! What comparing patterns says of the numbers they stand for, and which numbers they are narrowed to.

use vstd::arithmetic::power2::pow2;
use vstd::prelude::*;

use crate::floatbits::{
    half_exp, half_mant, half_negative, law_rounding_is_nearest, positive_finite, single_exp, single_finite,
    single_mant, single_negative, single_to_brain, single_to_half, single_units, total_key, value_key,
};
use crate::fp8::law_patterns_order_magnitudes;

verus! {

/// The number that a finite pattern stands for, in the units of the smallest.
pub open spec fn number(bits: u32) -> int {
    if single_negative(bits) {
        -(single_units(bits) as int)
    } else {
        single_units(bits) as int
    }
}

proof fn lemma_magnitude_of(bits: u32)
    ensures
        single_units(bits) == single_units((bits % 0x8000_0000) as u32),
        single_finite(bits) <==> bits % 0x8000_0000 < 0x7f80_0000,
{
    let x = bits as int;
    assert((x / 0x80_0000) % 256 == ((x % 0x8000_0000) / 0x80_0000) % 256);
    assert(x % 0x80_0000 == (x % 0x8000_0000) % 0x80_0000);
}

proof fn lemma_magnitudes_in_order(x: u32, y: u32)
    requires
        x < 0x7f80_0000,
        y < 0x7f80_0000,
    ensures
        x < y <==> single_units(x) < single_units(y),
        x == y <==> single_units(x) == single_units(y),
{
    if x < y {
        law_patterns_order_magnitudes(x, y);
    }
    if y < x {
        law_patterns_order_magnitudes(y, x);
    }
}

/// Numbers by sign and magnitude.
proof fn lemma_number(x: u32)
    requires
        single_finite(x),
    ensures
        ({
            let a = (x % 0x8000_0000) as u32;
            &&& a < 0x7f80_0000
            &&& x < 0x8000_0000 ==> number(x) == single_units(a) && value_key(x) == a
            &&& x >= 0x8000_0000 ==> number(x) == -(single_units(a) as int) && value_key(x) == -a
            &&& single_units(a) == 0 <==> a == 0
        }),
{
    lemma_magnitude_of(x);
    let a = (x % 0x8000_0000) as u32;
    lemma_nothing();
    lemma_magnitudes_in_order(0, a);
}

proof fn lemma_nothing()
    ensures
        single_units(0) == 0,
{
}

/// Scores are compared as the numbers they are: the larger number has the larger key, the two zeros
/// have the same one, and an infinity lies beyond all numbers of its sign.
pub proof fn law_keys_order_numbers(x: u32, y: u32)
    requires
        single_finite(x),
        single_finite(y),
    ensures
        value_key(x) < value_key(y) <==> number(x) < number(y),
        value_key(x) == value_key(y) <==> number(x) == number(y),
        value_key(0xff80_0000) < value_key(x) < value_key(0x7f80_0000),
{
    lemma_number(x);
    lemma_number(y);
    let (a, b) = ((x % 0x8000_0000) as u32, (y % 0x8000_0000) as u32);
    lemma_magnitudes_in_order(a, b);
    let (m, n) = (single_units(a), single_units(b));
    let (k, l) = (number(x), number(y));
    assert(a < b <==> m < n);
    assert(a == b <==> m == n);
    assert(m == 0 <==> a == 0);
    assert(n == 0 <==> b == 0);
}

/// The order of all patterns refines that of the numbers: it tells apart what a comparison of numbers
/// does not, and puts the negative zero before the other.
pub proof fn law_all_patterns_are_ordered(x: u32, y: u32)
    ensures
        single_finite(x) && single_finite(y) && number(x) < number(y) ==> total_key(x) < total_key(y),
        total_key(x) == total_key(y) <==> x == y,
        total_key(0x8000_0000) < total_key(0),
        total_key(0xff80_0000) < total_key(0x7f80_0000),
{
    if single_finite(x) && single_finite(y) && number(x) < number(y) {
        law_keys_order_numbers(x, y);
    }
}

/// A pattern is positive and finite exactly where its number is finite and more than nothing.
pub proof fn law_positive_finite_is_what_it_says(x: u32)
    ensures
        positive_finite(x) <==> single_finite(x) && number(x) > 0,
{
    lemma_magnitude_of(x);
    if single_finite(x) {
        lemma_number(x);
    }
}

/// A single is narrowed to the half that is nearest to it: one of a usual size to within half of the last
/// place, one too large to infinity, one too small to zero, and a sign stays.
pub proof fn law_a_single_becomes_the_nearest_half(bits: u32)
    requires
        single_finite(bits),
    ensures
        ({
            let (e, m) = (single_exp(bits), single_mant(bits));
            let r = single_to_half(bits) - (if bits >= 0x8000_0000 {
                0x8000int
            } else {
                0
            });
            &&& e >= 143 ==> r == 0x7c00
            &&& e <= 101 ==> r == 0
            &&& 113 <= e <= 142 && r < 0x7c00 ==> -4096 <= r * 8192 - ((e - 112) * 0x80_0000 + m) <= 4096
            &&& 113 <= e <= 142 && r * 8192 - ((e - 112) * 0x80_0000 + m) == 4096 ==> r % 2 == 0
            &&& 113 <= e <= 142 && r * 8192 - ((e - 112) * 0x80_0000 + m) == -4096 ==> r % 2 == 0
            &&& 113 <= e <= 142 ==> (r == 0x7c00 <==> (e - 112) * 0x80_0000 + m >= 0x7c00 * 8192 - 4096)
            &&& 0 <= r <= 0x7c00
        }),
{
    let (e, m) = (single_exp(bits), single_mant(bits));
    let h = e - 112;
    if h < 31 && h >= -10 && h <= 0 {
        let k = (14 - h) as nat;
        vstd::arithmetic::power2::lemma_pow2_pos(k);
        vstd::arithmetic::power2::lemma2_to64();
        if k > 14 {
            vstd::arithmetic::power2::lemma_pow2_strictly_increases(14, k);
        }
        let (n, d) = ((0x80_0000 + m) as nat, pow2(k));
        assert(d >= 16384);
        vstd::arithmetic::div_mod::lemma_fundamental_div_mod(n as int, d as int);
        let q = n / d;
        assert(q <= 1024) by (nonlinear_arith)
            requires
                d * q <= n,
                n < 0x100_0000,
                d >= 16384,
                q >= 0,
        ;
    }
    if 1 <= h && h <= 30 {
        let n = (h * 0x80_0000 + m) as nat;
        law_rounding_is_nearest(n, 8192, 0);
    }
}

/// Where a single is below the usual sizes of a half, the half counts the nearest number of the smallest
/// steps there are, the even one of two that are as near.
pub proof fn law_a_small_single_becomes_the_nearest_step(bits: u32, steps: nat)
    requires
        102 <= single_exp(bits) <= 112,
    ensures
        ({
            let n = 0x80_0000 + single_mant(bits);
            let d = pow2((126 - single_exp(bits)) as nat) as int;
            let r = single_to_half(bits) - (if bits >= 0x8000_0000 {
                0x8000int
            } else {
                0
            });
            let near = if n >= r * d {
                n - r * d
            } else {
                r * d - n
            };
            let far = if n >= steps * d {
                n - steps * d
            } else {
                steps * d - n
            };
            &&& 2 * near <= d
            &&& near <= far
            &&& 2 * near == d ==> r % 2 == 0
        }),
{
    let k = (126 - single_exp(bits)) as nat;
    vstd::arithmetic::power2::lemma_pow2_pos(k);
    law_rounding_is_nearest((0x80_0000 + single_mant(bits)) as nat, pow2(k), steps);
}

/// What is infinite stays infinite when it is narrowed, and what is no number stays none.
pub proof fn law_what_is_not_finite_stays_so(bits: u32)
    requires
        !single_finite(bits),
    ensures
        0 <= single_to_half(bits) <= 0xffff,
        half_exp(single_to_half(bits) as u16) == 31,
        half_negative(single_to_half(bits) as u16) == (bits >= 0x8000_0000),
        single_mant(bits) == 0 <==> half_mant(single_to_half(bits) as u16) == 0,
        single_mant(bits) >= 8192 ==> half_mant(single_to_half(bits) as u16) == single_mant(bits) / 8192,
        0 < single_mant(bits) < 8192 ==> half_mant(single_to_half(bits) as u16) == 1,
{
}

/// A brain float is the upper half of a single, to the nearest, and to the even one of two that are as near.
pub proof fn law_a_brain_float_is_the_nearest_upper_half(bits: u32)
    ensures
        ({
            let r = single_to_brain(bits) as int;
            &&& -32768 <= r * 65536 - bits <= 32768
            &&& r * 65536 - bits == 32768 || r * 65536 - bits == -32768 ==> r % 2 == 0
        }),
{
}

/// A weight of two bytes, the lower first, counts by its size; what is no number counts as nothing.
pub proof fn law_a_weight_counts_by_its_size(bytes: Seq<u8>, i: int)
    requires
        0 <= i,
        2 * i + 1 < bytes.len(),
    ensures
        ({
            let (lo, hi) = (bytes[2 * i] as int, bytes[2 * i + 1] as int % 128);
            let size = 65536 * lo + 16777216 * hi;
            &&& size <= 0x7f80_0000 ==> crate::fp8::weight_magnitude(bytes, i) == size
            &&& size > 0x7f80_0000 ==> crate::fp8::weight_magnitude(bytes, i) == 0
        }),
{
    let b = bytes[2 * i] + 256 * bytes[2 * i + 1];
    assert(b % 0x8000 == bytes[2 * i] + 256 * (bytes[2 * i + 1] as int % 128));
}

/// As many blocks of 128 as are needed cover all rows, and no more.
pub proof fn law_blocks_cover_all_rows(n: int)
    requires
        0 <= n,
    ensures
        128 * crate::fp8::blocks(n) >= n,
        n > 0 ==> 128 * (crate::fp8::blocks(n) - 1) < n,
{
}

/// A number is encoded by its size, cut at 448.
pub proof fn law_sizes_are_cut_at_the_largest_code(bits: u32)
    ensures
        bits as int % 0x8000_0000 <= 0x43e0_0000 ==> crate::fp8::wanted(bits) == bits as int % 0x8000_0000,
        bits as int % 0x8000_0000 > 0x43e0_0000 ==> crate::fp8::wanted(bits) == 0x43e0_0000,
{
}

} // verus!
