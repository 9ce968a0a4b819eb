//! Floating-point formats as bit patterns.
//!
//! A pattern of a format is split into its sign, its exponent field and its mantissa field. The
//! magnitude of a finite number is a whole multiple of the smallest magnitude of its format: the
//! functions `half_units` and `single_units` count those multiples.

use vstd::arithmetic::power2::{lemma_pow2_adds, lemma_pow2_pos, lemma_pow2_unfold, pow2};
use vstd::prelude::*;

verus! {

/// The quotient rounded to the nearest whole number, ties to the even one.
pub open spec fn round_half_even(n: nat, d: nat) -> nat {
    let q = n / d;
    let r = n % d;
    if 2 * r > d || (2 * r == d && q % 2 == 1) {
        q + 1
    } else {
        q
    }
}

/// Two to the power of `k`.
fn two_to(k: u32) -> (p: u32)
    requires
        k < 32,
    ensures
        p == pow2(k as nat),
        p >= 1,
{
    let mut p: u32 = 1;
    let mut i: u32 = 0;
    proof {
        vstd::arithmetic::power2::lemma2_to64();
    }
    while i < k
        invariant
            i <= k < 32,
            p == pow2(i as nat),
        decreases k - i,
    {
        proof {
            lemma_pow2_unfold((i + 1) as nat);
            vstd::arithmetic::power2::lemma2_to64();
            if i + 1 < 31 {
                vstd::arithmetic::power2::lemma_pow2_strictly_increases((i + 1) as nat, 31);
            }
        }
        p = p * 2;
        i += 1;
    }
    proof {
        lemma_pow2_pos(k as nat);
    }
    p
}

/// The exponent field of a single.
pub open spec fn single_exp(bits: u32) -> int {
    (bits as int / 0x80_0000) % 256
}

/// The mantissa field of a single.
pub open spec fn single_mant(bits: u32) -> int {
    bits as int % 0x80_0000
}

/// Whether a single is negative.
pub open spec fn single_negative(bits: u32) -> bool {
    bits >= 0x8000_0000
}

/// Whether a single is a finite number.
pub open spec fn single_finite(bits: u32) -> bool {
    single_exp(bits) != 255
}

/// The magnitude of a finite single in units of its smallest one, two to the power of -149.
pub open spec fn single_units(bits: u32) -> nat {
    if single_exp(bits) == 0 {
        single_mant(bits) as nat
    } else {
        ((0x80_0000 + single_mant(bits)) * pow2((single_exp(bits) - 1) as nat)) as nat
    }
}

/// The exponent field of a half.
pub open spec fn half_exp(bits: u16) -> int {
    (bits as int / 1024) % 32
}

/// The mantissa field of a half.
pub open spec fn half_mant(bits: u16) -> int {
    bits as int % 1024
}

/// Whether a half is negative.
pub open spec fn half_negative(bits: u16) -> bool {
    bits >= 0x8000
}

/// The magnitude of a finite half in units of its smallest one, two to the power of -24.
pub open spec fn half_units(bits: u16) -> nat {
    if half_exp(bits) == 0 {
        half_mant(bits) as nat
    } else {
        ((1024 + half_mant(bits)) * pow2((half_exp(bits) - 1) as nat)) as nat
    }
}

/// A single's pattern without its sign, from a half's.
pub open spec fn widened(bits: u16) -> int {
    let e = half_exp(bits);
    let m = half_mant(bits);
    if e == 31 {
        0x7f80_0000 + m * 8192
    } else if e > 0 {
        (e + 112) * 0x80_0000 + m * 8192
    } else if m == 0 {
        0
    } else {
        let k = lead(m);
        (113 - k) * 0x80_0000 + (m * pow2(k as nat) - 1024) * 8192
    }
}

/// How often a mantissa below 1024 is doubled until it reaches 1024.
pub open spec fn lead(m: int) -> int {
    if m >= 512 {
        1
    } else if m >= 256 {
        2
    } else if m >= 128 {
        3
    } else if m >= 64 {
        4
    } else if m >= 32 {
        5
    } else if m >= 16 {
        6
    } else if m >= 8 {
        7
    } else if m >= 4 {
        8
    } else if m >= 2 {
        9
    } else {
        10
    }
}

/// The pattern of the single of the same value as a half: sign, and what `widened` gives.
pub open spec fn half_to_single(bits: u16) -> int {
    widened(bits) + if half_negative(bits) {
        0x8000_0000
    } else {
        0int
    }
}

proof fn lemma_lead(m: int)
    requires
        0 < m < 1024,
    ensures
        1 <= lead(m) <= 10,
        1024 <= m * pow2(lead(m) as nat) < 2048,
{
    vstd::arithmetic::power2::lemma2_to64();
    let k = lead(m);
    if k == 1 {
        assert(m * pow2(1) == m * 2);
    } else if k == 2 {
        assert(m * pow2(2) == m * 4);
    } else if k == 3 {
        assert(m * pow2(3) == m * 8);
    } else if k == 4 {
        assert(m * pow2(4) == m * 16);
    } else if k == 5 {
        assert(m * pow2(5) == m * 32);
    } else if k == 6 {
        assert(m * pow2(6) == m * 64);
    } else if k == 7 {
        assert(m * pow2(7) == m * 128);
    } else if k == 8 {
        assert(m * pow2(8) == m * 256);
    } else if k == 9 {
        assert(m * pow2(9) == m * 512);
    } else if k == 10 {
        assert(m * pow2(10) == m * 1024);
    }
}

/// The single of the same value as a half, as patterns.
pub fn f16_to_f32(bits: u16) -> (r: u32)
    ensures
        r == half_to_single(bits),
{
    let sign: u32 = if bits >= 0x8000 {
        0x8000_0000
    } else {
        0
    };
    let e: u32 = ((bits / 1024) % 32) as u32;
    let m: u32 = (bits % 1024) as u32;
    if e == 31 {
        return sign + 0x7f80_0000 + m * 8192;
    }
    if e > 0 {
        return sign + (e + 112) * 0x80_0000 + m * 8192;
    }
    if m == 0 {
        return sign;
    }
    proof {
        vstd::arithmetic::power2::lemma2_to64();
    }
    let (k, mant): (u32, u32) = if m >= 512 {
        (1, m * 2)
    } else if m >= 256 {
        (2, m * 4)
    } else if m >= 128 {
        (3, m * 8)
    } else if m >= 64 {
        (4, m * 16)
    } else if m >= 32 {
        (5, m * 32)
    } else if m >= 16 {
        (6, m * 64)
    } else if m >= 8 {
        (7, m * 128)
    } else if m >= 4 {
        (8, m * 256)
    } else if m >= 2 {
        (9, m * 512)
    } else {
        (10, m * 1024)
    };
    sign + (113 - k) * 0x80_0000 + (mant - 1024) * 8192
}

/// A half's pattern without its sign, from a single's: the nearest half, ties to even, infinity for
/// what is too large, and a number for no number.
pub open spec fn narrowed(bits: u32) -> int {
    let e = single_exp(bits);
    let m = single_mant(bits);
    let h = e - 112;
    if e == 255 {
        0x7c00 + if m == 0 {
            0int
        } else if m / 8192 == 0 {
            1
        } else {
            m / 8192
        }
    } else if h >= 31 {
        0x7c00
    } else if h < -10 {
        0
    } else if h <= 0 {
        round_half_even((0x80_0000 + m) as nat, pow2((14 - h) as nat)) as int
    } else {
        let r = round_half_even((h * 0x80_0000 + m) as nat, 8192) as int;
        if r > 0x7c00 {
            0x7c00
        } else {
            r
        }
    }
}

/// The pattern of the half nearest to a single.
pub open spec fn single_to_half(bits: u32) -> int {
    narrowed(bits) + if single_negative(bits) {
        0x8000
    } else {
        0int
    }
}

fn divide_round(n: u32, d: u32) -> (r: u32)
    requires
        0 < d <= 0x4000_0000,
        n < 0x4000_0000,
    ensures
        r == round_half_even(n as nat, d as nat),
{
    let q: u32 = n / d;
    let rem: u32 = n % d;
    if 2 * rem > d || (2 * rem == d && q % 2 == 1) {
        q + 1
    } else {
        q
    }
}

proof fn lemma_narrow_range(n: nat, d: nat, cap: nat)
    requires
        d > 0,
        n <= cap * d,
    ensures
        round_half_even(n, d) <= cap,
{
    let q = n / d;
    let r = n % d;
    vstd::arithmetic::div_mod::lemma_fundamental_div_mod(n as int, d as int);
    assert(q <= cap && (q == cap ==> r == 0)) by (nonlinear_arith)
        requires
            n == d * q + r,
            n <= cap * d,
            0 <= r < d,
    ;
}

/// The half nearest to a single, as patterns.
pub fn f32_to_f16_bits(bits: u32) -> (r: u16)
    ensures
        r == single_to_half(bits),
{
    let sign: u16 = if bits >= 0x8000_0000 {
        0x8000
    } else {
        0
    };
    let e: u32 = (bits / 0x80_0000) % 256;
    let m: u32 = bits % 0x80_0000;
    if e == 255 {
        if m == 0 {
            return sign + 0x7c00;
        }
        let top: u32 = m / 8192;
        let keep: u16 = if top == 0 {
            1
        } else {
            top as u16
        };
        return sign + 0x7c00 + keep;
    }
    if e >= 143 {
        return sign + 0x7c00;
    }
    if e < 102 {
        return sign;
    }
    if e <= 112 {
        let shift: u32 = 126 - e;
        proof {
            vstd::arithmetic::power2::lemma2_to64();
            if 14 < shift {
                vstd::arithmetic::power2::lemma_pow2_strictly_increases(14, shift as nat);
            }
            if shift < 24 {
                vstd::arithmetic::power2::lemma_pow2_strictly_increases(shift as nat, 24);
            }
            assert((0x80_0000 + m) <= 1024 * pow2(shift as nat)) by (nonlinear_arith)
                requires
                    pow2(shift as nat) >= 16384,
                    m < 0x80_0000,
            ;
            lemma_narrow_range((0x80_0000 + m) as nat, pow2(shift as nat), 1024);
        }
        let d: u32 = two_to(shift);
        let q: u32 = divide_round(0x80_0000 + m, d);
        return sign + q as u16;
    }
    proof {
        lemma_narrow_range(((e - 112) * 0x80_0000 + m) as nat, 8192, 0x7c00);
    }
    let q: u32 = divide_round((e - 112) * 0x80_0000 + m, 8192);
    sign + q as u16
}

/// Widening a half keeps its sign and its value exactly; an infinity or no number stays one.
pub proof fn law_widening_is_exact(bits: u16)
    ensures
        0 <= half_to_single(bits) < 0x1_0000_0000,
        ({
            let s = half_to_single(bits) as u32;
            &&& single_negative(s) == half_negative(bits)
            &&& single_finite(s) == (half_exp(bits) != 31)
            &&& half_exp(bits) != 31 ==> single_units(s) == half_units(bits) * pow2(125)
            &&& half_exp(bits) == 31 ==> (single_mant(s) == 0 <==> half_mant(bits) == 0)
        }),
{
    let e = half_exp(bits);
    let m = half_mant(bits);
    vstd::arithmetic::power2::lemma2_to64();
    if e == 0 && m > 0 {
        lemma_lead(m);
    }
    let s = half_to_single(bits) as u32;
    lemma_pow2_pos(125);
    if e == 31 {
    } else if e > 0 {
        assert(single_exp(s) == e + 112);
        assert(single_mant(s) == m * 8192);
        lemma_pow2_adds((e - 1) as nat, 112);
        lemma_pow2_adds(13, 112);
        let a = (1024 + m) as int;
        let p = pow2((e - 1) as nat) as int;
        let q = pow2(112) as int;
        assert((0x80_0000 + m * 8192) * (p * q) == (a * p) * (8192 * q)) by (nonlinear_arith)
            requires
                a == 1024 + m,
        ;
    } else if m == 0 {
        assert(single_exp(s) == 0 && single_mant(s) == 0);
        assert(0 * pow2(125) == 0);
    } else {
        let k = lead(m);
        let w = m * pow2(k as nat);
        assert(single_exp(s) == 113 - k);
        assert(single_mant(s) == (w - 1024) * 8192);
        lemma_pow2_adds(k as nat, (112 - k) as nat);
        lemma_pow2_adds(13, 112);
        let pk = pow2(k as nat) as int;
        let q = pow2((112 - k) as nat) as int;
        let all = pow2(112) as int;
        assert(w * 8192 * q == m * (8192 * all)) by (nonlinear_arith)
            requires
                w == m * pk,
                pk * q == all,
        ;
        assert(0x80_0000 + (w - 1024) * 8192 == w * 8192);
    }
}

/// Narrowing what was widened gives the half back, whatever it is.
pub proof fn law_half_round_trip(bits: u16)
    ensures
        single_to_half(half_to_single(bits) as u32) == bits,
{
    let e = half_exp(bits);
    let m = half_mant(bits);
    vstd::arithmetic::power2::lemma2_to64();
    if e == 0 && m > 0 {
        lemma_lead(m);
    }
    let s = half_to_single(bits) as u32;
    law_widening_is_exact(bits);
    assert(bits == m + 1024 * e + if half_negative(bits) {
        0x8000
    } else {
        0int
    });
    if e == 31 {
        assert(single_mant(s) == m * 8192);
    } else if e > 0 {
        assert(single_exp(s) == e + 112);
        assert(single_mant(s) == m * 8192);
        let n = (e * 0x80_0000 + m * 8192) as nat;
        assert(n == (e * 1024 + m) * 8192);
        assert(n / 8192 == e * 1024 + m && n % 8192 == 0);
    } else if m == 0 {
        assert(single_exp(s) == 0);
    } else {
        let k = lead(m);
        let w = m * pow2(k as nat);
        assert(single_exp(s) == 113 - k);
        assert(single_mant(s) == (w - 1024) * 8192);
        let n = (0x80_0000 + single_mant(s)) as nat;
        assert(n == w * 8192);
        lemma_pow2_adds(k as nat, 13);
        let d = pow2((13 + k) as nat);
        lemma_pow2_pos((13 + k) as nat);
        assert(n == m * d) by (nonlinear_arith)
            requires
                n == w * 8192,
                w == m * pow2(k as nat),
                d == pow2(k as nat) * 8192,
        ;
        vstd::arithmetic::div_mod::lemma_div_multiples_vanish(m, d as int);
        vstd::arithmetic::div_mod::lemma_mod_multiples_basic(m, d as int);
        vstd::arithmetic::mul::lemma_mul_is_commutative(m, d as int);
        assert(n / d == m && n % d == 0);
    }
}

/// Rounding gives a nearest multiple: no other is closer, and of two equally close it is the even one.
pub proof fn law_rounding_is_nearest(n: nat, d: nat, other: nat)
    requires
        d > 0,
    ensures
        ({
            let r = round_half_even(n, d);
            let near = if n >= r * d {
                n - r * d
            } else {
                r * d - n
            };
            let far = if n >= other * d {
                n - other * d
            } else {
                other * d - n
            };
            &&& 2 * near <= d
            &&& near <= far
            &&& (2 * near == d ==> r % 2 == 0)
        }),
{
    let q = (n / d) as int;
    let rem = (n % d) as int;
    vstd::arithmetic::div_mod::lemma_fundamental_div_mod(n as int, d as int);
    let di = d as int;
    let o = other as int;
    assert(n == q * di + rem) by (nonlinear_arith)
        requires
            n == di * q + rem,
    ;
    assert((q + 1) * di == q * di + di) by (nonlinear_arith);
    if o <= q {
        assert(o * di <= q * di) by (nonlinear_arith)
            requires
                o <= q,
                di > 0,
        ;
    } else {
        assert(o * di >= (q + 1) * di) by (nonlinear_arith)
            requires
                o >= q + 1,
                di > 0,
        ;
    }
}

/// The brain-float pattern nearest to a single, ties to even.
pub open spec fn single_to_brain(bits: u32) -> nat {
    round_half_even(bits as nat, 65536)
}

/// The brain float nearest to a single, as patterns. Patterns of no number above all others would
/// carry out of the top and are left out.
pub fn f32_to_bf16(bits: u32) -> (r: u16)
    requires
        bits < 0xffff_8000,
    ensures
        r == single_to_brain(bits),
{
    let rounding: u32 = 0x7fff + (bits / 65536) % 2;
    ((bits + rounding) / 65536) as u16
}

/// The two bytes of the brain float nearest to a single.
pub fn bf16_bytes(bits: u32) -> (r: [u8; 2])
    requires
        bits < 0xffff_8000,
    ensures
        r[0] == single_to_brain(bits) % 256,
        r[1] == single_to_brain(bits) / 256,
{
    let v: u16 = f32_to_bf16(bits);
    [(v % 256) as u8, (v / 256) as u8]
}

/// The single of the same value as a brain float, as patterns.
pub fn bf16_to_f32(u: u16) -> (r: u32)
    ensures
        r == u * 65536,
{
    u as u32 * 65536
}

/// Narrowing a widened brain float gives it back.
pub proof fn law_brain_round_trip(u: u16)
    ensures
        single_to_brain((u * 65536) as u32) == u,
{
}

/// The magnitude of an 8-bit float in units of two to the power of -9.
pub open spec fn e4m3_units(b: u8) -> nat {
    let e = (b as int / 8) % 16;
    let m = b as int % 8;
    if e == 0 {
        m as nat
    } else {
        ((8 + m) * pow2((e - 1) as nat)) as nat
    }
}

/// The pattern of the single that an 8-bit float stands for; an exponent field of all ones stands for
/// infinity.
pub open spec fn e4m3_single(b: u8) -> int {
    let sign = if b >= 0x80 {
        0x8000_0000int
    } else {
        0
    };
    let e = (b as int / 8) % 16;
    let m = b as int % 8;
    sign + if e == 15 {
        0x7f80_0000int
    } else if e > 0 {
        (e + 120) * 0x80_0000 + m * 0x10_0000
    } else if m == 0 {
        0int
    } else if m == 1 {
        118int * 0x80_0000
    } else if m < 4 {
        119 * 0x80_0000 + (m - 2) * 0x40_0000
    } else {
        120 * 0x80_0000 + (m - 4) * 0x20_0000
    }
}

/// The single that an 8-bit float stands for, as patterns.
pub fn e4m3_decode(b: u8) -> (r: u32)
    ensures
        r == e4m3_single(b),
{
    let sign: u32 = if b >= 0x80 {
        0x8000_0000
    } else {
        0
    };
    let e: u32 = ((b / 8) % 16) as u32;
    let m: u32 = (b % 8) as u32;
    if e == 15 {
        sign + 0x7f80_0000
    } else if e > 0 {
        sign + (e + 120) * 0x80_0000 + m * 0x10_0000
    } else if m == 0 {
        sign
    } else if m == 1 {
        sign + 118 * 0x80_0000
    } else if m < 4 {
        sign + 119 * 0x80_0000 + (m - 2) * 0x40_0000
    } else {
        sign + 120 * 0x80_0000 + (m - 4) * 0x20_0000
    }
}

/// An 8-bit float and the single that it stands for have the same sign and value.
pub proof fn law_e4m3_is_exact(b: u8)
    ensures
        0 <= e4m3_single(b) < 0x1_0000_0000,
        ({
            let s = e4m3_single(b) as u32;
            &&& single_negative(s) == (b >= 0x80)
            &&& single_finite(s) == ((b / 8) % 16 != 15)
            &&& single_finite(s) ==> single_units(s) == e4m3_units(b) * pow2(140)
        }),
{
    let e = (b as int / 8) % 16;
    let m = b as int % 8;
    let s = e4m3_single(b) as u32;
    vstd::arithmetic::power2::lemma2_to64();
    assert((b / 8) % 16 == e);
    if e == 15 {
        assert(single_exp(s) == 255);
    } else if e > 0 {
        assert(single_exp(s) == e + 120);
        assert(single_mant(s) == m * 0x10_0000);
        lemma_pow2_adds((e - 1) as nat, 120);
        lemma_pow2_adds(20, 120);
        let p = pow2((e - 1) as nat) as int;
        let q = pow2(120) as int;
        assert((0x80_0000 + m * 0x10_0000) * (p * q) == ((8 + m) * p) * (0x10_0000 * q))
            by (nonlinear_arith);
        assert(single_units(s) == (0x80_0000 + m * 0x10_0000) * (p * q));
        assert(e4m3_units(b) == (8 + m) * p);
        assert(pow2(140) == 0x10_0000 * q);
    } else if m == 0 {
        assert(single_exp(s) == 0 && single_mant(s) == 0);
        assert(single_units(s) == 0 && e4m3_units(b) == 0);
    } else if m == 1 {
        assert(single_exp(s) == 118 && single_mant(s) == 0);
        lemma_pow2_adds(23, 117);
        assert(single_units(s) == 0x80_0000 * pow2(117));
        assert(e4m3_units(b) == 1);
    } else if m < 4 {
        assert(single_exp(s) == 119 && single_mant(s) == (m - 2) * 0x40_0000);
        lemma_pow2_adds(22, 118);
        let q = pow2(118) as int;
        assert((0x80_0000 + (m - 2) * 0x40_0000) * q == m * (0x40_0000 * q)) by (nonlinear_arith);
        assert(single_units(s) == (0x80_0000 + (m - 2) * 0x40_0000) * q);
        assert(pow2(140) == 0x40_0000 * q);
        assert(e4m3_units(b) == m);
    } else {
        assert(single_exp(s) == 120 && single_mant(s) == (m - 4) * 0x20_0000);
        lemma_pow2_adds(21, 119);
        let q = pow2(119) as int;
        assert((0x80_0000 + (m - 4) * 0x20_0000) * q == m * (0x20_0000 * q)) by (nonlinear_arith);
        assert(single_units(s) == (0x80_0000 + (m - 4) * 0x20_0000) * q);
        assert(pow2(140) == 0x20_0000 * q);
        assert(e4m3_units(b) == m);
    }
}

/// The place of a single in the total order of patterns: negative ones from the largest magnitude up
/// to minus zero, then positive ones from zero up.
pub open spec fn total_key(bits: u32) -> int {
    if bits < 0x8000_0000 {
        bits as int
    } else {
        0x7fff_ffff - bits
    }
}

/// The place of a single in the total order of patterns.
pub fn order_key(bits: u32) -> (k: i64)
    ensures
        k == total_key(bits),
{
    if bits < 0x8000_0000 {
        bits as i64
    } else {
        0x7fff_ffff - bits as i64
    }
}

/// The place of a number in the order of values, in which both zeros are one.
pub open spec fn value_key(bits: u32) -> int {
    if bits < 0x8000_0000 {
        bits as int
    } else {
        0x8000_0000 - bits
    }
}

/// The place of a number in the order of values.
pub fn number_key(bits: u32) -> (k: i64)
    ensures
        k == value_key(bits),
{
    if bits < 0x8000_0000 {
        bits as i64
    } else {
        0x8000_0000 - bits as i64
    }
}

/// Positive finite patterns are exactly those from one up to the largest finite one.
pub open spec fn positive_finite(bits: u32) -> bool {
    0 < bits < 0x7f80_0000
}

} // verus!
