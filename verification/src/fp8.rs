//! Eight-bit floats for dense weights: the nearest one to a single, and the largest
//! magnitude of every block of a matrix.

use vstd::arithmetic::power2::{lemma_pow2_adds, lemma_pow2_pos, lemma_pow2_unfold, pow2};
use vstd::prelude::*;

use crate::floatbits::{e4m3_units, single_exp, single_mant, single_units};
use crate::mxfp4::lemma_cell;
use crate::route::is_number;

verus! {

/// The largest magnitude that an eight-bit float holds here: 448, as a pattern.
pub const LARGEST: u32 = 0x43e0_0000;

/// The code of the largest magnitude.
pub const LARGEST_CODE: u8 = 0x7e;

/// How many rows and columns share a scale.
pub const FP8_BLOCK: usize = 128;

/// The pattern of the single that a positive code stands for. An exponent field of all
/// ones is one like any other.
pub open spec fn code_single(c: int) -> int {
    if c >= 8 {
        121 * 0x80_0000 + (c - 8) * 0x10_0000
    } else if c >= 4 {
        120 * 0x80_0000 + (c - 4) * 0x20_0000
    } else if c >= 2 {
        119 * 0x80_0000 + (c - 2) * 0x40_0000
    } else if c == 1 {
        118int * 0x80_0000
    } else {
        0
    }
}

/// The single that a positive code stands for, as patterns.
pub fn e4m3_positive(c: u8) -> (r: u32)
    requires
        c <= LARGEST_CODE,
    ensures
        r == code_single(c as int),
{
    let w: u32 = c as u32;
    if w >= 8 {
        121 * 0x80_0000 + (w - 8) * 0x10_0000
    } else if w >= 4 {
        120 * 0x80_0000 + (w - 4) * 0x20_0000
    } else if w >= 2 {
        119 * 0x80_0000 + (w - 2) * 0x40_0000
    } else if w == 1 {
        118 * 0x80_0000
    } else {
        0
    }
}

/// The magnitude of a positive code in the units of singles.
pub open spec fn code_units(c: int) -> nat {
    e4m3_units(c as u8) * pow2(140)
}

/// A positive code and its single have the same magnitude.
pub proof fn law_codes_are_exact(c: u8)
    requires
        c <= LARGEST_CODE,
    ensures
        0 <= code_single(c as int) <= LARGEST,
        single_units(code_single(c as int) as u32) == code_units(c as int),
{
    let s = code_single(c as int) as u32;
    let e = (c as int / 8) % 16;
    let m = c as int % 8;
    vstd::arithmetic::power2::lemma2_to64();
    assert((c as int) as u8 == c);
    assert(code_units(c as int) == e4m3_units(c) * pow2(140));
    if c >= 8 {
        assert(s == (e + 120) * 0x80_0000 + m * 0x10_0000);
        assert(single_exp(s) == e + 120);
        assert(single_mant(s) == m * 0x10_0000);
        lemma_pow2_adds((e - 1) as nat, 120);
        lemma_pow2_adds(20, 120);
        let p = pow2((e - 1) as nat) as int;
        let q = pow2(120) as int;
        assert((0x80_0000 + m * 0x10_0000) * (p * q) == ((8 + m) * p) * (0x10_0000 * q))
            by (nonlinear_arith);
        assert(single_units(s) == (0x80_0000 + m * 0x10_0000) * (p * q));
        assert(e4m3_units(c) == (8 + m) * p);
        assert(pow2(140) == 0x10_0000 * q);
        assert(single_units(s) == e4m3_units(c) * pow2(140));
    } else if m == 0 {
        assert(single_exp(s) == 0 && single_mant(s) == 0);
        assert(single_units(s) == 0 && e4m3_units(c) == 0);
        assert(single_units(s) == e4m3_units(c) * pow2(140));
    } else if m == 1 {
        assert(single_exp(s) == 118 && single_mant(s) == 0);
        lemma_pow2_adds(23, 117);
        assert(single_units(s) == 0x80_0000 * pow2(117));
        assert(e4m3_units(c) == 1);
        assert(single_units(s) == e4m3_units(c) * pow2(140));
    } else if m < 4 {
        assert(single_exp(s) == 119 && single_mant(s) == (m - 2) * 0x40_0000);
        lemma_pow2_adds(22, 118);
        let q = pow2(118) as int;
        assert((0x80_0000 + (m - 2) * 0x40_0000) * q == m * (0x40_0000 * q)) by (nonlinear_arith);
        assert(single_units(s) == (0x80_0000 + (m - 2) * 0x40_0000) * q);
        assert(pow2(140) == 0x40_0000 * q);
        assert(e4m3_units(c) == m);
        assert(single_units(s) == e4m3_units(c) * pow2(140));
    } else {
        assert(single_exp(s) == 120 && single_mant(s) == (m - 4) * 0x20_0000);
        lemma_pow2_adds(21, 119);
        let q = pow2(119) as int;
        assert((0x80_0000 + (m - 4) * 0x20_0000) * q == m * (0x20_0000 * q)) by (nonlinear_arith);
        assert(single_units(s) == (0x80_0000 + (m - 4) * 0x20_0000) * q);
        assert(pow2(140) == 0x20_0000 * q);
        assert(e4m3_units(c) == m);
        assert(single_units(s) == e4m3_units(c) * pow2(140));
    }
}

/// Among positive finite singles, the larger pattern is the larger number.
pub proof fn law_patterns_order_magnitudes(x: u32, y: u32)
    requires
        x < y < 0x7f80_0000,
    ensures
        single_units(x) < single_units(y),
{
    let (ex, ey) = (single_exp(x), single_exp(y));
    let (mx, my) = (single_mant(x), single_mant(y));
    assert(x == ex * 0x80_0000 + mx);
    assert(y == ey * 0x80_0000 + my);
    if ex == ey {
        assert(mx < my);
        if ex > 0 {
            let p = pow2((ex - 1) as nat) as int;
            lemma_pow2_pos((ex - 1) as nat);
            assert((0x80_0000 + mx) * p < (0x80_0000 + my) * p) by (nonlinear_arith)
                requires
                    mx < my,
                    p > 0,
            ;
        }
    } else {
        assert(ex < ey);
        let q = pow2((ey - 1) as nat) as int;
        lemma_pow2_pos((ey - 1) as nat);
        assert((0x80_0000 + my) * q >= 0x80_0000 * q) by (nonlinear_arith)
            requires
                my >= 0,
                q > 0,
        ;
        if ex == 0 {
            assert(0x80_0000 * q > mx) by (nonlinear_arith)
                requires
                    mx < 0x80_0000,
                    q >= 1,
            ;
        } else {
            let p = pow2((ex - 1) as nat) as int;
            lemma_pow2_pos((ex - 1) as nat);
            if ex < ey - 1 {
                vstd::arithmetic::power2::lemma_pow2_strictly_increases(ex as nat, (ey - 1) as nat);
            }
            lemma_pow2_unfold(ex as nat);
            assert(q >= 2 * p);
            assert((0x80_0000 + mx) * p < 0x80_0000 * q) by (nonlinear_arith)
                requires
                    mx < 0x80_0000,
                    q >= 2 * p,
                    p > 0,
            ;
        }
    }
}

/// The pattern halfway between a code and the next.
pub open spec fn halfway(c: int) -> int {
    if c == 0 {
        117int * 0x80_0000
    } else {
        (code_single(c) + code_single(c + 1)) / 2
    }
}

proof fn lemma_halfway(c: int)
    requires
        0 <= c < LARGEST_CODE,
    ensures
        code_single(c) < halfway(c) < code_single(c + 1),
        2 * single_units(halfway(c) as u32) == code_units(c) + code_units(c + 1),
{
    let h = halfway(c) as u32;
    vstd::arithmetic::power2::lemma2_to64();
    if c >= 8 {
        let e = (c / 8) % 16;
        let m = c % 8;
        assert(h == (e + 120) * 0x80_0000 + m * 0x10_0000 + 0x8_0000);
        assert(single_exp(h) == e + 120);
        assert(single_mant(h) == m * 0x10_0000 + 0x8_0000);
        lemma_pow2_adds((e - 1) as nat, 120);
        lemma_pow2_adds(20, 120);
        let p = pow2((e - 1) as nat) as int;
        let q = pow2(120) as int;
        assert(e4m3_units(c as u8) == (8 + m) * p);
        if m == 7 {
            lemma_pow2_unfold(e as nat);
            assert(((c + 1) / 8) % 16 == e + 1);
            assert(e4m3_units((c + 1) as u8) == (8 + 0) * pow2(e as nat));
            assert(8 * (2 * p) == (8 + m + 1) * p) by (nonlinear_arith)
                requires
                    m == 7,
            ;
        } else {
            assert(((c + 1) / 8) % 16 == e);
        }
        assert(e4m3_units((c + 1) as u8) == (8 + m + 1) * p);
        assert(pow2(140) == 0x10_0000 * q);
        assert(2 * ((0x80_0000 + m * 0x10_0000 + 0x8_0000) * (p * q)) == ((8 + m) * p) * (0x10_0000
            * q) + ((8 + m + 1) * p) * (0x10_0000 * q)) by (nonlinear_arith);
        assert(2 * single_units(h) == code_units(c) + code_units(c + 1));
    } else if c == 0 {
        assert(single_exp(h) == 117 && single_mant(h) == 0);
        lemma_pow2_adds(23, 116);
        lemma_pow2_unfold(140);
        assert(e4m3_units(0u8) == 0 && e4m3_units(1u8) == 1);
        assert(single_units(h) == 0x80_0000 * pow2(116));
        assert(c as u8 == 0u8 && (c + 1) as u8 == 1u8);
        assert(pow2(139) == 0x80_0000 * pow2(116));
        assert(pow2(140) == 2 * pow2(139));
        let p = pow2(140) as int;
        assert(0 * p == 0 && 1 * p == p) by (nonlinear_arith);
        assert(e4m3_units(c as u8) == 0 && e4m3_units((c + 1) as u8) == 1);
        assert(code_units(c) == 0 * p);
        assert(code_units(c + 1) == 1 * p);
        assert(2 * single_units(h) == code_units(c) + code_units(c + 1));
    } else if c == 1 {
        assert(single_exp(h) == 118 && single_mant(h) == 0x40_0000);
        lemma_pow2_adds(22, 118);
        lemma_pow2_unfold(118);
        assert(e4m3_units(1u8) == 1 && e4m3_units(2u8) == 2);
        assert(single_units(h) == 0xc0_0000 * pow2(117));
        assert(pow2(140) == 0x80_0000 * pow2(117));
        assert(c as u8 == 1u8 && (c + 1) as u8 == 2u8);
        assert(code_units(c) == pow2(140));
        assert(code_units(c + 1) == 2 * pow2(140));
        assert(2 * single_units(h) == code_units(c) + code_units(c + 1));
    } else if c < 4 {
        assert(h == 119 * 0x80_0000 + (c - 2) * 0x40_0000 + 0x20_0000);
        assert(single_exp(h) == 119 && single_mant(h) == (c - 2) * 0x40_0000 + 0x20_0000);
        lemma_pow2_adds(22, 118);
        let q = pow2(118) as int;
        assert(e4m3_units(c as u8) == c && e4m3_units((c + 1) as u8) == c + 1);
        assert(2 * ((0x80_0000 + (c - 2) * 0x40_0000 + 0x20_0000) * q) == c * (0x40_0000 * q) + (c
            + 1) * (0x40_0000 * q)) by (nonlinear_arith);
        assert(2 * single_units(h) == code_units(c) + code_units(c + 1));
    } else {
        assert(h == 120 * 0x80_0000 + (c - 4) * 0x20_0000 + 0x10_0000);
        assert(single_exp(h) == 120 && single_mant(h) == (c - 4) * 0x20_0000 + 0x10_0000);
        lemma_pow2_adds(21, 119);
        let q = pow2(119) as int;
        assert(e4m3_units(c as u8) == c);
        if c == 7 {
            assert(e4m3_units(8u8) == 8 * pow2(0));
        }
        assert(e4m3_units((c + 1) as u8) == c + 1);
        assert(2 * ((0x80_0000 + (c - 4) * 0x20_0000 + 0x10_0000) * q) == c * (0x20_0000 * q) + (c
            + 1) * (0x20_0000 * q)) by (nonlinear_arith);
        assert(2 * single_units(h) == code_units(c) + code_units(c + 1));
    }
}

/// The magnitude that is looked for: no larger than the largest. What is no number
/// counts as the largest.
pub open spec fn wanted(bits: u32) -> u32 {
    let a = (bits % 0x8000_0000) as u32;
    if a > LARGEST {
        LARGEST
    } else {
        a
    }
}

/// The distance of a code from a magnitude.
pub open spec fn apart(c: int, a: nat) -> int {
    if code_units(c) >= a {
        code_units(c) - a
    } else {
        a - code_units(c)
    }
}

/// Whether a code is the nearest to a magnitude, the smaller of two that are as near.
pub open spec fn is_nearest(c: int, a: nat) -> bool {
    &&& 0 <= c <= LARGEST_CODE
    &&& forall|d: int| 0 <= d <= LARGEST_CODE ==> apart(c, a) <= #[trigger] apart(d, a)
    &&& forall|d: int| 0 <= d < c ==> apart(c, a) < #[trigger] apart(d, a)
}

proof fn lemma_units_order(c: int, d: int)
    requires
        0 <= c < d <= LARGEST_CODE,
    ensures
        code_single(c) < code_single(d) <= LARGEST,
        code_units(c) < code_units(d),
{
    law_codes_are_exact(c as u8);
    law_codes_are_exact(d as u8);
    law_patterns_order_magnitudes(code_single(c) as u32, code_single(d) as u32);
}

proof fn lemma_zero_is_nearest()
    ensures
        is_nearest(0, single_units(0)),
{
    assert(single_units(0) == 0);
    assert(e4m3_units(0u8) == 0);
    assert((0int) as u8 == 0u8);
    let p = pow2(140) as int;
    assert(0 * p == 0) by (nonlinear_arith);
    assert(code_units(0) == 0);
    assert forall|d: int| 0 <= d <= LARGEST_CODE implies apart(0, 0) <= #[trigger] apart(d, 0) by {}
}

proof fn lemma_nearest(a: u32, hi: int, code: int)
    requires
        1 <= hi <= LARGEST_CODE,
        code_single(hi - 1) < a <= code_single(hi),
        code == (if a <= halfway(hi - 1) {
            hi - 1
        } else {
            hi
        }),
    ensures
        is_nearest(code, single_units(a)),
{
    let (l, h) = (hi - 1, hi);
    let u = single_units(a);
    law_codes_are_exact(h as u8);
    law_codes_are_exact(l as u8);
    lemma_halfway(l);
    let mid = halfway(l) as u32;
    if a < code_single(h) {
        law_patterns_order_magnitudes(a, code_single(h) as u32);
    }
    law_patterns_order_magnitudes(code_single(l) as u32, a);
    if a < mid {
        law_patterns_order_magnitudes(a, mid);
    } else if mid < a {
        law_patterns_order_magnitudes(mid, a);
    }
    let (ul, uh) = (code_units(l), code_units(h));
    assert(ul < u <= uh);
    assert(code == l ==> 2 * u <= ul + uh);
    assert(code == h ==> 2 * u > ul + uh);
    assert forall|d: int| 0 <= d <= LARGEST_CODE implies apart(code, u) <= #[trigger] apart(d, u) by {
        if d < l {
            lemma_units_order(d, l);
        } else if d > h {
            lemma_units_order(h, d);
        }
    }
    assert forall|d: int| 0 <= d < code implies apart(code, u) < #[trigger] apart(d, u) by {
        if d < l {
            lemma_units_order(d, l);
        }
    }
}

/// The first code whose magnitude is no less than a pattern.
fn first_no_less(a: u32) -> (r: u8)
    requires
        a <= LARGEST,
    ensures
        r <= LARGEST_CODE,
        a <= code_single(r as int),
        r > 0 ==> code_single(r - 1) < a,
{
    let mut hi: u8 = 0;
    while e4m3_positive(hi) < a
        invariant
            hi <= LARGEST_CODE,
            a <= LARGEST,
            hi > 0 ==> code_single(hi - 1) < a,
        decreases LARGEST_CODE - hi,
    {
        assert(code_single(0x7e) == LARGEST);
        hi = hi + 1;
    }
    hi
}

/// The code nearest to a single: that of its magnitude, with its sign.
pub fn nearest_e4m3(bits: u32) -> (r: u8)
    ensures
        is_nearest(r as int % 128, single_units(wanted(bits))),
        (r >= 0x80) == (bits >= 0x8000_0000),
{
    let sign: u8 = if bits >= 0x8000_0000 {
        0x80
    } else {
        0
    };
    let mut a: u32 = bits % 0x8000_0000;
    if a > LARGEST {
        a = LARGEST;
    }
    let hi: u8 = first_no_less(a);
    if hi == 0 {
        proof {
            lemma_zero_is_nearest();
        }
        return sign;
    }
    let lo: u8 = hi - 1;
    let down: bool = if lo == 0 {
        a <= 117 * 0x80_0000
    } else {
        a <= (e4m3_positive(lo) + e4m3_positive(hi)) / 2
    };
    let code: u8 = if down {
        lo
    } else {
        hi
    };
    proof {
        lemma_nearest(a, hi as int, code as int);
        assert((sign + code) % 128 == code);
    }
    sign + code
}

/// The codes nearest to a list of singles.
pub fn nearest_codes(v: &Vec<u32>) -> (r: Vec<u8>)
    ensures
        r@.len() == v@.len(),
        forall|i: int|
            0 <= i < v@.len() ==> {
                &&& is_nearest(#[trigger] r@[i] as int % 128, single_units(wanted(v@[i])))
                &&& (r@[i] >= 0x80) == (v@[i] >= 0x8000_0000)
            },
{
    let mut r: Vec<u8> = Vec::new();
    let mut i: usize = 0;
    while i < v.len()
        invariant
            i <= v@.len(),
            r@.len() == i,
            forall|k: int|
                0 <= k < i ==> {
                    &&& is_nearest(#[trigger] r@[k] as int % 128, single_units(wanted(v@[k])))
                    &&& (r@[k] >= 0x80) == (v@[k] >= 0x8000_0000)
                },
        decreases v@.len() - i,
    {
        r.push(nearest_e4m3(v[i]));
        i = i + 1;
    }
    r
}

/// A code stands for itself: the nearest code to what it stands for is that code.
pub proof fn law_codes_survive(c: u8, d: int)
    requires
        c <= LARGEST_CODE,
        is_nearest(d, single_units(wanted(code_single(c as int) as u32))),
    ensures
        d == c,
{
    law_codes_are_exact(c);
    let u = code_units(c as int);
    assert(wanted(code_single(c as int) as u32) == code_single(c as int));
    assert(apart(c as int, u) == 0);
    if d < c {
        lemma_units_order(d, c as int);
    } else if d > c {
        lemma_units_order(c as int, d);
    }
}

/// The magnitude of a bfloat16 weight, as a pattern, where it is a number.
pub open spec fn weight_magnitude(bytes: Seq<u8>, i: int) -> u32 {
    let b = bytes[2 * i] + 256 * bytes[2 * i + 1];
    let a = ((b % 0x8000) * 65536) as u32;
    if is_number(a) {
        a
    } else {
        0
    }
}

/// How many blocks a length has.
pub open spec fn blocks(n: int) -> int {
    (n + 127) / 128
}

/// Whether a magnitude is the largest of a block of a matrix.
pub open spec fn is_block_max(bytes: Seq<u8>, rows: int, cols: int, bo: int, bi: int, m: u32) -> bool {
    &&& forall|r: int, c: int|
        in_block(rows, cols, bo, bi, r, c) ==> #[trigger] weight_magnitude(bytes, r * cols + c) <= m
    &&& m == 0 || exists|r: int, c: int|
        in_block(rows, cols, bo, bi, r, c) && #[trigger] weight_magnitude(bytes, r * cols + c) == m
}

/// Whether a cell lies in a block.
pub open spec fn in_block(rows: int, cols: int, bo: int, bi: int, r: int, c: int) -> bool {
    &&& 0 <= r < rows && 0 <= c < cols
    &&& bo * 128 <= r < bo * 128 + 128
    &&& bi * 128 <= c < bi * 128 + 128
}

fn magnitude(bytes: &Vec<u8>, i: usize) -> (r: u32)
    requires
        2 * i + 1 < bytes@.len(),
    ensures
        r == weight_magnitude(bytes@, i as int),
{
    assert(bytes.len() == bytes@.len());
    let b: u32 = bytes[2 * i] as u32 + 256 * bytes[2 * i + 1] as u32;
    let a: u32 = (b % 0x8000) * 65536;
    if a % 0x8000_0000 <= 0x7f80_0000 {
        a
    } else {
        0
    }
}

/// The largest magnitude of one block of a matrix of bfloat16 weights.
pub fn block_max(bytes: &Vec<u8>, rows: usize, cols: usize, bo: usize, bi: usize) -> (r: u32)
    requires
        bytes@.len() == rows * cols * 2,
        bo < blocks(rows as int),
        bi < blocks(cols as int),
    ensures
        is_block_max(bytes@, rows as int, cols as int, bo as int, bi as int, r),
{
    let r0: usize = bo * 128;
    let r1: usize = if rows - r0 > 128 {
        r0 + 128
    } else {
        rows
    };
    let c0: usize = bi * 128;
    let c1: usize = if cols - c0 > 128 {
        c0 + 128
    } else {
        cols
    };
    let mut m: u32 = 0;
    let mut r: usize = r0;
    while r < r1
        invariant
            bytes@.len() == rows * cols * 2,
            r0 == bo * 128,
            c0 == bi * 128,
            r0 <= r <= r1 <= rows,
            r1 <= r0 + 128,
            c0 <= c1 <= cols,
            c1 == cols || c1 == c0 + 128,
            r1 == rows || r1 == r0 + 128,
            c1 <= c0 + 128,
            forall|i: int, c: int|
                in_block(rows as int, cols as int, bo as int, bi as int, i, c) && i < r ==> #[trigger]
                    weight_magnitude(bytes@, i * cols + c) <= m,
            m == 0 || exists|i: int, c: int|
                in_block(rows as int, cols as int, bo as int, bi as int, i, c) && #[trigger]
                    weight_magnitude(bytes@, i * cols + c) == m,
        decreases r1 - r,
    {
        let mut c: usize = c0;
        while c < c1
            invariant
                bytes@.len() == rows * cols * 2,
                r0 == bo * 128,
                c0 == bi * 128,
                r0 <= r < r1 <= rows,
                r1 <= r0 + 128,
                c0 <= c <= c1 <= cols,
                c1 <= c0 + 128,
                forall|i: int, k: int|
                    in_block(rows as int, cols as int, bo as int, bi as int, i, k) && (i < r || (i == r
                        && k < c)) ==> #[trigger] weight_magnitude(bytes@, i * cols + k) <= m,
                m == 0 || exists|i: int, k: int|
                    in_block(rows as int, cols as int, bo as int, bi as int, i, k) && #[trigger]
                        weight_magnitude(bytes@, i * cols + k) == m,
            decreases c1 - c,
        {
            proof {
                lemma_cell(rows as nat, cols as nat, r as int, c as int);
                assert(bytes.len() == bytes@.len());
                assert(2 * (r * cols + c) + 1 < rows * cols * 2);
            }
            let a: u32 = magnitude(bytes, r * cols + c);
            proof {
                assert(in_block(rows as int, cols as int, bo as int, bi as int, r as int, c as int));
                assert(weight_magnitude(bytes@, r as int * cols + c) == a);
            }
            if a > m {
                m = a;
            }
            c = c + 1;
        }
        r = r + 1;
    }
    m
}

/// The largest magnitudes of all blocks of a matrix of bfloat16 weights, row of blocks
/// after row of blocks.
pub fn block_maxima(bytes: &Vec<u8>, rows: usize, cols: usize) -> (r: Vec<u32>)
    requires
        bytes@.len() == rows * cols * 2,
        rows + 127 <= usize::MAX,
        cols + 127 <= usize::MAX,
    ensures
        r@.len() == blocks(rows as int) * blocks(cols as int),
        forall|bo: int, bi: int|
            0 <= bo < blocks(rows as int) && 0 <= bi < blocks(cols as int) ==> #[trigger] is_block_max(
                bytes@,
                rows as int,
                cols as int,
                bo,
                bi,
                r@[bo * blocks(cols as int) + bi],
            ),
{
    let br: usize = (rows + 127) / 128;
    let bc: usize = (cols + 127) / 128;
    let mut r: Vec<u32> = Vec::new();
    let mut bo: usize = 0;
    while bo < br
        invariant
            bytes@.len() == rows * cols * 2,
            br == blocks(rows as int),
            bc == blocks(cols as int),
            bo <= br,
            r@.len() == bo * bc,
            forall|o: int, i: int|
                0 <= o < bo && 0 <= i < bc ==> #[trigger] is_block_max(
                    bytes@,
                    rows as int,
                    cols as int,
                    o,
                    i,
                    r@[o * bc + i],
                ),
        decreases br - bo,
    {
        let mut bi: usize = 0;
        while bi < bc
            invariant
                bytes@.len() == rows * cols * 2,
                br == blocks(rows as int),
                bc == blocks(cols as int),
                bo < br,
                bi <= bc,
                r@.len() == bo * bc + bi,
                forall|o: int, i: int|
                    0 <= o <= bo && 0 <= i < bc && (o < bo || i < bi) ==> #[trigger] is_block_max(
                        bytes@,
                        rows as int,
                        cols as int,
                        o,
                        i,
                        r@[o * bc + i],
                    ),
            decreases bc - bi,
        {
            let ghost before = r@;
            let m: u32 = block_max(bytes, rows, cols, bo, bi);
            r.push(m);
            proof {
                assert forall|o: int, i: int|
                    0 <= o <= bo && 0 <= i < bc && (o < bo || i < bi + 1) implies #[trigger] is_block_max(
                    bytes@,
                    rows as int,
                    cols as int,
                    o,
                    i,
                    r@[o * bc + i],
                ) by {
                    if o < bo {
                        lemma_cell(bo as nat, bc as nat, o, i);
                        assert(r@[o * bc + i] == before[o * bc + i]);
                    } else if i < bi {
                        assert(r@[o * bc + i] == before[o * bc + i]);
                    }
                }
            }
            bi = bi + 1;
        }
        proof {
            assert((bo + 1) * bc == bo * bc + bc) by (nonlinear_arith);
        }
        bo = bo + 1;
    }
    r
}

} // verus!
