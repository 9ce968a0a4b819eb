//! MXFP4: four-bit floating-point codes in groups of thirty-two that share a
//! power-of-two scale.
//!
//! A code holds a sign and one of eight magnitudes. A scale byte `s` stands for
//! the factor 2^(s-127). The weights that are quantized here are bfloat16
//! numbers, so every comparison and every difference is exact and is made in
//! integers, in units of the smallest bfloat16 number (2^-133).

use vstd::arithmetic::power2::{lemma2_to64, lemma_pow2_adds, lemma_pow2_pos, pow2};
use vstd::prelude::*;

use crate::bytes::{le, read_le};
use crate::floatbits::round_half_even;

verus! {

/// How many weights share a scale.
pub const GROUP: usize = 32;

/// The biased exponent of a bfloat16 number.
pub open spec fn brain_exp(b: u16) -> int {
    ((b / 128) % 256) as int
}

/// The fraction bits of a bfloat16 number.
pub open spec fn brain_mant(b: u16) -> int {
    (b % 128) as int
}

/// Whether a bfloat16 number is neither infinite nor a NaN.
pub open spec fn brain_finite(b: u16) -> bool {
    brain_exp(b) != 255
}

/// The significand of a finite bfloat16 number, hidden bit and all.
pub open spec fn brain_sig(b: u16) -> int {
    if brain_exp(b) == 0 {
        brain_mant(b)
    } else {
        128 + brain_mant(b)
    }
}

/// How often the significand is doubled to count units.
pub open spec fn brain_shift(b: u16) -> int {
    if brain_exp(b) == 0 {
        0
    } else {
        brain_exp(b) - 1
    }
}

/// The magnitude of a finite bfloat16 number, in units of 2^-133.
pub open spec fn brain_units(b: u16) -> nat {
    (brain_sig(b) * pow2(brain_shift(b) as nat)) as nat
}

/// Twice the magnitude that the low three bits of a code stand for.
pub open spec fn doubled(c: int) -> int {
    if c == 0 {
        0
    } else if c == 1 {
        1
    } else if c == 2 {
        2
    } else if c == 3 {
        3
    } else if c == 4 {
        4
    } else if c == 5 {
        6
    } else if c == 6 {
        8
    } else {
        12
    }
}

/// The code of the magnitude nearest to a quarter of `n / d`, the even code
/// where two are as near; the largest code for all that is larger.
pub open spec fn nearest_code(n: nat, d: nat) -> int {
    if n <= d {
        0
    } else if n < 3 * d {
        1
    } else if n <= 5 * d {
        2
    } else if n < 7 * d {
        3
    } else if n <= 10 * d {
        4
    } else if n < 14 * d {
        5
    } else if n <= 20 * d {
        6
    } else {
        7
    }
}

/// The scale byte for a group whose largest magnitude has the bits `m`.
pub open spec fn scale_code(m: u16) -> int {
    if m == 0 {
        127
    } else if brain_exp(m) < 3 {
        1
    } else if brain_mant(m) > 64 {
        brain_exp(m) - 1
    } else {
        brain_exp(m) - 2
    }
}

/// The three magnitude bits of the code for `b` under the scale `s`. What is not
/// finite takes the largest magnitude.
pub open spec fn magnitude_code(b: u16, s: u8) -> int {
    if brain_finite(b) {
        nearest_code(4 * brain_units(b), pow2((s + 6) as nat))
    } else {
        7
    }
}

/// The four-bit code for `b` under the scale `s`.
pub open spec fn code_of(b: u16, s: u8) -> int {
    if b >= 0x8000 {
        8 + magnitude_code(b, s)
    } else {
        magnitude_code(b, s)
    }
}

/// The multiples that the codes stand for.
proof fn lemma_doubled(c: int, d: nat)
    requires
        0 <= c < 8,
    ensures
        doubled(c) * d == (if c <= 4 {
            c * d
        } else if c == 5 {
            6 * (d as int)
        } else if c == 6 {
            8 * (d as int)
        } else {
            12 * (d as int)
        }),
        c == 0 ==> c * d == 0,
        c == 1 ==> c * d == d,
        c == 2 ==> c * d == 2 * d,
        c == 3 ==> c * d == 3 * d,
        c == 4 ==> c * d == 4 * d,
{
}

/// No other code is nearer than the one chosen, as long as the value is within
/// range; and of two that are as near, the chosen one is even.
pub proof fn law_nearest_code(n: nat, d: nat, other: int)
    requires
        d > 0,
        n <= 24 * d,
        0 <= other < 8,
    ensures
        ({
            let c = nearest_code(n, d);
            let e = if n >= 2 * doubled(c) * d { n - 2 * doubled(c) * d } else { 2 * doubled(c) * d - n };
            let f = if n >= 2 * doubled(other) * d { n - 2 * doubled(other) * d } else { 2 * doubled(other) * d - n };
            e <= f && (e == f && other != c ==> c % 2 == 0)
        }),
{
    let c = nearest_code(n, d);
    lemma_doubled(c, d);
    lemma_doubled(other, d);
    assert(2 * doubled(c) * d == 2 * (doubled(c) * d)) by (nonlinear_arith);
    assert(2 * doubled(other) * d == 2 * (doubled(other) * d)) by (nonlinear_arith);
}

/// Only the ratio decides the code.
proof fn lemma_ratio(n: nat, d: nat, f: nat)
    requires
        f > 0,
    ensures
        nearest_code(n * f, d * f) == nearest_code(n, d),
{
    assert(n * f <= d * f <==> n <= d) by (nonlinear_arith)
        requires
            f > 0,
    ;
    assert(n * f < 3 * (d * f) <==> n < 3 * d) by (nonlinear_arith)
        requires
            f > 0,
    ;
    assert(n * f <= 5 * (d * f) <==> n <= 5 * d) by (nonlinear_arith)
        requires
            f > 0,
    ;
    assert(n * f < 7 * (d * f) <==> n < 7 * d) by (nonlinear_arith)
        requires
            f > 0,
    ;
    assert(n * f <= 10 * (d * f) <==> n <= 10 * d) by (nonlinear_arith)
        requires
            f > 0,
    ;
    assert(n * f < 14 * (d * f) <==> n < 14 * d) by (nonlinear_arith)
        requires
            f > 0,
    ;
    assert(n * f <= 20 * (d * f) <==> n <= 20 * d) by (nonlinear_arith)
        requires
            f > 0,
    ;
}

/// The scale is the least that keeps the largest magnitude within range.
pub proof fn law_scale_is_least(m: u16)
    requires
        0 < m < 0x7f80,
    ensures
        1 <= scale_code(m) <= 253,
        brain_units(m) <= 6 * pow2((scale_code(m) + 6) as nat),
        scale_code(m) > 1 ==> brain_units(m) > 6 * pow2((scale_code(m) + 5) as nat),
{
    let e = brain_exp(m);
    let g = brain_sig(m);
    let s = scale_code(m);
    let k = brain_shift(m) as nat;
    lemma2_to64();
    lemma_pow2_pos(k);
    if e < 3 {
        assert(k == 0 || k == 1);
        assert(pow2(k) <= 2);
        assert(pow2(7) == 128);
        assert(g * pow2(k) <= 255 * 2) by (nonlinear_arith)
            requires
                0 <= g <= 255,
                0 <= pow2(k) <= 2,
        ;
    } else {
        assert(s + 6 >= k + 5);
        if brain_mant(m) > 64 {
            assert(s + 6 == k + 6);
            lemma_pow2_adds(k, 6);
            lemma_pow2_adds(k, 5);
            assert(pow2(k + 6) == pow2(k) * 64);
            assert(pow2(k + 5) == pow2(k) * 32);
            assert(g * pow2(k) <= 6 * (pow2(k) * 64)) by (nonlinear_arith)
                requires
                    0 <= g <= 255,
            ;
            assert(g * pow2(k) > 6 * (pow2(k) * 32)) by (nonlinear_arith)
                requires
                    g >= 193,
                    pow2(k) > 0,
            ;
        } else {
            assert(s + 6 == k + 5);
            lemma_pow2_adds(k, 5);
            lemma_pow2_adds(k, 4);
            assert(pow2(k + 5) == pow2(k) * 32);
            assert(pow2(k + 4) == pow2(k) * 16);
            assert(g * pow2(k) <= 6 * (pow2(k) * 32)) by (nonlinear_arith)
                requires
                    0 <= g <= 192,
            ;
            assert(g * pow2(k) > 6 * (pow2(k) * 16)) by (nonlinear_arith)
                requires
                    g >= 128,
                    pow2(k) > 0,
            ;
        }
    }
}

/// Picks the scale byte for the largest magnitude of a group.
pub fn mxfp4_choose_scale(m: u16) -> (s: u8)
    requires
        m < 0x7f80,
    ensures
        s == scale_code(m),
        1 <= s <= 253,
{
    if m == 0 {
        return 127;
    }
    let e: u16 = m / 128;
    if e < 3 {
        1
    } else if m % 128 > 64 {
        (e - 1) as u8
    } else {
        (e - 2) as u8
    }
}

/// The scale byte for a group of which a positive single of the pattern `m` is to be held.
pub open spec fn single_scale_code(m: u32) -> int {
    let (exponent, mantissa) = (m as int / 0x80_0000, m as int % 0x80_0000);
    if m == 0 {
        127
    } else if exponent < 3 {
        1
    } else if exponent == 255 || mantissa > 0x40_0000 {
        exponent - 1
    } else {
        exponent - 2
    }
}

/// Picks the scale byte for a limit that need not be a weight.
pub fn choose_scale_of_single(m: u32) -> (s: u8)
    requires
        m <= 0x7f80_0000,
    ensures
        s == single_scale_code(m),
        1 <= s <= 254,
{
    if m == 0 {
        return 127;
    }
    let e: u32 = m / 0x80_0000;
    if e < 3 {
        1
    } else if e == 255 || m % 0x80_0000 > 0x40_0000 {
        (e - 1) as u8
    } else {
        (e - 2) as u8
    }
}

/// A weight is held by the same scale whether it is taken as a bfloat16 or as a single.
pub proof fn law_a_weight_has_one_scale(m: u16)
    requires
        m < 0x7f80,
    ensures
        single_scale_code((m * 65536) as u32) == scale_code(m),
{
    let wide = m as int * 65536;
    assert(wide / 0x80_0000 == m as int / 128);
    assert(wide % 0x80_0000 == (m as int % 128) * 65536);
}

/// Two to a small power.
fn small_power(t: u16) -> (p: u32)
    requires
        t <= 8,
    ensures
        p == pow2(t as nat),
        1 <= p <= 256,
{
    proof {
        lemma2_to64();
    }
    if t == 0 {
        1
    } else if t == 1 {
        2
    } else if t == 2 {
        4
    } else if t == 3 {
        8
    } else if t == 4 {
        16
    } else if t == 5 {
        32
    } else if t == 6 {
        64
    } else if t == 7 {
        128
    } else {
        256
    }
}

/// Powers of two grow.
proof fn lemma_pow2_grows(a: nat, b: nat)
    requires
        a <= b,
    ensures
        pow2(a) <= pow2(b),
        pow2(b) == pow2(a) * pow2((b - a) as nat),
{
    lemma_pow2_adds(a, (b - a) as nat);
    lemma_pow2_pos((b - a) as nat);
    lemma_pow2_pos(a);
    assert(pow2(a) <= pow2(a) * pow2((b - a) as nat)) by (nonlinear_arith)
        requires
            pow2((b - a) as nat) >= 1,
    ;
}

/// How the magnitude code reads off significand and exponents.
proof fn lemma_magnitude(b: u16, s: u8)
    requires
        brain_finite(b),
    ensures
        brain_shift(b) >= s + 4 && brain_sig(b) >= 128 ==> magnitude_code(b, s) == 7,
        brain_shift(b) < s + 4 ==> magnitude_code(b, s) == nearest_code(
            brain_sig(b) as nat,
            pow2((s + 4 - brain_shift(b)) as nat),
        ),
{
    let g = brain_sig(b) as nat;
    let k = brain_shift(b) as nat;
    let d = pow2((s + 6) as nat);
    lemma2_to64();
    lemma_pow2_pos(k);
    lemma_pow2_pos(k + 2);
    lemma_pow2_adds(k, 2);
    assert(4 * (g * pow2(k)) == g * (pow2(k) * 4)) by (nonlinear_arith);
    assert(4 * brain_units(b) == g * pow2(k + 2));
    if k >= s + 4 {
        lemma_pow2_grows((s + 6) as nat, k + 2);
        lemma_pow2_pos((s + 6) as nat);
        assert(g >= 128 ==> g * pow2(k + 2) > 20 * d) by (nonlinear_arith)
            requires
                pow2(k + 2) >= d,
                d > 0,
        {
            if g >= 128 {
                assert(g * pow2(k + 2) >= 128 * d);
            }
        }
        assert(g * pow2(k + 2) > 20 * d ==> nearest_code(4 * brain_units(b), d) == 7);
    } else {
        let t = (s + 4 - k) as nat;
        lemma_pow2_grows(k + 2, (s + 6) as nat);
        assert(d == pow2(k + 2) * pow2(t));
        assert(pow2(k + 2) * pow2(t) == pow2(t) * pow2(k + 2)) by (nonlinear_arith);
        lemma_ratio(g, pow2(t), pow2(k + 2));
    }
}

/// The code of a bfloat16 weight under a scale.
pub fn mxfp4_quantize_value(b: u16, s: u8) -> (c: u8)
    requires
        s >= 1,
    ensures
        c == code_of(b, s),
        c < 16,
{
    let sign: u8 = if b >= 0x8000 {
        8
    } else {
        0
    };
    let e: u16 = (b / 128) % 256;
    if e == 255 {
        return sign + 7;
    }
    let g: u32 = if e == 0 {
        (b % 128) as u32
    } else {
        128 + (b % 128) as u32
    };
    let k: u16 = if e == 0 {
        0
    } else {
        e - 1
    };
    let top: u16 = s as u16 + 4;
    proof {
        lemma_magnitude(b, s);
    }
    if k >= top {
        return sign + 7;
    }
    let t: u16 = top - k;
    if t > 8 {
        proof {
            lemma2_to64();
            lemma_pow2_grows(8, t as nat);
        }
        return sign;
    }
    let d: u32 = small_power(t);
    let c: u8 = if g <= d {
        0
    } else if g < 3 * d {
        1
    } else if g <= 5 * d {
        2
    } else if g < 7 * d {
        3
    } else if g <= 10 * d {
        4
    } else if g < 14 * d {
        5
    } else if g <= 20 * d {
        6
    } else {
        7
    };
    sign + c
}

/// The weight at a row and a column of a matrix with `cols` columns.
pub open spec fn weight(w: Seq<u8>, cols: nat, row: int, col: int) -> u16 {
    le(w, 2 * (row * cols + col), 2) as u16
}

/// The larger of two magnitudes, where what is not finite counts for nothing.
pub open spec fn larger(m: u16, b: u16) -> u16 {
    if brain_finite(b) && b % 0x8000 > m {
        b % 0x8000
    } else {
        m
    }
}

/// The largest finite magnitude among the columns from `from` to `to` of a row.
pub open spec fn peak(w: Seq<u8>, cols: nat, row: int, from: int, to: int) -> u16
    decreases to - from,
{
    if to <= from {
        0
    } else {
        larger(peak(w, cols, row, from, to - 1), weight(w, cols, row, to - 1))
    }
}

/// How many scales a row has.
pub open spec fn groups(cols: nat) -> nat {
    (cols + 31) / 32
}

/// How many bytes the codes of a row take.
pub open spec fn packed_len(cols: nat) -> nat {
    (cols + 1) / 2
}

/// Where a group ends.
pub open spec fn group_end(cols: nat, group: int) -> int {
    if 32 * group + 32 <= cols {
        32 * group + 32
    } else {
        cols as int
    }
}

/// The scale byte of a group of a row.
pub open spec fn group_scale(w: Seq<u8>, cols: nat, row: int, group: int) -> u8 {
    scale_code(peak(w, cols, row, 32 * group, group_end(cols, group))) as u8
}

/// The scale bytes of a matrix, row by row.
pub open spec fn scales_of(w: Seq<u8>, rows: nat, cols: nat) -> Seq<u8> {
    Seq::new(
        rows * groups(cols),
        |k: int| group_scale(w, cols, k / groups(cols) as int, k % groups(cols) as int),
    )
}

/// The code of the weight at a row and a column, under the scales given.
pub open spec fn entry(w: Seq<u8>, cols: nat, scales: Seq<u8>, row: int, col: int) -> int {
    code_of(weight(w, cols, row, col), scales[row * groups(cols) + col / 32])
}

/// A byte of two codes: the even column low, the odd column high.
pub open spec fn pair(w: Seq<u8>, cols: nat, scales: Seq<u8>, row: int, j: int) -> u8 {
    (entry(w, cols, scales, row, 2 * j) + (if 2 * j + 1 < cols {
        16 * entry(w, cols, scales, row, 2 * j + 1)
    } else {
        0
    })) as u8
}

/// The packed codes of a matrix, row by row, under the scales given.
pub open spec fn packed_of(w: Seq<u8>, rows: nat, cols: nat, scales: Seq<u8>) -> Seq<u8> {
    Seq::new(
        rows * packed_len(cols),
        |k: int| pair(w, cols, scales, k / packed_len(cols) as int, k % packed_len(cols) as int),
    )
}

/// Codes and scales of a matrix of bfloat16 weights.
pub open spec fn mxfp4_of(w: Seq<u8>, rows: nat, cols: nat) -> (Seq<u8>, Seq<u8>) {
    (packed_of(w, rows, cols, scales_of(w, rows, cols)), scales_of(w, rows, cols))
}

/// Whether the bytes are a matrix with as many rows and columns, none of them none.
pub open spec fn is_matrix(w: Seq<u8>, rows: nat, cols: nat) -> bool {
    rows > 0 && cols > 0 && w.len() == 2 * (rows * cols)
}

/// A row and a column lie within the matrix.
pub(crate) proof fn lemma_cell(rows: nat, cols: nat, row: int, col: int)
    requires
        0 <= row < rows,
        0 <= col < cols,
    ensures
        0 <= row * cols + col < rows * cols,
        row * cols + cols <= rows * cols,
        0 <= row * cols,
        (row * cols + col) / cols as int == row,
        (row * cols + col) % cols as int == col,
{
    assert(0 <= row * cols && row * cols + cols <= rows * cols) by (nonlinear_arith)
        requires
            0 <= row < rows,
            0 <= cols,
    ;
    vstd::arithmetic::div_mod::lemma_fundamental_div_mod_converse(
        row * cols + col,
        cols as int,
        row,
        col,
    );
}

/// Reads a weight.
fn weight_at(w: &[u8], rows: usize, cols: usize, row: usize, col: usize) -> (b: u16)
    requires
        is_matrix(w@, rows as nat, cols as nat),
        row < rows,
        col < cols,
    ensures
        b == weight(w@, cols as nat, row as int, col as int),
{
    proof {
        lemma_cell(rows as nat, cols as nat, row as int, col as int);
        crate::bytes::lemma_bases();
    }
    assert(w.len() == w@.len());
    read_le(w, 2 * (row * cols + col), 2) as u16
}

/// The largest finite magnitude of a group.
fn group_peak(w: &[u8], rows: usize, cols: usize, row: usize, from: usize, to: usize) -> (m: u16)
    requires
        is_matrix(w@, rows as nat, cols as nat),
        row < rows,
        from <= to <= cols,
    ensures
        m == peak(w@, cols as nat, row as int, from as int, to as int),
        m < 0x7f80,
{
    let mut m: u16 = 0;
    let mut c: usize = from;
    while c < to
        invariant
            is_matrix(w@, rows as nat, cols as nat),
            row < rows,
            from <= c <= to <= cols,
            m == peak(w@, cols as nat, row as int, from as int, c as int),
            m < 0x7f80,
        decreases to - c,
    {
        let b: u16 = weight_at(w, rows, cols, row, c);
        if (b / 128) % 256 != 255 && b % 0x8000 > m {
            m = b % 0x8000;
        }
        c = c + 1;
    }
    m
}

/// The scale bytes of a matrix.
fn scales_for(w: &[u8], rows: usize, cols: usize) -> (r: Vec<u8>)
    requires
        is_matrix(w@, rows as nat, cols as nat),
    ensures
        r@ == scales_of(w@, rows as nat, cols as nat),
        r@.len() == rows * groups(cols as nat),
        forall|i: int| 0 <= i < r@.len() ==> 1 <= #[trigger] r@[i] <= 253,
{
    let ng: usize = cols / 32 + (if cols % 32 == 0 {
        0
    } else {
        1
    });
    let ghost want = scales_of(w@, rows as nat, cols as nat);
    let ghost (nr, nc) = (rows as nat, cols as nat);
    assert(ng == groups(nc));
    let mut r: Vec<u8> = Vec::new();
    let mut row: usize = 0;
    while row < rows
        invariant
            is_matrix(w@, nr, nc),
            nr == rows && nc == cols,
            ng == groups(nc),
            row <= rows,
            want == scales_of(w@, nr, nc),
            r@.len() == row * ng,
            forall|i: int| 0 <= i < r@.len() ==> #[trigger] r@[i] == want[i] && 1 <= r@[i] <= 253,
        decreases rows - row,
    {
        let mut g: usize = 0;
        while g < ng
            invariant
                is_matrix(w@, nr, nc),
                nr == rows && nc == cols,
                ng == groups(nc),
                row < rows,
                g <= ng,
                want == scales_of(w@, nr, nc),
                r@.len() == row * ng + g,
                forall|i: int| 0 <= i < r@.len() ==> #[trigger] r@[i] == want[i] && 1 <= r@[i] <= 253,
            decreases ng - g,
        {
            proof {
                lemma_cell(nr, ng as nat, row as int, g as int);
            }
            let from: usize = 32 * g;
            let to: usize = if cols - from >= 32 {
                from + 32
            } else {
                cols
            };
            let m: u16 = group_peak(w, rows, cols, row, from, to);
            r.push(mxfp4_choose_scale(m));
            assert(r@[row * ng + g] == want[row * ng + g]);
            g = g + 1;
        }
        assert(row * ng + ng == (row + 1) * ng) by (nonlinear_arith);
        row = row + 1;
    }
    assert(r@ =~= want);
    r
}

/// The packed codes of a matrix under the scales given, as many as it has groups.
pub fn pack_codes(w: &[u8], rows: usize, cols: usize, scales: &Vec<u8>) -> (r: Vec<u8>)
    requires
        is_matrix(w@, rows as nat, cols as nat),
        scales@.len() == rows * groups(cols as nat),
        forall|i: int| 0 <= i < scales@.len() ==> 1 <= #[trigger] scales@[i],
    ensures
        r@ == packed_of(w@, rows as nat, cols as nat, scales@),
{
    let rb: usize = cols / 2 + cols % 2;
    let ng: usize = cols / 32 + (if cols % 32 == 0 {
        0
    } else {
        1
    });
    let ghost want = packed_of(w@, rows as nat, cols as nat, scales@);
    let ghost (nr, nc) = (rows as nat, cols as nat);
    assert(ng == groups(nc) && rb == packed_len(nc));
    let mut r: Vec<u8> = Vec::new();
    let mut row: usize = 0;
    while row < rows
        invariant
            is_matrix(w@, nr, nc),
            nr == rows && nc == cols,
            ng == groups(nc) && rb == packed_len(nc),
            row <= rows,
            scales@.len() == rows * ng,
            forall|i: int| 0 <= i < scales@.len() ==> 1 <= #[trigger] scales@[i],
            want == packed_of(w@, nr, nc, scales@),
            r@.len() == row * rb,
            forall|i: int| 0 <= i < r@.len() ==> #[trigger] r@[i] == want[i],
        decreases rows - row,
    {
        let mut j: usize = 0;
        while j < rb
            invariant
                is_matrix(w@, nr, nc),
                nr == rows && nc == cols,
                ng == groups(nc) && rb == packed_len(nc),
                row < rows,
                j <= rb,
                scales@.len() == rows * ng,
                forall|i: int| 0 <= i < scales@.len() ==> 1 <= #[trigger] scales@[i],
                want == packed_of(w@, nr, nc, scales@),
                r@.len() == row * rb + j,
                forall|i: int| 0 <= i < r@.len() ==> #[trigger] r@[i] == want[i],
            decreases rb - j,
        {
            proof {
                lemma_cell(nr, rb as nat, row as int, j as int);
                lemma_cell(nr, ng as nat, row as int, (2 * j) / 32);
                assert((2 * j + 1) / 32 == (2 * j) / 32);
                assert(scales.len() == scales@.len());
            }
            let s: u8 = scales[row * ng + (2 * j) / 32];
            let low: u8 = mxfp4_quantize_value(weight_at(w, rows, cols, row, 2 * j), s);
            let high: u8 = if 2 * j + 1 < cols {
                mxfp4_quantize_value(weight_at(w, rows, cols, row, 2 * j + 1), s)
            } else {
                0
            };
            r.push(low + 16 * high);
            assert(r@[row * rb + j] == want[row * rb + j]);
            j = j + 1;
        }
        assert(row * rb + rb == (row + 1) * rb) by (nonlinear_arith);
        row = row + 1;
    }
    assert(r@ =~= want);
    r
}

/// Whether the bytes are such a matrix, tested without overflow.
pub(crate) fn matrix_fits(w: &[u8], rows: usize, cols: usize) -> (r: bool)
    ensures
        r == is_matrix(w@, rows as nat, cols as nat),
{
    if rows == 0 || cols == 0 {
        return false;
    }
    assert(w.len() == w@.len());
    match rows.checked_mul(cols) {
        Some(n) => match n.checked_mul(2) {
            Some(bytes) => w.len() == bytes,
            None => false,
        },
        None => false,
    }
}

/// Quantizes a matrix of bfloat16 weights: packed codes and scale bytes, or
/// nothing where the bytes are no such matrix.
pub fn quantize_bf16_to_mxfp4(weights: &[u8], rows: usize, cols: usize) -> (r: Option<
    (Vec<u8>, Vec<u8>),
>)
    ensures
        r is Some <==> is_matrix(weights@, rows as nat, cols as nat),
        r matches Some(q) ==> (q.0@, q.1@) == mxfp4_of(weights@, rows as nat, cols as nat),
{
    if !matrix_fits(weights, rows, cols) {
        return None;
    }
    let scales: Vec<u8> = scales_for(weights, rows, cols);
    let packed: Vec<u8> = pack_codes(weights, rows, cols, &scales);
    Some((packed, scales))
}

/// How often a count of units is halved until it fits a significand.
pub open spec fn octave(n: nat) -> nat
    decreases n,
{
    if n < 256 {
        0
    } else {
        1 + octave(n / 2)
    }
}

/// The bfloat16 magnitude nearest to `n` units, the even one where two are as
/// near.
pub open spec fn brain_of(n: nat) -> int {
    (octave(n) * 128 + round_half_even(n, pow2(octave(n)))) as int
}

/// Whether the magnitude of a code is too large for a number once it is scaled.
pub open spec fn overflows(c: int, s: u8) -> bool {
    doubled(c) * pow2((s + 5) as nat) >= pow2(261)
}

/// What is left of a weight once its code is taken off, rounded to bfloat16.
/// A NaN stays one. An infinity stays, but for one that meets a code too large
/// to scale; and such a code leaves of a number an infinity of the other sign.
pub open spec fn left_over(b: u16, s: u8) -> int {
    let c = magnitude_code(b, s);
    let taken = doubled(c) * pow2((s + 5) as nat);
    if !brain_finite(b) {
        if brain_mant(b) != 0 {
            if brain_mant(b) >= 64 {
                b as int
            } else {
                b + 64
            }
        } else if overflows(c, s) {
            0x7fc0
        } else {
            b as int
        }
    } else if overflows(c, s) {
        if b >= 0x8000 {
            0x7f80
        } else {
            0xff80
        }
    } else if brain_units(b) == taken {
        0
    } else if brain_units(b) > taken {
        brain_of((brain_units(b) - taken) as nat) + (if b >= 0x8000 {
            0x8000int
        } else {
            0
        })
    } else {
        brain_of((taken - brain_units(b)) as nat) + (if b >= 0x8000 {
            0int
        } else {
            0x8000
        })
    }
}

/// Doubling a full significand raises the octave.
proof fn lemma_octave(w: nat, j: nat)
    requires
        w >= 128 || j == 0,
    ensures
        octave(w * pow2(j)) == octave(w) + j,
    decreases j,
{
    lemma2_to64();
    if j > 0 {
        lemma_octave(w, (j - 1) as nat);
        let h = w * pow2((j - 1) as nat);
        lemma_pow2_adds(1, (j - 1) as nat);
        lemma_pow2_pos((j - 1) as nat);
        assert(w * (2 * pow2((j - 1) as nat)) == 2 * h) by (nonlinear_arith)
            requires
                h == w * pow2((j - 1) as nat),
        ;
        assert(h >= 128) by (nonlinear_arith)
            requires
                h == w * pow2((j - 1) as nat),
                w >= 128,
                pow2((j - 1) as nat) >= 1,
        ;
        assert((2 * h) / 2 == h);
    } else {
        assert(w * 1 == w);
    }
}

/// A common factor does not change how a quotient rounds.
proof fn lemma_round_scaled(n: nat, d: nat, f: nat)
    requires
        d > 0,
        f > 0,
    ensures
        round_half_even(n * f, d * f) == round_half_even(n, d),
{
    let q = n / d;
    let r = n % d;
    vstd::arithmetic::div_mod::lemma_fundamental_div_mod(n as int, d as int);
    assert(n * f == q * (d * f) + r * f) by (nonlinear_arith)
        requires
            n == d * q + r,
    ;
    assert(0 <= r * f < d * f) by (nonlinear_arith)
        requires
            0 <= r < d,
            f > 0,
    ;
    vstd::arithmetic::div_mod::lemma_fundamental_div_mod_converse(
        (n * f) as int,
        (d * f) as int,
        q as int,
        (r * f) as int,
    );
    assert(2 * (r * f) > d * f <==> 2 * r > d) by (nonlinear_arith)
        requires
            f > 0,
    ;
    assert(2 * (r * f) == d * f <==> 2 * r == d) by (nonlinear_arith)
        requires
            f > 0,
    ;
}

/// What rounding a scaled count comes to.
proof fn lemma_brain_of(w: nat, j: nat)
    requires
        w >= 128 || j == 0,
    ensures
        brain_of(w * pow2(j)) == (octave(w) + j) * 128 + round_half_even(w, pow2(octave(w))),
{
    lemma_octave(w, j);
    lemma_pow2_adds(octave(w), j);
    lemma_pow2_pos(j);
    lemma_pow2_pos(octave(w));
    lemma_round_scaled(w, pow2(octave(w)), pow2(j));
}

/// The nearest bfloat16 magnitude to `w` times two to the `j` units.
fn narrowed(w: u32, j: u16) -> (r: u16)
    requires
        w <= 512,
        j <= 253,
        w >= 256 ==> j <= 251,
        w == 512 ==> j <= 250,
    ensures
        r == brain_of(w as nat * pow2(j as nat)),
        r < 0x8000,
{
    let mut m: u32 = w;
    let mut k: u16 = j;
    while m < 128 && k > 0
        invariant
            m <= 512,
            k <= j <= 253,
            w as nat * pow2(j as nat) == m as nat * pow2(k as nat),
            m >= 256 ==> k <= 251,
            m == 512 ==> k <= 250,
        decreases k,
    {
        proof {
            lemma2_to64();
            lemma_pow2_adds(1, (k - 1) as nat);
            assert(m as nat * (2 * pow2((k - 1) as nat)) == (2 * m) as nat * pow2((k - 1) as nat))
                by (nonlinear_arith);
        }
        m = 2 * m;
        k = k - 1;
    }
    proof {
        lemma2_to64();
        lemma_brain_of(m as nat, k as nat);
        let n = m as nat;
        if n < 256 {
            assert(octave(n) == 0);
            assert(n / 1 == n && n % 1 == 0);
            assert(round_half_even(n, 1) == n);
        } else if n < 512 {
            assert(octave(n / 2) == 0);
            assert(octave(n) == 1);
            assert(pow2(1) == 2);
        } else {
            assert(octave(n / 2 / 2) == 0);
            assert(octave(n / 2) == 1);
            assert(octave(n) == 2);
            assert(512nat / 4nat == 128 && 512nat % 4nat == 0);
        }
    }
    if m < 256 {
        128 * k + m as u16
    } else if m < 512 {
        let half: u32 = m / 2;
        let q: u32 = if m % 2 == 0 || half % 2 == 0 {
            half
        } else {
            half + 1
        };
        128 * (k + 1) + q as u16
    } else {
        128 * (k + 2) + 128
    }
}

/// Twice the magnitude of a code.
fn doubled_of(c: u8) -> (d: u32)
    requires
        c < 8,
    ensures
        d == doubled(c as int),
{
    if c <= 4 {
        c as u32
    } else if c == 5 {
        6
    } else if c == 6 {
        8
    } else {
        12
    }
}

/// A code too large to scale needs the largest scales.
proof fn lemma_overflow(c: int, s: u8)
    requires
        0 <= c < 8,
        1 <= s <= 253,
    ensures
        overflows(c, s) <==> s == 253 && c >= 6,
{
    let p = pow2((s + 5) as nat);
    lemma2_to64();
    lemma_pow2_pos((s + 5) as nat);
    lemma_doubled(c, p);
    lemma_pow2_grows((s + 5) as nat, 261);
    lemma_pow2_grows(3, (261 - (s + 5)) as nat);
    lemma_pow2_pos((258 - (s + 5)) as nat);
    let q = pow2((261 - (s + 5)) as nat);
    assert(pow2(261) == p * q);
    if s == 253 {
        assert(p * q == 8 * p) by (nonlinear_arith)
            requires
                q == 8,
        ;
        assert(pow2(261) == 8 * p);
    } else {
        lemma_pow2_grows(4, (261 - (s + 5)) as nat);
        lemma_pow2_pos((257 - (s + 5)) as nat);
        assert(p * q >= 16 * p) by (nonlinear_arith)
            requires
                q >= 16,
        ;
    }
}

/// What is left of a weight that its scale holds.
proof fn lemma_left(b: u16, s: u8)
    requires
        brain_finite(b),
        1 <= s <= 253,
        brain_units(b) <= 6 * pow2((s + 6) as nat),
        magnitude_code(b, s) != 0,
    ensures
        brain_shift(b) <= s + 1,
        s + 5 - brain_shift(b) <= 8,
        ({
            let t = (s + 5 - brain_shift(b)) as nat;
            let c = magnitude_code(b, s);
            let kept = doubled(c) * pow2(t);
            let f = pow2(brain_shift(b) as nat);
            &&& doubled(c) * pow2((s + 5) as nat) == kept * f
            &&& brain_units(b) == brain_sig(b) * f
            &&& f > 0
            &&& brain_sig(b) - kept <= 2 * pow2(t)
            &&& kept - brain_sig(b) <= 2 * pow2(t)
        }),
{
    let g = brain_sig(b);
    let k = brain_shift(b) as nat;
    let f = pow2(k);
    let c = magnitude_code(b, s);
    lemma2_to64();
    lemma_pow2_pos(k);
    lemma_magnitude(b, s);
    if k > s + 1 {
        // a full significand above the range
        assert(brain_exp(b) > 0 && g >= 128);
        lemma_pow2_grows((s + 2) as nat, k);
        lemma_pow2_adds((s + 2) as nat, 4);
        lemma_pow2_pos((s + 2) as nat);
        assert(pow2((s + 6) as nat) == 16 * pow2((s + 2) as nat));
        assert(g * f >= 128 * pow2((s + 2) as nat)) by (nonlinear_arith)
            requires
                g >= 128,
                f >= pow2((s + 2) as nat),
                pow2((s + 2) as nat) > 0,
        ;
        assert(false);
    }
    let t = (s + 5 - k) as nat;
    let h = (s + 4 - k) as nat;
    if t > 8 {
        lemma_pow2_grows(8, h);
        assert(g <= 255);
        assert(c == nearest_code(g as nat, pow2(h)));
        assert(false);
    }
    lemma_pow2_adds(1, h);
    let d = pow2(h);
    assert(pow2(t) == 2 * d);
    lemma_pow2_pos(h);
    lemma_pow2_grows(k, (s + 5) as nat);
    assert(doubled(c) * (f * pow2(t)) == doubled(c) * pow2(t) * f) by (nonlinear_arith);
    lemma_doubled(c, pow2(t));
    // within range: at most twenty-four times d
    lemma_pow2_adds((s + 5) as nat, 1);
    assert(pow2((s + 6) as nat) == f * pow2(t) * 2);
    assert(g * f <= 24 * d * f) by (nonlinear_arith)
        requires
            g * f <= 6 * (f * pow2(t) * 2),
            pow2(t) == 2 * d,
    ;
    assert(g <= 24 * d) by (nonlinear_arith)
        requires
            g * f <= 24 * d * f,
            f > 0,
    ;
    assert(c == nearest_code(g as nat, d));
}

/// What is left of one weight under the scale of its group.
#[verifier::spinoff_prover]
#[verifier::rlimit(60)]
fn residual_of(b: u16, s: u8, c: u8) -> (r: u16)
    requires
        1 <= s <= 253,
        c == code_of(b, s),
        brain_finite(b) ==> brain_units(b) <= 6 * pow2((s + 6) as nat),
    ensures
        r == left_over(b, s),
{
    let negative: bool = b >= 0x8000;
    let code: u8 = c % 8;
    proof {
        lemma_overflow(magnitude_code(b, s), s);
        lemma_pow2_pos((s + 5) as nat);
    }
    let e: u16 = (b / 128) % 256;
    let m: u16 = b % 128;
    if e == 255 {
        if m != 0 {
            return if m >= 64 {
                b
            } else {
                b + 64
            };
        }
        return if s == 253 {
            0x7fc0
        } else {
            b
        };
    }
    if s == 253 && code >= 6 {
        return if negative {
            0x7f80
        } else {
            0xff80
        };
    }
    let g: u32 = if e == 0 {
        m as u32
    } else {
        128 + m as u32
    };
    let k: u16 = if e == 0 {
        0
    } else {
        e - 1
    };
    if code == 0 {
        proof {
            lemma_pow2_pos(k as nat);
            lemma_brain_of(g as nat, k as nat);
            lemma2_to64();
            assert(octave(g as nat) == 0);
            assert(g as nat / 1 == g && g as nat % 1 == 0);
            assert(round_half_even(g as nat, 1) == g);
            assert(0 * pow2((s + 5) as nat) == 0) by (nonlinear_arith);
            if g == 0 {
                assert(0 * pow2(k as nat) == 0) by (nonlinear_arith);
            } else {
                assert(g * pow2(k as nat) > 0) by (nonlinear_arith)
                    requires
                        g > 0,
                        pow2(k as nat) > 0,
                ;
            }
        }
        return if g == 0 {
            0
        } else {
            b
        };
    }
    proof {
        lemma_left(b, s);
    }
    let t: u16 = s as u16 + 5 - k;
    let p: u32 = small_power(t);
    let d: u32 = doubled_of(code);
    proof {
        assert(0 <= d * p <= 12 * 256) by (nonlinear_arith)
            requires
                0 <= d <= 12,
                0 <= p <= 256,
        ;
    }
    let kept: u32 = d * p;
    let ghost f = pow2(k as nat);
    proof {
        lemma2_to64();
        if t <= 7 {
            lemma_pow2_grows(t as nat, 7);
        }
    }
    if g == kept {
        0
    } else if g > kept {
        proof {
            assert(g * f - kept * f == (g - kept) * f && (g - kept) * f > 0) by (nonlinear_arith)
                requires
                    g > kept,
                    f > 0,
            ;
        }
        let r: u16 = narrowed(g - kept, k);
        if negative {
            r + 0x8000
        } else {
            r
        }
    } else {
        proof {
            assert(kept * f - g * f == (kept - g) * f && (kept - g) * f > 0) by (nonlinear_arith)
                requires
                    g < kept,
                    f > 0,
            ;
        }
        let r: u16 = narrowed(kept - g, k);
        if negative {
            r
        } else {
            r + 0x8000
        }
    }
}

/// The sign does not count.
proof fn lemma_sign(b: u16)
    ensures
        brain_units(b) == brain_units((b % 0x8000) as u16),
        brain_finite(b) <==> b % 0x8000 < 0x7f80,
{
    let m = (b % 0x8000) as u16;
    if b >= 0x8000 {
        assert(m == b - 0x8000);
        assert(b as int / 128 == m as int / 128 + 256);
    } else {
        assert(m == b);
    }
    assert(m as int / 128 < 256);
    assert(brain_exp(b) == brain_exp(m));
    assert(brain_mant(b) == brain_mant(m));
}

/// Magnitudes are ordered as their bits are.
proof fn lemma_units_grow(a: u16, b: u16)
    requires
        a <= b < 0x7f80,
    ensures
        brain_units(a) <= brain_units(b),
{
    let (ga, gb) = (brain_sig(a), brain_sig(b));
    let (ka, kb) = (brain_shift(a) as nat, brain_shift(b) as nat);
    lemma2_to64();
    lemma_pow2_pos(ka);
    lemma_pow2_pos(kb);
    if ka == kb {
        assert(ga * pow2(ka) <= gb * pow2(ka)) by (nonlinear_arith)
            requires
                ga <= gb,
        ;
    } else {
        lemma_pow2_grows(ka + 1, kb);
        lemma_pow2_adds(ka, 1);
        assert(ga * pow2(ka) <= gb * pow2(kb)) by (nonlinear_arith)
            requires
                0 <= ga <= 255,
                gb >= 128,
                pow2(kb) >= pow2(ka) * 2,
        ;
    }
}

/// No weight of a group is above its peak.
proof fn lemma_peak(w: Seq<u8>, cols: nat, row: int, from: int, to: int, col: int)
    requires
        from <= col < to,
        brain_finite(weight(w, cols, row, col)),
    ensures
        weight(w, cols, row, col) % 0x8000 <= peak(w, cols, row, from, to),
    decreases to - from,
{
    if col < to - 1 {
        lemma_peak(w, cols, row, from, to - 1, col);
    }
}

/// The peak of a group is finite.
proof fn lemma_peak_finite(w: Seq<u8>, cols: nat, row: int, from: int, to: int)
    ensures
        peak(w, cols, row, from, to) < 0x7f80,
    decreases to - from,
{
    if to > from {
        lemma_peak_finite(w, cols, row, from, to - 1);
        lemma_sign(weight(w, cols, row, to - 1));
    }
}

/// Every finite weight is within the range of the scale of its group: no code
/// of a quantized matrix cuts a weight off.
pub proof fn law_scales_hold_the_weights(w: Seq<u8>, rows: nat, cols: nat, row: int, col: int)
    requires
        is_matrix(w, rows, cols),
        0 <= row < rows,
        0 <= col < cols,
    ensures
        ({
            let s = scales_of(w, rows, cols)[row * groups(cols) + col / 32];
            &&& 1 <= s <= 253
            &&& brain_finite(weight(w, cols, row, col)) ==> brain_units(weight(w, cols, row, col))
                <= 6 * pow2((s + 6) as nat)
        }),
{
    let g = col / 32;
    lemma_cell(rows, groups(cols), row, g);
    let (from, to) = (32 * g, group_end(cols, g));
    let m = peak(w, cols, row, from, to);
    let b = weight(w, cols, row, col);
    lemma_peak_finite(w, cols, row, from, to);
    if m > 0 {
        law_scale_is_least(m);
    }
    if brain_finite(b) {
        lemma_peak(w, cols, row, from, to, col);
        lemma_sign(b);
        lemma_units_grow((b % 0x8000) as u16, m);
        if m == 0 {
            lemma_pow2_pos(133);
            assert(brain_sig(0) == 0);
            assert(0 * pow2(0) == 0) by (nonlinear_arith);
        }
    }
}

/// A code has the sign of its weight in its highest bit and the magnitude in the other three; what is
/// not finite has the largest.
pub proof fn law_a_code_has_the_sign_of_its_weight(b: u16, s: u8)
    ensures
        0 <= code_of(b, s) < 16,
        code_of(b, s) / 8 == b / 0x8000,
        code_of(b, s) % 8 == code_of((b % 0x8000) as u16, s),
        !brain_finite(b) ==> code_of(b, s) % 8 == 7,
        b % 0x8000 == 0 ==> code_of(b, s) % 8 == 0,
{
    lemma_sign(b);
    let m = (b % 0x8000) as u16;
    lemma_sign(m);
    assert(brain_exp(b) == brain_exp(m) && brain_mant(b) == brain_mant(m)) by {
        let x = b as int;
        assert((x / 128) % 256 == ((x % 0x8000) / 128) % 256);
        assert(x % 128 == (x % 0x8000) % 128);
    }
    if b % 0x8000 == 0 {
        assert(brain_sig(b) == 0);
        assert(0 * pow2(brain_shift(b) as nat) == 0) by (nonlinear_arith);
        lemma_pow2_pos((s + 6) as nat);
    }
}

/// The scale of a group is that of one of its finite weights, or the scale of nothing where all of them
/// are nothing: no group is given more room than its largest weight needs.
pub proof fn law_a_group_has_the_scale_of_its_largest_weight(
    w: Seq<u8>,
    cols: nat,
    row: int,
    group: int,
)
    requires
        0 <= group,
        32 * group < cols,
    ensures
        group_scale(w, cols, row, group) == 127 || exists|col: int|
            32 * group <= col < 32 * group + 32 && col < cols && brain_finite(
                #[trigger] weight(w, cols, row, col),
            ) && group_scale(w, cols, row, group) == scale_code(
                (weight(w, cols, row, col) % 0x8000) as u16,
            ),
{
    let (from, to) = (32 * group, group_end(cols, group));
    lemma_peak_is_a_weight(w, cols, row, from, to);
    let m = peak(w, cols, row, from, to);
    if m != 0 {
        let col = choose|col: int|
            from <= col < to && brain_finite(#[trigger] weight(w, cols, row, col)) && weight(
                w,
                cols,
                row,
                col,
            ) % 0x8000 == m;
        lemma_peak_finite(w, cols, row, from, to);
        law_scale_is_least(m);
        assert(brain_finite(weight(w, cols, row, col)));
    }
}

proof fn lemma_peak_is_a_weight(w: Seq<u8>, cols: nat, row: int, from: int, to: int)
    ensures
        peak(w, cols, row, from, to) == 0 || exists|col: int|
            from <= col < to && brain_finite(#[trigger] weight(w, cols, row, col)) && weight(
                w,
                cols,
                row,
                col,
            ) % 0x8000 == peak(w, cols, row, from, to),
    decreases to - from,
{
    if from < to {
        lemma_peak_is_a_weight(w, cols, row, from, to - 1);
        let b = weight(w, cols, row, to - 1);
        let before = peak(w, cols, row, from, to - 1);
        if before != 0 && peak(w, cols, row, from, to) == before {
            let col = choose|col: int|
                from <= col < to - 1 && brain_finite(#[trigger] weight(w, cols, row, col)) && weight(
                    w,
                    cols,
                    row,
                    col,
                ) % 0x8000 == before;
            assert(brain_finite(weight(w, cols, row, col)));
        } else {
            assert(peak(w, cols, row, from, to) == 0 || brain_finite(b));
        }
    }
}

/// What the codes of a matrix leave of it, as a matrix of its own.
pub open spec fn residual_seq(w: Seq<u8>, rows: nat, cols: nat) -> Seq<u8> {
    Seq::new(2 * (rows * cols), |i: int| residual_byte(w, rows, cols, i))
}

/// A byte of the matrix that is left.
pub open spec fn residual_byte(w: Seq<u8>, rows: nat, cols: nat, i: int) -> u8 {
    let v = residual_weight(w, rows, cols, i / 2 / cols as int, i / 2 % cols as int);
    if i % 2 == 0 {
        (v % 256) as u8
    } else {
        (v / 256) as u8
    }
}

/// What the code of one weight leaves of it.
pub open spec fn residual_weight(w: Seq<u8>, rows: nat, cols: nat, row: int, col: int) -> int {
    left_over(
        weight(w, cols, row, col),
        scales_of(w, rows, cols)[row * groups(cols) + col / 32],
    )
}

/// The code in a packed byte is the code of the weight.
pub(crate) proof fn lemma_unpack(w: Seq<u8>, rows: nat, cols: nat, scales: Seq<u8>, row: int, col: int)
    requires
        0 <= row < rows,
        0 <= col < cols,
    ensures
        ({
            let k = row * packed_len(cols) + col / 2;
            let p = packed_of(w, rows, cols, scales)[k];
            &&& 0 <= k < rows * packed_len(cols)
            &&& entry(w, cols, scales, row, col) == (if col % 2 == 0 {
                p % 16
            } else {
                p / 16
            })
        }),
{
    let j = col / 2;
    lemma_cell(rows, packed_len(cols), row, j);
    assert(0 <= entry(w, cols, scales, row, 2 * j) < 16);
    assert(0 <= entry(w, cols, scales, row, 2 * j + 1) < 16);
}

/// What the codes of a matrix leave of it, rounded to bfloat16.
fn mxfp4_residual_bf16(
    source: &[u8],
    qweights: &Vec<u8>,
    qscales: &Vec<u8>,
    rows: usize,
    cols: usize,
) -> (r: Vec<u8>)
    requires
        is_matrix(source@, rows as nat, cols as nat),
        (qweights@, qscales@) == mxfp4_of(source@, rows as nat, cols as nat),
    ensures
        r@ == residual_seq(source@, rows as nat, cols as nat),
{
    let rb: usize = cols / 2 + cols % 2;
    let ng: usize = cols / 32 + (if cols % 32 == 0 {
        0
    } else {
        1
    });
    let ghost (nr, nc) = (rows as nat, cols as nat);
    let ghost want = residual_seq(source@, nr, nc);
    let mut r: Vec<u8> = Vec::new();
    let mut row: usize = 0;
    while row < rows
        invariant
            is_matrix(source@, nr, nc),
            nr == rows && nc == cols,
            (qweights@, qscales@) == mxfp4_of(source@, nr, nc),
            ng == groups(nc) && rb == packed_len(nc),
            row <= rows,
            want == residual_seq(source@, nr, nc),
            r@.len() == 2 * (row * cols),
            forall|i: int| 0 <= i < r@.len() ==> #[trigger] r@[i] == want[i],
        decreases rows - row,
    {
        let mut col: usize = 0;
        while col < cols
            invariant
                is_matrix(source@, nr, nc),
                nr == rows && nc == cols,
                (qweights@, qscales@) == mxfp4_of(source@, nr, nc),
                ng == groups(nc) && rb == packed_len(nc),
                row < rows,
                col <= cols,
                want == residual_seq(source@, nr, nc),
                r@.len() == 2 * (row * cols + col),
                forall|i: int| 0 <= i < r@.len() ==> #[trigger] r@[i] == want[i],
            decreases cols - col,
        {
            proof {
                lemma_cell(nr, nc, row as int, col as int);
                lemma_cell(nr, ng as nat, row as int, col as int / 32);
                lemma_unpack(source@, nr, nc, qscales@, row as int, col as int);
                law_scales_hold_the_weights(source@, nr, nc, row as int, col as int);
                assert(qweights.len() == qweights@.len());
                assert(qscales.len() == qscales@.len());
                lemma_cell(nr, rb as nat, row as int, col as int / 2);
            }
            let b: u16 = weight_at(source, rows, cols, row, col);
            let p: u8 = qweights[row * rb + col / 2];
            let s: u8 = qscales[row * ng + col / 32];
            let c: u8 = if col % 2 == 0 {
                p % 16
            } else {
                p / 16
            };
            let v: u16 = residual_of(b, s, c);
            let ghost n = row * cols + col;
            r.push((v % 256) as u8);
            r.push((v / 256) as u8);
            proof {
                assert((2 * n) / 2 == n && (2 * n + 1) / 2 == n);
                assert(residual_weight(source@, nr, nc, row as int, col as int) == v);
                assert(r@[2 * n] == want[2 * n]);
                assert(r@[2 * n + 1] == want[2 * n + 1]);
            }
            col = col + 1;
        }
        assert(row * cols + cols == (row + 1) * cols) by (nonlinear_arith);
        row = row + 1;
    }
    assert(r@ =~= want);
    r
}

/// A matrix and what its codes leave of it, both quantized, one behind the other.
pub open spec fn mxfp4x2_of(w: Seq<u8>, rows: nat, cols: nat) -> (Seq<u8>, Seq<u8>) {
    let a = mxfp4_of(w, rows, cols);
    let b = mxfp4_of(residual_seq(w, rows, cols), rows, cols);
    (a.0 + b.0, a.1 + b.1)
}

/// As `mxfp4x2_of`, with what is left after the second step quantized as well.
pub open spec fn mxfp4x3_of(w: Seq<u8>, rows: nat, cols: nat) -> (Seq<u8>, Seq<u8>) {
    let first = residual_seq(w, rows, cols);
    let a = mxfp4x2_of(w, rows, cols);
    let b = mxfp4_of(residual_seq(first, rows, cols), rows, cols);
    (a.0 + b.0, a.1 + b.1)
}

/// Appends a copy of the bytes.
pub(crate) fn append_all(out: &mut Vec<u8>, more: &Vec<u8>)
    ensures
        final(out)@ == old(out)@ + more@,
{
    let ghost start = out@;
    let mut i: usize = 0;
    while i < more.len()
        invariant
            i <= more.len(),
            out@ == start + more@.take(i as int),
        decreases more.len() - i,
    {
        out.push(more[i]);
        i = i + 1;
        assert(out@ =~= start + more@.take(i as int));
    }
    assert(more@.take(more@.len() as int) =~= more@);
}

/// Quantizes a matrix in two layers, the second for what the first leaves.
pub fn quantize_bf16_to_mxfp4x2(weights: &[u8], rows: usize, cols: usize) -> (r: Option<
    (Vec<u8>, Vec<u8>),
>)
    ensures
        r is Some <==> is_matrix(weights@, rows as nat, cols as nat),
        r matches Some(q) ==> (q.0@, q.1@) == mxfp4x2_of(weights@, rows as nat, cols as nat),
{
    match quantize_bf16_to_mxfp4(weights, rows, cols) {
        None => None,
        Some((mut codes, mut scales)) => {
            let left: Vec<u8> = mxfp4_residual_bf16(weights, &codes, &scales, rows, cols);
            match quantize_bf16_to_mxfp4(left.as_slice(), rows, cols) {
                None => None,
                Some((more, more_scales)) => {
                    append_all(&mut codes, &more);
                    append_all(&mut scales, &more_scales);
                    Some((codes, scales))
                },
            }
        },
    }
}

/// Quantizes a matrix in three layers, each for what the one before it leaves.
pub fn quantize_bf16_to_mxfp4x3(weights: &[u8], rows: usize, cols: usize) -> (r: Option<
    (Vec<u8>, Vec<u8>),
>)
    ensures
        r is Some <==> is_matrix(weights@, rows as nat, cols as nat),
        r matches Some(q) ==> (q.0@, q.1@) == mxfp4x3_of(weights@, rows as nat, cols as nat),
{
    match quantize_bf16_to_mxfp4(weights, rows, cols) {
        None => None,
        Some((mut codes, mut scales)) => {
            let first: Vec<u8> = mxfp4_residual_bf16(weights, &codes, &scales, rows, cols);
            match quantize_bf16_to_mxfp4(first.as_slice(), rows, cols) {
                None => None,
                Some((w1, s1)) => {
                    let second: Vec<u8> = mxfp4_residual_bf16(
                        first.as_slice(),
                        &w1,
                        &s1,
                        rows,
                        cols,
                    );
                    match quantize_bf16_to_mxfp4(second.as_slice(), rows, cols) {
                        None => None,
                        Some((w2, s2)) => {
                            append_all(&mut codes, &w1);
                            append_all(&mut codes, &w2);
                            append_all(&mut scales, &s1);
                            append_all(&mut scales, &s2);
                            Some((codes, scales))
                        },
                    }
                },
            }
        },
    }
}

/// The kernel format of stored codes: with two residual layers, with one, or plain.
pub open spec fn storage_fmt(weights: nat, scales: nat, o: nat, i: nat) -> int {
    let wb = o * packed_len(i);
    let sb = o * groups(i);
    if weights >= 3 * wb && scales >= 3 * sb {
        10
    } else if weights >= 2 * wb && scales >= 2 * sb {
        9
    } else {
        7
    }
}

/// Whether `factor * (a * b)` is at most `len`, counted without overflow.
fn room_for(len: usize, factor: usize, a: usize, b: usize) -> (r: bool)
    requires
        factor >= 1,
    ensures
        r == (len >= factor * (a * b)),
{
    match a.checked_mul(b) {
        Some(n) => match n.checked_mul(factor) {
            Some(m) => {
                assert(n * factor == factor * n) by (nonlinear_arith);
                len >= m
            },
            None => {
                assert(n * factor == factor * n) by (nonlinear_arith);
                false
            },
        },
        None => {
            assert(factor * (a * b) >= a * b) by (nonlinear_arith)
                requires
                    factor >= 1,
            ;
            false
        },
    }
}

/// The kernel format of codes and scales as they are stored: 10 with two
/// residual layers, 9 with one, 7 with none.
pub fn mxfp4_storage_fmt(weights: &[u8], scales: &[u8], o: usize, i: usize) -> (r: i32)
    ensures
        r == storage_fmt(weights@.len(), scales@.len(), o as nat, i as nat),
{
    let rb: usize = i / 2 + i % 2;
    let ng: usize = i / 32 + (if i % 32 == 0 {
        0
    } else {
        1
    });
    assert(rb == packed_len(i as nat) && ng == groups(i as nat));
    if room_for(weights.len(), 3, o, rb) && room_for(scales.len(), 3, o, ng) {
        10
    } else if room_for(weights.len(), 2, o, rb) && room_for(scales.len(), 2, o, ng) {
        9
    } else {
        7
    }
}

} // verus!
