//! How the rows of quantized weights are packed: the bytes of a block, put together again from the numbers
//! that its elements are decoded to.

use vstd::prelude::*;

use crate::bytes::le;
use crate::floatbits::half_to_single;
use crate::ggml::{
    bit, block_term, byte_signed, decoded, dot_element, grid_byte, grid_term, half_at, is_negative, nibble,
    nonlinear, pair, scale_min, seven_bits, term_spec, GridScale, IqTables, RowFault, Term,
};
use crate::gguf::GgmlType;

verus! {

/// The whole number that an element is a multiple of its scale by.
pub open spec fn code(t: Term) -> int {
    match t {
        Term::Bits(b) => b as int,
        Term::Scaled { d, q } => q as int,
        Term::Affine { d, m, scale, min, q } => q as int,
        Term::Grouped { d, scale, q } => q as int,
        Term::Grid { d, scale, s, g, negative } => g as int,
    }
}

/// The whole number of the group of an element.
pub open spec fn group_scale(t: Term) -> int {
    match t {
        Term::Affine { d, m, scale, min, q } => scale as int,
        Term::Grouped { d, scale, q } => scale as int,
        Term::Grid { d, scale, s, g, negative } => s as int,
        _ => 1,
    }
}

/// The whole number that is taken off the elements of a group.
pub open spec fn group_min(t: Term) -> int {
    match t {
        Term::Affine { d, m, scale, min, q } => min as int,
        _ => 0,
    }
}

/// The pattern of the scale of a block.
pub open spec fn block_scale(t: Term) -> int {
    match t {
        Term::Bits(b) => b as int,
        Term::Scaled { d, q } => d as int,
        Term::Affine { d, m, scale, min, q } => d as int,
        Term::Grouped { d, scale, q } => d as int,
        Term::Grid { d, scale, s, g, negative } => d as int,
    }
}

/// The number of two bytes, the lower first.
pub open spec fn two_bytes(row: Seq<u8>, p: int) -> int {
    row[p] + 256 * row[p + 1]
}

/// The number of four bytes, the lowest first.
pub open spec fn four_bytes(row: Seq<u8>, p: int) -> int {
    row[p] + 256 * row[p + 1] + 65536 * row[p + 2] + 16777216 * row[p + 3]
}

/// The sixteen values of a type whose codes are not spread evenly.
#[verifier::opaque]
pub open spec fn uneven() -> Seq<int> {
    seq![-127, -104, -83, -65, -49, -35, -22, -10, 1, 13, 25, 38, 53, 69, 89, 113]
}

/// The element of a row at a place.
#[verifier::opaque]
pub open spec fn element_of(dtype: GgmlType, row: Seq<u8>, e: int, t: IqTables) -> Term {
    term_spec(dtype, row, e, t)
}

#[verifier::opaque]
spec fn bit_of(x: u8, k: int) -> int {
    bit(x, k)
}

#[verifier::opaque]
spec fn pair_of(x: u8, k: int) -> int {
    pair(x, k)
}

/// The elements are what a row is decoded to, one by one.
pub proof fn law_a_row_is_decoded_element_by_element(
    dtype: GgmlType,
    row: Seq<u8>,
    n: nat,
    t: IqTables,
    v: Seq<Term>,
    e: int,
)
    requires
        decoded(dtype, row, n, t) == Ok::<Seq<Term>, RowFault>(v),
        0 <= e < n,
    ensures
        v.len() == n,
        v[e] == element_of(dtype, row, e, t),
{
    reveal(element_of);
}

proof fn lemma_two(row: Seq<u8>, p: int)
    ensures
        le(row, p, 2) == two_bytes(row, p),
        half_at(row, p) == two_bytes(row, p),
{
    reveal_with_fuel(le, 3);
}

proof fn lemma_four(row: Seq<u8>, p: int)
    ensures
        le(row, p, 4) == four_bytes(row, p),
{
    reveal_with_fuel(le, 5);
    assert(le(row, p + 3, 1) == row[p + 3]);
    assert(le(row, p + 2, 2) == row[p + 2] + 256 * row[p + 3]);
}

proof fn lemma_bits(x: u8)
    ensures
        x == bit_of(x, 0) + 2 * bit_of(x, 1) + 4 * bit_of(x, 2) + 8 * bit_of(x, 3) + 16 * bit_of(x, 4) + 32
            * bit_of(x, 5) + 64 * bit_of(x, 6) + 128 * bit_of(x, 7),
        x == pair_of(x, 0) + 4 * pair_of(x, 1) + 16 * pair_of(x, 2) + 64 * pair_of(x, 3),
{
    lemma_eight_bits(x);
    lemma_four_pairs(x);
}

#[verifier::spinoff_prover]
proof fn lemma_eight_bits(x: u8)
    ensures
        x == bit_of(x, 0) + 2 * bit_of(x, 1) + 4 * bit_of(x, 2) + 8 * bit_of(x, 3) + 16 * bit_of(x, 4) + 32
            * bit_of(x, 5) + 64 * bit_of(x, 6) + 128 * bit_of(x, 7),
{
    reveal(bit_of);
    let v = x as int;
    let (a, b, c, d) = (v / 2, v / 4, v / 8, v / 16);
    let (e, f, g) = (v / 32, v / 64, v / 128);
    assert(v == 2 * a + v % 2);
    assert(b == a / 2 && a == 2 * b + a % 2);
    assert(c == b / 2 && b == 2 * c + b % 2);
    assert(d == c / 2 && c == 2 * d + c % 2);
    assert(e == d / 2 && d == 2 * e + d % 2);
    assert(f == e / 2 && e == 2 * f + e % 2);
    assert(g == f / 2 && f == 2 * g + f % 2);
    assert(g % 2 == g);
}

#[verifier::spinoff_prover]
proof fn lemma_four_pairs(x: u8)
    ensures
        x == pair_of(x, 0) + 4 * pair_of(x, 1) + 16 * pair_of(x, 2) + 64 * pair_of(x, 3),
{
    reveal(pair_of);
    let v = x as int;
    let (a, b, c) = (v / 4, v / 16, v / 64);
    assert(v == 4 * a + v % 4);
    assert(b == a / 4 && a == 4 * b + a % 4);
    assert(c == b / 4 && b == 4 * c + b % 4);
    assert(c % 4 == c);
}

proof fn lemma_small(x: u8, k: int)
    ensures
        0 <= bit_of(x, k) < 2,
        0 <= pair_of(x, k) < 4,
{
    reveal(bit_of);
    reveal(pair_of);
}

proof fn lemma_split(x: int, low: int, high: int)
    requires
        x == low + 16 * high,
        0 <= low < 16,
    ensures
        x % 16 == low,
        x / 16 == high,
{
}

/// The bytes of an entry of a table of eight bytes make it up.
proof fn lemma_eight(v: int)
    requires
        0 <= v <= u64::MAX,
    ensures
        v == grid_byte(v, 0) + 0x100 * grid_byte(v, 1) + 0x1_0000 * grid_byte(v, 2) + 0x100_0000
            * grid_byte(v, 3) + 0x1_0000_0000 * grid_byte(v, 4) + 0x100_0000_0000 * grid_byte(v, 5)
            + 0x1_0000_0000_0000 * grid_byte(v, 6) + 0x100_0000_0000_0000 * grid_byte(v, 7),
        v <= u32::MAX ==> v == grid_byte(v, 0) + 0x100 * grid_byte(v, 1) + 0x1_0000 * grid_byte(v, 2)
            + 0x100_0000 * grid_byte(v, 3),
{
    assert(v / 0x1_0000 == (v / 0x100) / 0x100);
    assert(v / 0x100_0000 == (v / 0x1_0000) / 0x100);
    assert(v / 0x1_0000_0000 == (v / 0x100_0000) / 0x100);
    assert(v / 0x100_0000_0000 == (v / 0x1_0000_0000) / 0x100);
    assert(v / 0x1_0000_0000_0000 == (v / 0x100_0000_0000) / 0x100);
    assert(v / 0x100_0000_0000_0000 == (v / 0x1_0000_0000_0000) / 0x100);
    assert(v / 0x100_0000_0000_0000 < 0x100);
}

/// Numbers that are not quantized stand one behind the other: four bytes of a single, two of a half, and
/// the two upper bytes of a single.
pub proof fn law_plain_numbers_are_their_bytes(row: Seq<u8>, e: int, t: IqTables)
    requires
        0 <= e,
    ensures
        code(element_of(GgmlType::F32, row, e, t)) == four_bytes(row, 4 * e),
        code(element_of(GgmlType::Bf16, row, e, t)) == 65536 * two_bytes(row, 2 * e),
        element_of(GgmlType::F16, row, e, t) == Term::Bits(
            half_to_single(two_bytes(row, 2 * e) as u16) as u32,
        ),
{
    reveal(element_of);
    lemma_four(row, 4 * e);
    lemma_two(row, 2 * e);
}

/// Thirty-two signed bytes stand behind their scale.
pub proof fn law_signed_bytes_stand_behind_their_scale(row: Seq<u8>, b: int, r: int, t: IqTables)
    requires
        0 <= b,
        0 <= r < 32,
    ensures
        ({
            let x = element_of(GgmlType::Q8_0, row, 32 * b + r, t);
            &&& x is Scaled
            &&& block_scale(x) == two_bytes(row, 34 * b)
            &&& -128 <= code(x) < 128
            &&& row[34 * b + 2 + r] == code(x) || row[34 * b + 2 + r] == code(x) + 256
        }),
{
    reveal(element_of);
    assert((32 * b + r) / 32 == b && (32 * b + r) % 32 == r);
    lemma_two(row, 34 * b);
}

/// Thirty-two codes of five bits: behind the scale a bit of each, eight to a byte, and then the lower four
/// bits, the first half of the block in the lower halves of the bytes.
pub proof fn law_codes_of_five_bits_make_up_a_block(row: Seq<u8>, b: int, i: int, k: int, t: IqTables)
    requires
        0 <= b,
        0 <= i < 16,
        0 <= k < 4,
    ensures
        ({
            let x = |r: int| code(element_of(GgmlType::Q5_0, row, 32 * b + r, t)) + 16;
            let q = element_of(GgmlType::Q5_0, row, 32 * b + i, t);
            &&& q is Scaled
            &&& block_scale(q) == two_bytes(row, 22 * b)
            &&& 0 <= x(i) < 32 && 0 <= x(i + 16) < 32
            &&& row[22 * b + 6 + i] == x(i) % 16 + 16 * (x(i + 16) % 16)
            &&& row[22 * b + 2 + k] == x(8 * k) / 16 + 2 * (x(8 * k + 1) / 16) + 4 * (x(8 * k + 2) / 16)
                + 8 * (x(8 * k + 3) / 16) + 16 * (x(8 * k + 4) / 16) + 32 * (x(8 * k + 5) / 16) + 64 * (x(
                8 * k + 6,
            ) / 16) + 128 * (x(8 * k + 7) / 16)
        }),
{
    lemma_five(row, b, i, t);
    lemma_five(row, b, i + 16, t);
    assert((i + 16) % 16 == i);
    lemma_five_upper(row, b, k, 0, t);
    lemma_five_upper(row, b, k, 1, t);
    lemma_five_upper(row, b, k, 2, t);
    lemma_five_upper(row, b, k, 3, t);
    lemma_five_upper(row, b, k, 4, t);
    lemma_five_upper(row, b, k, 5, t);
    lemma_five_upper(row, b, k, 6, t);
    lemma_five_upper(row, b, k, 7, t);
    lemma_bits(row[22 * b + 2 + k]);
}

proof fn lemma_five(row: Seq<u8>, b: int, r: int, t: IqTables)
    requires
        0 <= b,
        0 <= r < 32,
    ensures
        ({
            let x = element_of(GgmlType::Q5_0, row, 32 * b + r, t);
            &&& x is Scaled
            &&& block_scale(x) == two_bytes(row, 22 * b)
            &&& 0 <= code(x) + 16 < 32
            &&& (code(x) + 16) % 16 == nibble(row[22 * b + 6 + r % 16], r >= 16)
            &&& (code(x) + 16) / 16 == bit_of(row[22 * b + 2 + r / 8], r % 8)
        }),
{
    reveal(element_of);
    reveal(bit_of);
    assert((32 * b + r) / 32 == b && (32 * b + r) % 32 == r);
    lemma_two(row, 22 * b);
    lemma_small(row[22 * b + 2 + r / 8], r % 8);
    let x = element_of(GgmlType::Q5_0, row, 32 * b + r, t);
    lemma_split(
        code(x) + 16,
        nibble(row[22 * b + 6 + r % 16], r >= 16),
        bit_of(row[22 * b + 2 + r / 8], r % 8),
    );
}

proof fn lemma_five_upper(row: Seq<u8>, b: int, k: int, n: int, t: IqTables)
    requires
        0 <= b,
        0 <= k < 4,
        0 <= n < 8,
    ensures
        (code(element_of(GgmlType::Q5_0, row, 32 * b + (8 * k + n), t)) + 16) / 16 == bit_of(
            row[22 * b + 2 + k],
            n,
        ),
{
    lemma_five(row, b, 8 * k + n, t);
    assert((8 * k + n) / 8 == k && (8 * k + n) % 8 == n);
}

/// Four codes of two bits to a byte, behind their scale.
pub proof fn law_codes_of_two_bits_make_up_a_block(row: Seq<u8>, b: int, k: int, t: IqTables)
    requires
        0 <= b,
        0 <= k < 16,
    ensures
        ({
            let x = |r: int| code(element_of(GgmlType::Q2_0, row, 64 * b + r, t)) + 1;
            let q = element_of(GgmlType::Q2_0, row, 64 * b + k, t);
            &&& q is Scaled
            &&& block_scale(q) == two_bytes(row, 18 * b)
            &&& row[18 * b + 2 + k] == x(4 * k) + 4 * x(4 * k + 1) + 16 * x(4 * k + 2) + 64 * x(4 * k + 3)
            &&& 0 <= x(4 * k) < 4 && 0 <= x(4 * k + 1) < 4 && 0 <= x(4 * k + 2) < 4 && 0 <= x(4 * k + 3)
                < 4
        }),
{
    lemma_pairs(row, b, k, t);
    lemma_pairs(row, b, 4 * k, t);
    lemma_pairs(row, b, 4 * k + 1, t);
    lemma_pairs(row, b, 4 * k + 2, t);
    lemma_pairs(row, b, 4 * k + 3, t);
    lemma_bits(row[18 * b + 2 + k]);
    assert((4 * k) / 4 == k && (4 * k + 1) / 4 == k && (4 * k + 2) / 4 == k && (4 * k + 3) / 4 == k);
    assert((4 * k) % 4 == 0 && (4 * k + 1) % 4 == 1 && (4 * k + 2) % 4 == 2 && (4 * k + 3) % 4 == 3);
}

proof fn lemma_pairs(row: Seq<u8>, b: int, r: int, t: IqTables)
    requires
        0 <= b,
        0 <= r < 64,
    ensures
        ({
            let x = element_of(GgmlType::Q2_0, row, 64 * b + r, t);
            &&& x is Scaled
            &&& block_scale(x) == two_bytes(row, 18 * b)
            &&& code(x) + 1 == pair_of(row[18 * b + 2 + r / 4], r % 4)
            &&& 0 <= pair_of(row[18 * b + 2 + r / 4], r % 4) < 4
        }),
{
    reveal(element_of);
    reveal(pair_of);
    assert((64 * b + r) / 64 == b && (64 * b + r) % 64 == r);
    lemma_two(row, 18 * b);
    lemma_small(row[18 * b + 2 + r / 4], r % 4);
}

/// The scales and the minimums of the eight groups of a block are six bits each, in twelve bytes: the first
/// four of each whole, the lower four bits of the others together, and their upper two above the first.
pub proof fn law_scales_of_a_block_make_up_twelve_bytes(row: Seq<u8>, b: int, j: int, i: int, t: IqTables)
    requires
        0 <= b,
        0 <= j < 4,
        0 <= i < 32,
    ensures
        ({
            let x = element_of(GgmlType::Q4K, row, 256 * b + 32 * j + i, t);
            let y = element_of(GgmlType::Q4K, row, 256 * b + 32 * (j + 4) + i, t);
            &&& x is Affine && y is Affine
            &&& block_scale(x) == two_bytes(row, 144 * b)
            &&& x->m == two_bytes(row, 144 * b + 2)
            &&& 0 <= group_scale(x) < 64 && 0 <= group_min(x) < 64
            &&& row[144 * b + 4 + j] == group_scale(x) + 64 * (group_scale(y) / 16)
            &&& row[144 * b + 8 + j] == group_min(x) + 64 * (group_min(y) / 16)
            &&& row[144 * b + 12 + j] == group_scale(y) % 16 + 16 * (group_min(y) % 16)
        }),
{
    lemma_scaled_four(row, b, j, i, t);
    lemma_scaled_four(row, b, j + 4, i, t);
    lemma_twelve(row, 144 * b + 4, j);
}

/// The scales and the minimums of codes of five bits are packed as those of four bits are.
pub proof fn law_scales_of_codes_of_five_bits_make_up_twelve_bytes(
    row: Seq<u8>,
    b: int,
    j: int,
    i: int,
    t: IqTables,
)
    requires
        0 <= b,
        0 <= j < 4,
        0 <= i < 32,
    ensures
        ({
            let x = element_of(GgmlType::Q5K, row, 256 * b + 32 * j + i, t);
            let y = element_of(GgmlType::Q5K, row, 256 * b + 32 * (j + 4) + i, t);
            &&& x is Affine && y is Affine
            &&& block_scale(x) == two_bytes(row, 176 * b)
            &&& x->m == two_bytes(row, 176 * b + 2)
            &&& 0 <= group_scale(x) < 64 && 0 <= group_min(x) < 64
            &&& row[176 * b + 4 + j] == group_scale(x) + 64 * (group_scale(y) / 16)
            &&& row[176 * b + 8 + j] == group_min(x) + 64 * (group_min(y) / 16)
            &&& row[176 * b + 12 + j] == group_scale(y) % 16 + 16 * (group_min(y) % 16)
        }),
{
    lemma_scaled_five(row, b, j, i, t);
    lemma_scaled_five(row, b, j + 4, i, t);
    lemma_twelve(row, 176 * b + 4, j);
}

proof fn lemma_twelve(row: Seq<u8>, p: int, j: int)
    requires
        0 <= j < 4,
    ensures
        ({
            let x = scale_min(row, p, j);
            let y = scale_min(row, p, j + 4);
            &&& 0 <= x.0 < 64 && 0 <= x.1 < 64
            &&& row[p + j] == x.0 + 64 * (y.0 / 16)
            &&& row[p + 4 + j] == x.1 + 64 * (y.1 / 16)
            &&& row[p + 8 + j] == y.0 % 16 + 16 * (y.1 % 16)
        }),
{
    lemma_split(scale_min(row, p, j + 4).0, row[p + j + 8] as int % 16, row[p + j] as int / 64);
    lemma_split(scale_min(row, p, j + 4).1, row[p + j + 8] as int / 16, row[p + j + 4] as int / 64);
}

proof fn lemma_scaled_four(row: Seq<u8>, b: int, g: int, i: int, t: IqTables)
    requires
        0 <= b,
        0 <= g < 8,
        0 <= i < 32,
    ensures
        ({
            let x = element_of(GgmlType::Q4K, row, 256 * b + (32 * g + i), t);
            &&& x is Affine
            &&& block_scale(x) == two_bytes(row, 144 * b)
            &&& x->m == two_bytes(row, 144 * b + 2)
            &&& (group_scale(x), group_min(x)) == scale_min(row, 144 * b + 4, g)
            &&& code(x) == nibble(row[144 * b + 16 + 32 * (g / 2) + i], g % 2 == 1)
        }),
{
    reveal(element_of);
    let r = 32 * g + i;
    assert((256 * b + r) / 256 == b && (256 * b + r) % 256 == r);
    assert(r / 32 == g && r % 32 == i);
    lemma_two(row, 144 * b);
    lemma_two(row, 144 * b + 2);
}

proof fn lemma_scaled_five(row: Seq<u8>, b: int, g: int, i: int, t: IqTables)
    requires
        0 <= b,
        0 <= g < 8,
        0 <= i < 32,
    ensures
        ({
            let x = element_of(GgmlType::Q5K, row, 256 * b + (32 * g + i), t);
            &&& x is Affine
            &&& block_scale(x) == two_bytes(row, 176 * b)
            &&& x->m == two_bytes(row, 176 * b + 2)
            &&& (group_scale(x), group_min(x)) == scale_min(row, 176 * b + 4, g)
            &&& 0 <= code(x) < 32
            &&& code(x) % 16 == nibble(row[176 * b + 48 + 32 * (g / 2) + i], g % 2 == 1)
            &&& code(x) / 16 == bit_of(row[176 * b + 16 + i], g)
        }),
{
    reveal(element_of);
    reveal(bit_of);
    lemma_small(row[176 * b + 16 + i], g);
    let r = 32 * g + i;
    assert((256 * b + r) / 256 == b && (256 * b + r) % 256 == r);
    assert(r / 32 == g && r % 32 == i);
    lemma_two(row, 176 * b);
    lemma_two(row, 176 * b + 2);
    lemma_split(
        code(element_of(GgmlType::Q5K, row, 256 * b + r, t)),
        nibble(row[176 * b + 48 + 32 * (g / 2) + i], g % 2 == 1),
        bit_of(row[176 * b + 16 + i], g),
    );
}

/// Codes of four bits: the groups of a block two by two, the first of them in the lower halves of thirty-two
/// bytes and the second in the upper.
pub proof fn law_codes_of_four_bits_make_up_a_block(row: Seq<u8>, b: int, g: int, i: int, t: IqTables)
    requires
        0 <= b,
        0 <= g < 4,
        0 <= i < 32,
    ensures
        ({
            let x = |r: int| code(element_of(GgmlType::Q4K, row, 256 * b + r, t));
            &&& row[144 * b + 16 + 32 * g + i] == x(64 * g + i) + 16 * x(64 * g + 32 + i)
            &&& 0 <= x(64 * g + i) < 16 && 0 <= x(64 * g + 32 + i) < 16
        }),
{
    lemma_scaled_four(row, b, 2 * g, i, t);
    lemma_scaled_four(row, b, 2 * g + 1, i, t);
    assert((2 * g) / 2 == g && (2 * g + 1) / 2 == g);
}

/// Codes of five bits in groups: the lower four stand as those of four bits do, and the upper bits of the
/// groups are the bits of thirty-two bytes in front of them.
pub proof fn law_grouped_codes_of_five_bits_make_up_a_block(
    row: Seq<u8>,
    b: int,
    g: int,
    i: int,
    t: IqTables,
)
    requires
        0 <= b,
        0 <= g < 4,
        0 <= i < 32,
    ensures
        ({
            let x = |r: int| code(element_of(GgmlType::Q5K, row, 256 * b + r, t));
            &&& row[176 * b + 48 + 32 * g + i] == x(64 * g + i) % 16 + 16 * (x(64 * g + 32 + i) % 16)
            &&& row[176 * b + 16 + i] == x(i) / 16 + 2 * (x(32 + i) / 16) + 4 * (x(64 + i) / 16) + 8 * (x(
                96 + i,
            ) / 16) + 16 * (x(128 + i) / 16) + 32 * (x(160 + i) / 16) + 64 * (x(192 + i) / 16) + 128 * (x(
                224 + i,
            ) / 16)
            &&& 0 <= x(64 * g + i) < 32 && 0 <= x(64 * g + 32 + i) < 32
        }),
{
    lemma_scaled_five(row, b, 2 * g, i, t);
    lemma_scaled_five(row, b, 2 * g + 1, i, t);
    assert((2 * g) / 2 == g && (2 * g + 1) / 2 == g);
    lemma_scaled_five(row, b, 0, i, t);
    lemma_scaled_five(row, b, 1, i, t);
    lemma_scaled_five(row, b, 2, i, t);
    lemma_scaled_five(row, b, 3, i, t);
    lemma_scaled_five(row, b, 4, i, t);
    lemma_scaled_five(row, b, 5, i, t);
    lemma_scaled_five(row, b, 6, i, t);
    lemma_scaled_five(row, b, 7, i, t);
    lemma_bits(row[176 * b + 16 + i]);
}

/// Codes of six bits in groups of sixteen: in each half of a block the lower four bits stand in sixty-four
/// bytes, the upper two in thirty-two, and the signed scales of all groups one behind the other.
pub proof fn law_codes_of_six_bits_make_up_a_block(row: Seq<u8>, b: int, h: int, i: int, r: int, t: IqTables)
    requires
        0 <= b,
        0 <= h < 2,
        0 <= i < 32,
        0 <= r < 256,
    ensures
        ({
            let x = |k: int| code(element_of(GgmlType::Q6K, row, 256 * b + 128 * h + k, t)) + 32;
            let q = element_of(GgmlType::Q6K, row, 256 * b + r, t);
            let s = row[210 * b + 192 + r / 16];
            &&& row[210 * b + 64 * h + i] == x(i) % 16 + 16 * (x(64 + i) % 16)
            &&& row[210 * b + 64 * h + 32 + i] == x(32 + i) % 16 + 16 * (x(96 + i) % 16)
            &&& row[210 * b + 128 + 32 * h + i] == x(i) / 16 + 4 * (x(32 + i) / 16) + 16 * (x(64 + i) / 16)
                + 64 * (x(96 + i) / 16)
            &&& 0 <= x(i) < 64 && 0 <= x(32 + i) < 64 && 0 <= x(64 + i) < 64 && 0 <= x(96 + i) < 64
            &&& q is Grouped
            &&& block_scale(q) == two_bytes(row, 210 * b + 208)
            &&& -128 <= group_scale(q) < 128
            &&& s == group_scale(q) || s == group_scale(q) + 256
        }),
{
    lemma_six(row, b, h, 0, i, t);
    lemma_six(row, b, h, 1, i, t);
    lemma_six(row, b, h, 2, i, t);
    lemma_six(row, b, h, 3, i, t);
    lemma_bits(row[210 * b + 128 + 32 * h + i]);
    lemma_six(row, b, r / 128, (r % 128) / 32, r % 32, t);
    assert(128 * (r / 128) + (32 * ((r % 128) / 32) + r % 32) == r);
    assert(8 * (r / 128) + 2 * ((r % 128) / 32) + (r % 32) / 16 == r / 16);
}

#[verifier::spinoff_prover]
proof fn lemma_six(row: Seq<u8>, b: int, h: int, lane: int, i: int, t: IqTables)
    requires
        0 <= b,
        0 <= h < 2,
        0 <= lane < 4,
        0 <= i < 32,
    ensures
        ({
            let x = element_of(GgmlType::Q6K, row, 256 * b + 128 * h + (32 * lane + i), t);
            let s = row[210 * b + 192 + (8 * h + 2 * lane + i / 16)];
            &&& x is Grouped
            &&& block_scale(x) == two_bytes(row, 210 * b + 208)
            &&& 0 <= code(x) + 32 < 64
            &&& (code(x) + 32) % 16 == nibble(row[210 * b + 64 * h + i + 32 * (lane % 2)], lane >= 2)
            &&& (code(x) + 32) / 16 == pair_of(row[210 * b + 128 + 32 * h + i], lane)
            &&& -128 <= group_scale(x) < 128
            &&& s == group_scale(x) || s == group_scale(x) + 256
        }),
{
    let r = 128 * h + 32 * lane + i;
    lemma_six_at(row, 210 * b, h, lane, i, t);
    reveal(element_of);
    assert((256 * b + r) / 256 == b && (256 * b + r) % 256 == r);
    assert(256 * b + 128 * h + (32 * lane + i) == 256 * b + r);
}

#[verifier::spinoff_prover]
proof fn lemma_six_at(row: Seq<u8>, o: int, h: int, lane: int, i: int, t: IqTables)
    requires
        0 <= h < 2,
        0 <= lane < 4,
        0 <= i < 32,
    ensures
        ({
            let x = block_term(GgmlType::Q6K, row, o, 128 * h + 32 * lane + i, t);
            let s = row[o + 192 + (8 * h + 2 * lane + i / 16)];
            &&& x is Grouped
            &&& block_scale(x) == two_bytes(row, o + 208)
            &&& 0 <= code(x) + 32 < 64
            &&& (code(x) + 32) % 16 == nibble(row[o + 64 * h + i + 32 * (lane % 2)], lane >= 2)
            &&& (code(x) + 32) / 16 == pair_of(row[o + 128 + 32 * h + i], lane)
            &&& -128 <= group_scale(x) < 128
            &&& s == group_scale(x) || s == group_scale(x) + 256
        }),
{
    let r = 128 * h + 32 * lane + i;
    assert(r / 128 == h && (r % 128) / 32 == lane && r % 32 == i);
    let low = nibble(row[o + 64 * h + i + 32 * (lane % 2)], lane >= 2);
    let high = pair_of(row[o + 128 + 32 * h + i], lane);
    lemma_two(row, o + 208);
    lemma_small(row[o + 128 + 32 * h + i], lane);
    lemma_pair(row[o + 128 + 32 * h + i], lane);
    assert(block_term(GgmlType::Q6K, row, o, r, t) == (Term::Grouped {
        d: half_at(row, o + 208),
        scale: byte_signed(row[o + 192 + (8 * h + 2 * lane + i / 16)]) as i32,
        q: (low + 16 * high - 32) as i32,
    }));
    lemma_split(low + 16 * high, low, high);
}

/// Codes that are not spread evenly stand for the sixteen values, two to a byte, the first half of a block
/// in the lower halves.
pub proof fn law_uneven_codes_make_up_a_block(row: Seq<u8>, b: int, i: int, t: IqTables)
    requires
        0 <= b,
        0 <= i < 16,
    ensures
        ({
            let x = |r: int| element_of(GgmlType::Iq4Nl, row, 32 * b + r, t);
            let byte = row[18 * b + 2 + i] as int;
            &&& x(i) is Scaled && x(16 + i) is Scaled
            &&& block_scale(x(i)) == two_bytes(row, 18 * b) == block_scale(x(16 + i))
            &&& code(x(i)) == uneven()[byte % 16]
            &&& code(x(16 + i)) == uneven()[byte / 16]
        }),
{
    lemma_uneven_at(row, b, i, t);
    lemma_uneven_at(row, b, 16 + i, t);
    assert((16 + i) % 16 == i);
}

proof fn lemma_uneven_at(row: Seq<u8>, b: int, r: int, t: IqTables)
    requires
        0 <= b,
        0 <= r < 32,
    ensures
        ({
            let x = element_of(GgmlType::Iq4Nl, row, 32 * b + r, t);
            &&& x is Scaled
            &&& block_scale(x) == two_bytes(row, 18 * b)
            &&& code(x) == uneven()[nibble(row[18 * b + 2 + r % 16], r >= 16)]
        }),
{
    reveal(element_of);
    assert((32 * b + r) / 32 == b && (32 * b + r) % 32 == r);
    lemma_two(row, 18 * b);
    lemma_uneven(nibble(row[18 * b + 2 + r % 16], r >= 16));
}

proof fn lemma_uneven(n: int)
    requires
        0 <= n < 16,
    ensures
        nonlinear(n) == uneven()[n],
        -128 <= nonlinear(n) < 128,
{
    reveal(uneven);
}

/// Uneven codes in eight groups: behind the scale of the block two bits of every group's scale, then four
/// bits of each, and then the codes, sixteen bytes to a group.
pub proof fn law_grouped_uneven_codes_make_up_a_block(
    row: Seq<u8>,
    b: int,
    g: int,
    i: int,
    k: int,
    t: IqTables,
)
    requires
        0 <= b,
        0 <= g < 8,
        0 <= i < 16,
        0 <= k < 2,
    ensures
        ({
            let x = |r: int| element_of(GgmlType::Iq4Xs, row, 256 * b + r, t);
            let s = |n: int| group_scale(x(32 * n + i)) + 32;
            let byte = row[136 * b + 8 + 16 * g + i] as int;
            &&& x(32 * g + i) is Grouped
            &&& block_scale(x(32 * g + i)) == two_bytes(row, 136 * b)
            &&& code(x(32 * g + i)) == uneven()[byte % 16]
            &&& code(x(32 * g + 16 + i)) == uneven()[byte / 16]
            &&& group_scale(x(32 * g + 16 + i)) == group_scale(x(32 * g + i))
            &&& 0 <= s(g) < 64
            &&& row[136 * b + 4 + 2 * k] == s(4 * k) % 16 + 16 * (s(4 * k + 1) % 16)
            &&& row[136 * b + 5 + 2 * k] == s(4 * k + 2) % 16 + 16 * (s(4 * k + 3) % 16)
            &&& row[136 * b + 2 + k] == s(4 * k) / 16 + 4 * (s(4 * k + 1) / 16) + 16 * (s(4 * k + 2) / 16)
                + 64 * (s(4 * k + 3) / 16)
        }),
{
    lemma_uneven_in_group(row, b, g, i, t);
    lemma_uneven_in_group(row, b, g, 16 + i, t);
    lemma_uneven_in_group(row, b, 4 * k, i, t);
    lemma_uneven_in_group(row, b, 4 * k + 1, i, t);
    lemma_uneven_in_group(row, b, 4 * k + 2, i, t);
    lemma_uneven_in_group(row, b, 4 * k + 3, i, t);
    lemma_bits(row[136 * b + 2 + k]);
    assert((4 * k) / 4 == k && (4 * k + 1) / 4 == k && (4 * k + 2) / 4 == k && (4 * k + 3) / 4 == k);
    assert((4 * k) / 2 == 2 * k && (4 * k + 1) / 2 == 2 * k);
    assert((4 * k + 2) / 2 == 2 * k + 1 && (4 * k + 3) / 2 == 2 * k + 1);
    assert(256 * b + (32 * g + (16 + i)) == 256 * b + (32 * g + 16 + i));
}

#[verifier::spinoff_prover]
proof fn lemma_uneven_in_group(row: Seq<u8>, b: int, g: int, i: int, t: IqTables)
    requires
        0 <= b,
        0 <= g < 8,
        0 <= i < 32,
    ensures
        ({
            let x = element_of(GgmlType::Iq4Xs, row, 256 * b + (32 * g + i), t);
            &&& x is Grouped
            &&& block_scale(x) == two_bytes(row, 136 * b)
            &&& 0 <= group_scale(x) + 32 < 64
            &&& (group_scale(x) + 32) % 16 == nibble(row[136 * b + 4 + g / 2], g % 2 == 1)
            &&& (group_scale(x) + 32) / 16 == pair_of(row[136 * b + 2 + g / 4], g % 4)
            &&& code(x) == uneven()[nibble(row[136 * b + 8 + 16 * g + i % 16], i >= 16)]
        }),
{
    let low = nibble(row[136 * b + 4 + g / 2], g % 2 == 1);
    let high = pair_of(row[136 * b + 2 + g / 4], g % 4);
    let n = nibble(row[136 * b + 8 + 16 * g + i % 16], i >= 16);
    let r = 32 * g + i;
    lemma_uneven_form(row, b, r, t);
    assert(r / 32 == g && r % 32 == i && r % 16 == i % 16);
    lemma_two(row, 136 * b);
    lemma_small(row[136 * b + 2 + g / 4], g % 4);
    lemma_value(n);
    lemma_split(low + 16 * high, low, high);
}

#[verifier::opaque]
spec fn value_of(n: int) -> int {
    nonlinear(n)
}

proof fn lemma_value(n: int)
    requires
        0 <= n < 16,
    ensures
        value_of(n) == uneven()[n],
        -128 <= value_of(n) < 128,
{
    reveal(value_of);
    lemma_uneven(n);
}

#[verifier::spinoff_prover]
proof fn lemma_uneven_form(row: Seq<u8>, b: int, r: int, t: IqTables)
    requires
        0 <= b,
        0 <= r < 256,
    ensures
        element_of(GgmlType::Iq4Xs, row, 256 * b + r, t) == uneven_form(row, 136 * b, r),
{
    reveal(element_of);
    assert((256 * b + r) / 256 == b && (256 * b + r) % 256 == r);
    lemma_uneven_term(row, 136 * b, r, t);
}

spec fn uneven_form(row: Seq<u8>, o: int, r: int) -> Term {
    let g = r / 32;
    Term::Grouped {
        d: half_at(row, o),
        scale: (nibble(row[o + 4 + g / 2], g % 2 == 1) + 16 * pair_of(row[o + 2 + g / 4], g % 4) - 32) as i32,
        q: value_of(nibble(row[o + 8 + 16 * g + r % 16], r % 32 >= 16)) as i32,
    }
}

#[verifier::spinoff_prover]
proof fn lemma_uneven_term(row: Seq<u8>, o: int, r: int, t: IqTables)
    ensures
        block_term(GgmlType::Iq4Xs, row, o, r, t) == uneven_form(row, o, r),
{
    reveal(pair_of);
    reveal(value_of);
}

proof fn lemma_pair(x: u8, k: int)
    ensures
        pair_of(x, k) == pair(x, k),
{
    reveal(pair_of);
}

/// Whether an element on a grid is negative.
pub open spec fn below_zero(t: Term) -> bool {
    match t {
        Term::Grid { d, scale, s, g, negative } => negative,
        _ => false,
    }
}

#[verifier::opaque]
spec fn byte_of(v: int, j: int) -> int {
    grid_byte(v, j) as int
}

#[verifier::opaque]
spec fn seven_of(v: int, l: int) -> int {
    seven_bits(v, l)
}

/// An element on a grid: its block and group, its code in the table, and its sign.
spec fn on_grid(
    x: Term,
    d: int,
    scale: GridScale,
    s: int,
    v: int,
    place: int,
    signs: u8,
    j: int,
    t: IqTables,
) -> bool {
    &&& x is Grid
    &&& block_scale(x) == d
    &&& x->Grid_scale == scale
    &&& group_scale(x) == s
    &&& code(x) == byte_of(v, place)
    &&& below_zero(x) <==> is_negative(signs, t.kmask@, j)
}

/// Eight numbers as the bytes of one, the first the lowest.
pub open spec fn eight_codes(x: spec_fn(int) -> Term) -> int {
    code(x(0)) + 0x100 * code(x(1)) + 0x1_0000 * code(x(2)) + 0x100_0000 * code(x(3)) + 0x1_0000_0000
        * code(x(4)) + 0x100_0000_0000 * code(x(5)) + 0x1_0000_0000_0000 * code(x(6))
        + 0x100_0000_0000_0000 * code(x(7))
}

/// Four numbers as the bytes of one, the first the lowest.
pub open spec fn four_codes(x: spec_fn(int) -> Term) -> int {
    code(x(0)) + 0x100 * code(x(1)) + 0x1_0000 * code(x(2)) + 0x100_0000 * code(x(3))
}

/// Whether a number of four bytes is four codes of seven bits with one of four bits above them.
pub open spec fn sevens(v: int, ks: Seq<int>, s: int) -> bool {
    &&& ks.len() == 4
    &&& 0 <= ks[0] < 128 && 0 <= ks[1] < 128 && 0 <= ks[2] < 128 && 0 <= ks[3] < 128
    &&& 0 <= s < 16
    &&& v == ks[0] + 128 * ks[1] + 16384 * ks[2] + 2097152 * ks[3] + 0x1000_0000 * s
}

proof fn lemma_sevens(v: int, ks: Seq<int>, s: int, l: int)
    requires
        sevens(v, ks, s),
        0 <= l < 4,
    ensures
        seven_of(v, l) == ks[l],
        v / 0x1000_0000 == s,
{
    reveal(seven_of);
    assert(v / 128 == ks[1] + 128 * ks[2] + 16384 * ks[3] + 2097152 * s);
    assert(v / 16384 == ks[2] + 128 * ks[3] + 16384 * s);
    assert(v / 2097152 == ks[3] + 128 * s);
}

proof fn lemma_codes_of_entry(x: spec_fn(int) -> Term, v: int)
    requires
        0 <= v <= u64::MAX,
        forall|j: int| 0 <= j < 8 ==> code(#[trigger] x(j)) == byte_of(v, j),
    ensures
        eight_codes(x) == v,
{
    reveal(byte_of);
    lemma_eight(v);
}

proof fn lemma_codes_of_short_entry(x: spec_fn(int) -> Term, v: int)
    requires
        0 <= v <= u32::MAX,
        forall|j: int| 0 <= j < 4 ==> code(#[trigger] x(j)) == byte_of(v, j),
    ensures
        four_codes(x) == v,
{
    reveal(byte_of);
    lemma_eight(v);
}

#[verifier::spinoff_prover]
proof fn lemma_grid_iq2_xxs(row: Seq<u8>, b: int, r: int, t: IqTables)
    requires
        0 <= b,
        0 <= r < 256,
    ensures
        element_of(GgmlType::Iq2Xxs, row, 256 * b + r, t) == grid_term(GgmlType::Iq2Xxs, row, 66 * b, r, t),
{
    reveal(element_of);
    assert((256 * b + r) / 256 == b && (256 * b + r) % 256 == r);
}

#[verifier::spinoff_prover]
proof fn lemma_grid_iq2_xs(row: Seq<u8>, b: int, r: int, t: IqTables)
    requires
        0 <= b,
        0 <= r < 256,
    ensures
        element_of(GgmlType::Iq2Xs, row, 256 * b + r, t) == grid_term(GgmlType::Iq2Xs, row, 74 * b, r, t),
{
    reveal(element_of);
    assert((256 * b + r) / 256 == b && (256 * b + r) % 256 == r);
}

#[verifier::spinoff_prover]
proof fn lemma_grid_iq2_s(row: Seq<u8>, b: int, r: int, t: IqTables)
    requires
        0 <= b,
        0 <= r < 256,
    ensures
        element_of(GgmlType::Iq2S, row, 256 * b + r, t) == grid_term(GgmlType::Iq2S, row, 82 * b, r, t),
{
    reveal(element_of);
    assert((256 * b + r) / 256 == b && (256 * b + r) % 256 == r);
}

#[verifier::spinoff_prover]
proof fn lemma_grid_iq3_xxs(row: Seq<u8>, b: int, r: int, t: IqTables)
    requires
        0 <= b,
        0 <= r < 256,
    ensures
        element_of(GgmlType::Iq3Xxs, row, 256 * b + r, t) == grid_term(GgmlType::Iq3Xxs, row, 98 * b, r, t),
{
    reveal(element_of);
    assert((256 * b + r) / 256 == b && (256 * b + r) % 256 == r);
}

#[verifier::spinoff_prover]
proof fn lemma_grid_iq3_s(row: Seq<u8>, b: int, r: int, t: IqTables)
    requires
        0 <= b,
        0 <= r < 256,
    ensures
        element_of(GgmlType::Iq3S, row, 256 * b + r, t) == grid_term(GgmlType::Iq3S, row, 110 * b, r, t),
{
    reveal(element_of);
    assert((256 * b + r) / 256 == b && (256 * b + r) % 256 == r);
}

proof fn lemma_iq2_xxs(row: Seq<u8>, b: int, g: int, l: int, j: int, t: IqTables)
    requires
        0 <= b,
        0 <= g < 8,
        0 <= l < 4,
        0 <= j < 8,
    ensures
        ({
            let aux = four_bytes(row, 66 * b + 6 + 8 * g);
            on_grid(
                element_of(GgmlType::Iq2Xxs, row, 256 * b + (32 * g + 8 * l + j), t),
                two_bytes(row, 66 * b),
                GridScale::Quarter,
                aux / 0x1000_0000,
                t.iq2xxs[row[66 * b + 2 + 8 * g + l] as int] as int,
                j,
                t.ksigns[seven_of(aux, l)],
                j,
                t,
            )
        }),
{
    let r = 32 * g + 8 * l + j;
    lemma_grid_iq2_xxs(row, b, r, t);
    lemma_iq2_xxs_at(row, 66 * b, g, l, j, t);
}

#[verifier::spinoff_prover]
proof fn lemma_iq2_xxs_at(row: Seq<u8>, o: int, g: int, l: int, j: int, t: IqTables)
    requires
        0 <= g < 8,
        0 <= l < 4,
        0 <= j < 8,
    ensures
        ({
            let aux = four_bytes(row, o + 6 + 8 * g);
            on_grid(
                grid_term(GgmlType::Iq2Xxs, row, o, 32 * g + 8 * l + j, t),
                two_bytes(row, o),
                GridScale::Quarter,
                aux / 0x1000_0000,
                t.iq2xxs[row[o + 2 + 8 * g + l] as int] as int,
                j,
                t.ksigns[seven_of(aux, l)],
                j,
                t,
            )
        }),
{
    reveal(byte_of);
    reveal(seven_of);
    let r = 32 * g + 8 * l + j;
    assert(r / 32 == g && (r % 32) / 8 == l && r % 8 == j);
    lemma_two(row, o);
    lemma_four(row, o + 6 + 8 * g);
    assert(le(row, o + 2 + 8 * g + 4, 4) == four_bytes(row, o + 6 + 8 * g));
}

proof fn lemma_iq2_xs(row: Seq<u8>, b: int, g: int, l: int, j: int, t: IqTables)
    requires
        0 <= b,
        0 <= g < 8,
        0 <= l < 4,
        0 <= j < 8,
    ensures
        ({
            let c = two_bytes(row, 74 * b + 2 + 8 * g + 2 * l);
            on_grid(
                element_of(GgmlType::Iq2Xs, row, 256 * b + (32 * g + 8 * l + j), t),
                two_bytes(row, 74 * b),
                GridScale::Quarter,
                nibble(row[74 * b + 66 + g], l >= 2),
                t.iq2xs[c % 512] as int,
                j,
                t.ksigns[c / 512],
                j,
                t,
            )
        }),
{
    let r = 32 * g + 8 * l + j;
    lemma_grid_iq2_xs(row, b, r, t);
    lemma_iq2_xs_at(row, 74 * b, g, l, j, t);
}

#[verifier::spinoff_prover]
proof fn lemma_iq2_xs_at(row: Seq<u8>, o: int, g: int, l: int, j: int, t: IqTables)
    requires
        0 <= g < 8,
        0 <= l < 4,
        0 <= j < 8,
    ensures
        ({
            let c = two_bytes(row, o + 2 + 8 * g + 2 * l);
            on_grid(
                grid_term(GgmlType::Iq2Xs, row, o, 32 * g + 8 * l + j, t),
                two_bytes(row, o),
                GridScale::Quarter,
                nibble(row[o + 66 + g], l >= 2),
                t.iq2xs[c % 512] as int,
                j,
                t.ksigns[c / 512],
                j,
                t,
            )
        }),
{
    reveal(byte_of);
    let r = 32 * g + 8 * l + j;
    assert(r / 32 == g && (r % 32) / 8 == l && r % 8 == j);
    lemma_two(row, o);
    lemma_two(row, o + 2 + 8 * g + 2 * l);
    assert(le(row, o + 2 + 2 * (4 * g + l), 2) == two_bytes(row, o + 2 + 8 * g + 2 * l));
}

proof fn lemma_iq2_s(row: Seq<u8>, b: int, g: int, l: int, j: int, t: IqTables)
    requires
        0 <= b,
        0 <= g < 8,
        0 <= l < 4,
        0 <= j < 8,
    ensures
        ({
            on_grid(
                element_of(GgmlType::Iq2S, row, 256 * b + (32 * g + 8 * l + j), t),
                two_bytes(row, 82 * b),
                GridScale::Quarter,
                nibble(row[82 * b + 74 + g], l >= 2),
                t.iq2s[row[82 * b + 2 + 4 * g + l] + 256 * pair_of(row[82 * b + 66 + g], l)] as int,
                j,
                row[82 * b + 34 + 4 * g + l],
                j,
                t,
            )
        }),
{
    let r = 32 * g + 8 * l + j;
    lemma_grid_iq2_s(row, b, r, t);
    lemma_iq2_s_at(row, 82 * b, g, l, j, t);
}

#[verifier::spinoff_prover]
proof fn lemma_iq2_s_at(row: Seq<u8>, o: int, g: int, l: int, j: int, t: IqTables)
    requires
        0 <= g < 8,
        0 <= l < 4,
        0 <= j < 8,
    ensures
        ({
            on_grid(
                grid_term(GgmlType::Iq2S, row, o, 32 * g + 8 * l + j, t),
                two_bytes(row, o),
                GridScale::Quarter,
                nibble(row[o + 74 + g], l >= 2),
                t.iq2s[row[o + 2 + 4 * g + l] + 256 * pair_of(row[o + 66 + g], l)] as int,
                j,
                row[o + 34 + 4 * g + l],
                j,
                t,
            )
        }),
{
    reveal(byte_of);
    reveal(pair_of);
    let r = 32 * g + 8 * l + j;
    assert(r / 32 == g && (r % 32) / 8 == l && r % 8 == j);
    lemma_two(row, o);
}

proof fn lemma_iq3_xxs(row: Seq<u8>, b: int, g: int, l: int, j: int, t: IqTables)
    requires
        0 <= b,
        0 <= g < 8,
        0 <= l < 4,
        0 <= j < 8,
    ensures
        ({
            let aux = four_bytes(row, 98 * b + 66 + 4 * g);
            on_grid(
                element_of(GgmlType::Iq3Xxs, row, 256 * b + (32 * g + 8 * l + j), t),
                two_bytes(row, 98 * b),
                GridScale::Half,
                aux / 0x1000_0000,
                t.iq3xxs[row[98 * b + 2 + 8 * g + 2 * l + j / 4] as int] as int,
                j % 4,
                t.ksigns[seven_of(aux, l)],
                j,
                t,
            )
        }),
{
    let r = 32 * g + 8 * l + j;
    lemma_grid_iq3_xxs(row, b, r, t);
    lemma_iq3_xxs_at(row, 98 * b, g, l, j, t);
}

#[verifier::spinoff_prover]
proof fn lemma_iq3_xxs_at(row: Seq<u8>, o: int, g: int, l: int, j: int, t: IqTables)
    requires
        0 <= g < 8,
        0 <= l < 4,
        0 <= j < 8,
    ensures
        ({
            let aux = four_bytes(row, o + 66 + 4 * g);
            on_grid(
                grid_term(GgmlType::Iq3Xxs, row, o, 32 * g + 8 * l + j, t),
                two_bytes(row, o),
                GridScale::Half,
                aux / 0x1000_0000,
                t.iq3xxs[row[o + 2 + 8 * g + 2 * l + j / 4] as int] as int,
                j % 4,
                t.ksigns[seven_of(aux, l)],
                j,
                t,
            )
        }),
{
    reveal(byte_of);
    reveal(seven_of);
    let r = 32 * g + 8 * l + j;
    assert(r / 32 == g && (r % 32) / 8 == l && r % 8 == j);
    lemma_two(row, o);
    lemma_four(row, o + 66 + 4 * g);
}

proof fn lemma_iq3_s(row: Seq<u8>, b: int, g: int, l: int, j: int, t: IqTables)
    requires
        0 <= b,
        0 <= g < 8,
        0 <= l < 4,
        0 <= j < 8,
    ensures
        ({
            on_grid(
                element_of(GgmlType::Iq3S, row, 256 * b + (32 * g + 8 * l + j), t),
                two_bytes(row, 110 * b),
                GridScale::Odd,
                nibble(row[110 * b + 106 + g / 2], g % 2 == 1),
                t.iq3s[row[110 * b + 2 + 8 * g + 2 * l + j / 4] + 256 * bit_of(row[110 * b + 66 + g], 2 * l + j / 4)] as int,
                j % 4,
                row[110 * b + 74 + 4 * g + l],
                j,
                t,
            )
        }),
{
    let r = 32 * g + 8 * l + j;
    lemma_grid_iq3_s(row, b, r, t);
    lemma_iq3_s_at(row, 110 * b, g, l, j, t);
}

#[verifier::spinoff_prover]
proof fn lemma_iq3_s_at(row: Seq<u8>, o: int, g: int, l: int, j: int, t: IqTables)
    requires
        0 <= g < 8,
        0 <= l < 4,
        0 <= j < 8,
    ensures
        ({
            on_grid(
                grid_term(GgmlType::Iq3S, row, o, 32 * g + 8 * l + j, t),
                two_bytes(row, o),
                GridScale::Odd,
                nibble(row[o + 106 + g / 2], g % 2 == 1),
                t.iq3s[row[o + 2 + 8 * g + 2 * l + j / 4] + 256 * bit_of(row[o + 66 + g], 2 * l + j / 4)] as int,
                j % 4,
                row[o + 74 + 4 * g + l],
                j,
                t,
            )
        }),
{
    reveal(byte_of);
    reveal(bit_of);
    let r = 32 * g + 8 * l + j;
    assert(r / 32 == g && (r % 32) / 8 == l && r % 8 == j);
    lemma_two(row, o);
}

/// Eight bytes to a group of thirty-two: four that find the eight codes of a quarter of the group in the
/// table, and behind them four codes of seven bits for the signs with the scale of the group above them.
pub proof fn law_a_group_of_iq2_xxs(
    row: Seq<u8>,
    b: int,
    g: int,
    l: int,
    ks: Seq<int>,
    s: int,
    t: IqTables,
)
    requires
        t.wf(),
        0 <= b,
        0 <= g < 8,
        0 <= l < 4,
        sevens(four_bytes(row, 66 * b + 6 + 8 * g), ks, s),
    ensures
        ({
            let x = |j: int| element_of(GgmlType::Iq2Xxs, row, 256 * b + (32 * g + 8 * l + j), t);
            &&& eight_codes(x) == t.iq2xxs[row[66 * b + 2 + 8 * g + l] as int]
            &&& forall|j: int|
                0 <= j < 8 ==> {
                    let e = #[trigger] element_of(
                        GgmlType::Iq2Xxs,
                        row,
                        256 * b + (32 * g + 8 * l + j),
                        t,
                    );
                    &&& e is Grid
                    &&& block_scale(e) == two_bytes(row, 66 * b)
                    &&& e->Grid_scale == GridScale::Quarter
                    &&& group_scale(e) == s
                    &&& below_zero(e) <==> t.ksigns[ks[l]] & t.kmask[j] != 0
                }
        }),
{
    let aux = four_bytes(row, 66 * b + 6 + 8 * g);
    lemma_sevens(aux, ks, s, l);
    assert forall|j: int| 0 <= j < 8 implies on_grid(
        #[trigger] element_of(GgmlType::Iq2Xxs, row, 256 * b + (32 * g + 8 * l + j), t),
        two_bytes(row, 66 * b),
        GridScale::Quarter,
        s,
        t.iq2xxs[row[66 * b + 2 + 8 * g + l] as int] as int,
        j,
        t.ksigns[ks[l]],
        j,
        t,
    ) by {
        lemma_iq2_xxs(row, b, g, l, j, t);
    }
    lemma_codes_of_entry(
        |j: int| element_of(GgmlType::Iq2Xxs, row, 256 * b + (32 * g + 8 * l + j), t),
        t.iq2xxs[row[66 * b + 2 + 8 * g + l] as int] as int,
    );
}

/// Two bytes to a quarter of a group: nine bits that find its eight codes in the table and seven that find
/// its signs; the scales of the halves of a group share a byte behind all of them.
pub proof fn law_a_group_of_iq2_xs(
    row: Seq<u8>,
    b: int,
    g: int,
    l: int,
    c: int,
    k: int,
    t: IqTables,
)
    requires
        t.wf(),
        0 <= b,
        0 <= g < 8,
        0 <= l < 4,
        0 <= c < 512,
        0 <= k < 128,
        two_bytes(row, 74 * b + 2 + 8 * g + 2 * l) == c + 512 * k,
    ensures
        ({
            let x = |j: int| element_of(GgmlType::Iq2Xs, row, 256 * b + (32 * g + 8 * l + j), t);
            &&& eight_codes(x) == t.iq2xs[c]
            &&& forall|j: int|
                0 <= j < 8 ==> {
                    let e = #[trigger] element_of(
                        GgmlType::Iq2Xs,
                        row,
                        256 * b + (32 * g + 8 * l + j),
                        t,
                    );
                    &&& e is Grid
                    &&& block_scale(e) == two_bytes(row, 74 * b)
                    &&& e->Grid_scale == GridScale::Quarter
                    &&& l < 2 ==> group_scale(e) == row[74 * b + 66 + g] as int % 16
                    &&& l >= 2 ==> group_scale(e) == row[74 * b + 66 + g] as int / 16
                    &&& below_zero(e) <==> t.ksigns[k] & t.kmask[j] != 0
                }
        }),
{
    assert forall|j: int| 0 <= j < 8 implies on_grid(
        #[trigger] element_of(GgmlType::Iq2Xs, row, 256 * b + (32 * g + 8 * l + j), t),
        two_bytes(row, 74 * b),
        GridScale::Quarter,
        nibble(row[74 * b + 66 + g], l >= 2),
        t.iq2xs[c] as int,
        j,
        t.ksigns[k],
        j,
        t,
    ) by {
        lemma_iq2_xs(row, b, g, l, j, t);
    }
    lemma_codes_of_entry(
        |j: int| element_of(GgmlType::Iq2Xs, row, 256 * b + (32 * g + 8 * l + j), t),
        t.iq2xs[c] as int,
    );
}

/// Whether a byte is four codes of two bits, the first the lowest.
pub open spec fn quarters(x: u8, qs: Seq<int>) -> bool {
    &&& qs.len() == 4
    &&& 0 <= qs[0] < 4 && 0 <= qs[1] < 4 && 0 <= qs[2] < 4 && 0 <= qs[3] < 4
    &&& x == qs[0] + 4 * qs[1] + 16 * qs[2] + 64 * qs[3]
}

proof fn lemma_quarters(x: u8, qs: Seq<int>, l: int)
    requires
        quarters(x, qs),
        0 <= l < 4,
    ensures
        pair_of(x, l) == qs[l],
{
    lemma_bits(x);
    lemma_small(x, 0);
    lemma_small(x, 1);
    lemma_small(x, 2);
    lemma_small(x, 3);
}

/// Whether a byte is eight bits, the first the lowest.
pub open spec fn eighths(x: u8, qs: Seq<int>) -> bool {
    &&& qs.len() == 8
    &&& forall|k: int| 0 <= k < 8 ==> 0 <= #[trigger] qs[k] < 2
    &&& x == qs[0] + 2 * qs[1] + 4 * qs[2] + 8 * qs[3] + 16 * qs[4] + 32 * qs[5] + 64 * qs[6] + 128 * qs[7]
}

proof fn lemma_eighths(x: u8, qs: Seq<int>, l: int)
    requires
        eighths(x, qs),
        0 <= l < 8,
    ensures
        bit_of(x, l) == qs[l],
{
    lemma_bits(x);
    lemma_small(x, 0);
    lemma_small(x, 1);
    lemma_small(x, 2);
    lemma_small(x, 3);
    lemma_small(x, 4);
    lemma_small(x, 5);
    lemma_small(x, 6);
    lemma_small(x, 7);
    let v1 = x as int / 2;
    let v2 = v1 / 2;
    let v3 = v2 / 2;
    let v4 = v3 / 2;
    let v5 = v4 / 2;
    let v6 = v5 / 2;
    lemma_halve(x as int, qs[0], qs[1] + 2 * qs[2] + 4 * qs[3] + 8 * qs[4] + 16 * qs[5] + 32 * qs[6] + 64 * qs[7]);
    lemma_halve(v1, qs[1], qs[2] + 2 * qs[3] + 4 * qs[4] + 8 * qs[5] + 16 * qs[6] + 32 * qs[7]);
    lemma_halve(v2, qs[2], qs[3] + 2 * qs[4] + 4 * qs[5] + 8 * qs[6] + 16 * qs[7]);
    lemma_halve(v3, qs[3], qs[4] + 2 * qs[5] + 4 * qs[6] + 8 * qs[7]);
    lemma_halve(v4, qs[4], qs[5] + 2 * qs[6] + 4 * qs[7]);
    lemma_halve(v5, qs[5], qs[6] + 2 * qs[7]);
    lemma_halve(v6, qs[6], qs[7]);
    lemma_halve(x as int, bit_of(x, 0), bit_of(x, 1) + 2 * bit_of(x, 2) + 4 * bit_of(x, 3) + 8 * bit_of(x, 4) + 16 * bit_of(x, 5) + 32 * bit_of(x, 6) + 64 * bit_of(x, 7));
    lemma_halve(v1, bit_of(x, 1), bit_of(x, 2) + 2 * bit_of(x, 3) + 4 * bit_of(x, 4) + 8 * bit_of(x, 5) + 16 * bit_of(x, 6) + 32 * bit_of(x, 7));
    lemma_halve(v2, bit_of(x, 2), bit_of(x, 3) + 2 * bit_of(x, 4) + 4 * bit_of(x, 5) + 8 * bit_of(x, 6) + 16 * bit_of(x, 7));
    lemma_halve(v3, bit_of(x, 3), bit_of(x, 4) + 2 * bit_of(x, 5) + 4 * bit_of(x, 6) + 8 * bit_of(x, 7));
    lemma_halve(v4, bit_of(x, 4), bit_of(x, 5) + 2 * bit_of(x, 6) + 4 * bit_of(x, 7));
    lemma_halve(v5, bit_of(x, 5), bit_of(x, 6) + 2 * bit_of(x, 7));
    lemma_halve(v6, bit_of(x, 6), bit_of(x, 7));
}

proof fn lemma_halve(x: int, q: int, rest: int)
    requires
        x == q + 2 * rest,
        0 <= q < 2,
    ensures
        q == x % 2,
        rest == x / 2,
{
}

/// A byte, and two bits that stand behind all signs, find the eight codes of a quarter of a group in the
/// table; a byte of signs for each quarter stands between, and the scales of the halves come last.
pub proof fn law_a_group_of_iq2_s(
    row: Seq<u8>,
    b: int,
    g: int,
    l: int,
    qs: Seq<int>,
    t: IqTables,
)
    requires
        t.wf(),
        0 <= b,
        0 <= g < 8,
        0 <= l < 4,
        quarters(row[82 * b + 66 + g], qs),
    ensures
        ({
            let x = |j: int| element_of(GgmlType::Iq2S, row, 256 * b + (32 * g + 8 * l + j), t);
            &&& eight_codes(x) == t.iq2s[row[82 * b + 2 + 4 * g + l] + 256 * qs[l]]
            &&& forall|j: int|
                0 <= j < 8 ==> {
                    let e = #[trigger] element_of(
                        GgmlType::Iq2S,
                        row,
                        256 * b + (32 * g + 8 * l + j),
                        t,
                    );
                    &&& e is Grid
                    &&& block_scale(e) == two_bytes(row, 82 * b)
                    &&& e->Grid_scale == GridScale::Quarter
                    &&& l < 2 ==> group_scale(e) == row[82 * b + 74 + g] as int % 16
                    &&& l >= 2 ==> group_scale(e) == row[82 * b + 74 + g] as int / 16
                    &&& below_zero(e) <==> row[82 * b + 34 + 4 * g + l] & t.kmask[j] != 0
                }
        }),
{
    lemma_quarters(row[82 * b + 66 + g], qs, l);
    assert forall|j: int| 0 <= j < 8 implies on_grid(
        #[trigger] element_of(GgmlType::Iq2S, row, 256 * b + (32 * g + 8 * l + j), t),
        two_bytes(row, 82 * b),
        GridScale::Quarter,
        nibble(row[82 * b + 74 + g], l >= 2),
        t.iq2s[row[82 * b + 2 + 4 * g + l] + 256 * qs[l]] as int,
        j,
        row[82 * b + 34 + 4 * g + l],
        j,
        t,
    ) by {
        lemma_iq2_s(row, b, g, l, j, t);
    }
    lemma_codes_of_entry(
        |j: int| element_of(GgmlType::Iq2S, row, 256 * b + (32 * g + 8 * l + j), t),
        t.iq2s[row[82 * b + 2 + 4 * g + l] + 256 * qs[l]] as int,
    );
}

/// A byte finds four codes in the table; behind these bytes stand, for every group, four codes of seven
/// bits for the signs with the scale above them.
pub proof fn law_a_group_of_iq3_xxs(
    row: Seq<u8>,
    b: int,
    g: int,
    l: int,
    ks: Seq<int>,
    s: int,
    t: IqTables,
)
    requires
        t.wf(),
        0 <= b,
        0 <= g < 8,
        0 <= l < 4,
        sevens(four_bytes(row, 98 * b + 66 + 4 * g), ks, s),
    ensures
        ({
            let x = |j: int| element_of(GgmlType::Iq3Xxs, row, 256 * b + (32 * g + 8 * l + j), t);
            let y = |j: int| element_of(GgmlType::Iq3Xxs, row, 256 * b + (32 * g + 8 * l + (j + 4)), t);
            &&& four_codes(x) == t.iq3xxs[row[98 * b + 2 + 8 * g + 2 * l] as int]
            &&& four_codes(y) == t.iq3xxs[row[98 * b + 3 + 8 * g + 2 * l] as int]
            &&& forall|j: int|
                0 <= j < 8 ==> {
                    let e = #[trigger] element_of(
                        GgmlType::Iq3Xxs,
                        row,
                        256 * b + (32 * g + 8 * l + j),
                        t,
                    );
                    &&& e is Grid
                    &&& block_scale(e) == two_bytes(row, 98 * b)
                    &&& e->Grid_scale == GridScale::Half
                    &&& group_scale(e) == s
                    &&& below_zero(e) <==> t.ksigns[ks[l]] & t.kmask[j] != 0
                }
        }),
{
    let aux = four_bytes(row, 98 * b + 66 + 4 * g);
    lemma_sevens(aux, ks, s, l);
    assert forall|j: int| 0 <= j < 8 implies on_grid(
        #[trigger] element_of(GgmlType::Iq3Xxs, row, 256 * b + (32 * g + 8 * l + j), t),
        two_bytes(row, 98 * b),
        GridScale::Half,
        s,
        t.iq3xxs[row[98 * b + 2 + 8 * g + 2 * l + j / 4] as int] as int,
        j % 4,
        t.ksigns[ks[l]],
        j,
        t,
    ) by {
        lemma_iq3_xxs(row, b, g, l, j, t);
    }
    assert forall|j: int| 0 <= j < 4 implies code(
        #[trigger] element_of(GgmlType::Iq3Xxs, row, 256 * b + (32 * g + 8 * l + (j + 4)), t),
    ) == byte_of(t.iq3xxs[row[98 * b + 2 + 8 * g + 2 * l + 1] as int] as int, j) by {
        assert((j + 4) / 4 == 1 && (j + 4) % 4 == j);
        let f = element_of(GgmlType::Iq3Xxs, row, 256 * b + (32 * g + 8 * l + (j + 4)), t);
        assert(f is Grid);
    }
    lemma_codes_of_short_entry(
        |j: int| element_of(GgmlType::Iq3Xxs, row, 256 * b + (32 * g + 8 * l + j), t),
        t.iq3xxs[row[98 * b + 2 + 8 * g + 2 * l + 0] as int] as int,
    );
    lemma_codes_of_short_entry(
        |j: int| element_of(GgmlType::Iq3Xxs, row, 256 * b + (32 * g + 8 * l + (j + 4)), t),
        t.iq3xxs[row[98 * b + 2 + 8 * g + 2 * l + 1] as int] as int,
    );
}

/// A byte, and a bit that stands behind all of these bytes, find four codes in the table; then come a byte of
/// signs for each quarter of a group and the scales, two groups to a byte.
pub proof fn law_a_group_of_iq3_s(
    row: Seq<u8>,
    b: int,
    g: int,
    l: int,
    qs: Seq<int>,
    t: IqTables,
)
    requires
        t.wf(),
        0 <= b,
        0 <= g < 8,
        0 <= l < 4,
        eighths(row[110 * b + 66 + g], qs),
    ensures
        ({
            let x = |j: int| element_of(GgmlType::Iq3S, row, 256 * b + (32 * g + 8 * l + j), t);
            let y = |j: int| element_of(GgmlType::Iq3S, row, 256 * b + (32 * g + 8 * l + (j + 4)), t);
            &&& four_codes(x) == t.iq3s[row[110 * b + 2 + 8 * g + 2 * l] + 256 * qs[2 * l]]
            &&& four_codes(y) == t.iq3s[row[110 * b + 3 + 8 * g + 2 * l] + 256 * qs[2 * l + 1]]
            &&& forall|j: int|
                0 <= j < 8 ==> {
                    let e = #[trigger] element_of(
                        GgmlType::Iq3S,
                        row,
                        256 * b + (32 * g + 8 * l + j),
                        t,
                    );
                    &&& e is Grid
                    &&& block_scale(e) == two_bytes(row, 110 * b)
                    &&& e->Grid_scale == GridScale::Odd
                    &&& g % 2 == 0 ==> group_scale(e) == row[110 * b + 106 + g / 2] as int % 16
                    &&& g % 2 == 1 ==> group_scale(e) == row[110 * b + 106 + g / 2] as int / 16
                    &&& below_zero(e) <==> row[110 * b + 74 + 4 * g + l] & t.kmask[j] != 0
                }
        }),
{
    lemma_eighths(row[110 * b + 66 + g], qs, 2 * l);
    lemma_eighths(row[110 * b + 66 + g], qs, 2 * l + 1);
    assert forall|j: int| 0 <= j < 8 implies on_grid(
        #[trigger] element_of(GgmlType::Iq3S, row, 256 * b + (32 * g + 8 * l + j), t),
        two_bytes(row, 110 * b),
        GridScale::Odd,
        nibble(row[110 * b + 106 + g / 2], g % 2 == 1),
        t.iq3s[row[110 * b + 2 + 8 * g + 2 * l + j / 4] + 256 * qs[2 * l + j / 4]] as int,
        j % 4,
        row[110 * b + 74 + 4 * g + l],
        j,
        t,
    ) by {
        lemma_iq3_s(row, b, g, l, j, t);
    }
    assert forall|j: int| 0 <= j < 4 implies code(
        #[trigger] element_of(GgmlType::Iq3S, row, 256 * b + (32 * g + 8 * l + (j + 4)), t),
    ) == byte_of(t.iq3s[row[110 * b + 2 + 8 * g + 2 * l + 1] + 256 * qs[2 * l + 1]] as int, j) by {
        assert((j + 4) / 4 == 1 && (j + 4) % 4 == j);
        let f = element_of(GgmlType::Iq3S, row, 256 * b + (32 * g + 8 * l + (j + 4)), t);
        assert(f is Grid);
    }
    lemma_codes_of_short_entry(
        |j: int| element_of(GgmlType::Iq3S, row, 256 * b + (32 * g + 8 * l + j), t),
        t.iq3s[row[110 * b + 2 + 8 * g + 2 * l + 0] + 256 * qs[2 * l + 0]] as int,
    );
    lemma_codes_of_short_entry(
        |j: int| element_of(GgmlType::Iq3S, row, 256 * b + (32 * g + 8 * l + (j + 4)), t),
        t.iq3s[row[110 * b + 2 + 8 * g + 2 * l + 1] + 256 * qs[2 * l + 1]] as int,
    );
}

/// A product visits the elements whose codes share a byte together: the two halves of a block, of a pair of
/// groups or of a quarter in turn, and the four quarters of half a block in turn; elsewhere in order.
pub proof fn law_elements_of_a_byte_are_visited_together(g: int, i: int, k: int)
    requires
        0 <= g,
    ensures
        0 <= i < 16 ==> {
            &&& dot_element(GgmlType::Q5_0, 32 * g + 2 * i) == 32 * g + i
            &&& dot_element(GgmlType::Q5_0, 32 * g + 2 * i + 1) == 32 * g + 16 + i
            &&& dot_element(GgmlType::Iq4Nl, 32 * g + 2 * i) == 32 * g + i
            &&& dot_element(GgmlType::Iq4Nl, 32 * g + 2 * i + 1) == 32 * g + 16 + i
            &&& dot_element(GgmlType::Iq4Xs, 32 * g + 2 * i) == 32 * g + i
            &&& dot_element(GgmlType::Iq4Xs, 32 * g + 2 * i + 1) == 32 * g + 16 + i
        },
        0 <= i < 32 ==> {
            &&& dot_element(GgmlType::Q5K, 64 * g + 2 * i) == 64 * g + i
            &&& dot_element(GgmlType::Q5K, 64 * g + 2 * i + 1) == 64 * g + 32 + i
        },
        0 <= i < 4 ==> {
            &&& dot_element(GgmlType::Iq3Xxs, 8 * g + 2 * i) == 8 * g + i
            &&& dot_element(GgmlType::Iq3Xxs, 8 * g + 2 * i + 1) == 8 * g + 4 + i
            &&& dot_element(GgmlType::Iq3S, 8 * g + 2 * i) == 8 * g + i
            &&& dot_element(GgmlType::Iq3S, 8 * g + 2 * i + 1) == 8 * g + 4 + i
        },
        0 <= i < 32 && 0 <= k < 4 ==> dot_element(GgmlType::Q6K, 128 * g + 4 * i + k) == 128 * g + 32 * k + i,
        dot_element(GgmlType::Q4K, g) == g,
        dot_element(GgmlType::Q8_0, g) == g,
        dot_element(GgmlType::Q2_0, g) == g,
        dot_element(GgmlType::Iq2Xxs, g) == g,
        dot_element(GgmlType::Iq2Xs, g) == g,
        dot_element(GgmlType::Iq2S, g) == g,
        dot_element(GgmlType::F32, g) == g,
        dot_element(GgmlType::F16, g) == g,
        dot_element(GgmlType::Bf16, g) == g,
{
    if 0 <= i < 16 {
        assert((32 * g + 2 * i) % 32 == 2 * i && (32 * g + 2 * i + 1) % 32 == 2 * i + 1);
        assert((2 * i) / 2 == i && (2 * i + 1) / 2 == i);
    }
    if 0 <= i < 32 {
        assert((64 * g + 2 * i) % 64 == 2 * i && (64 * g + 2 * i + 1) % 64 == 2 * i + 1);
        assert((2 * i) / 2 == i && (2 * i + 1) / 2 == i);
        if 0 <= k < 4 {
            assert((128 * g + 4 * i + k) % 128 == 4 * i + k);
            assert((4 * i + k) / 4 == i && (4 * i + k) % 4 == k);
        }
    }
    if 0 <= i < 4 {
        assert((8 * g + 2 * i) % 8 == 2 * i && (8 * g + 2 * i + 1) % 8 == 2 * i + 1);
    }
}

} // verus!
