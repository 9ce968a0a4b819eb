//! Rows of quantized weights: which numbers the bytes of a row hold.
//!
//! A row is decoded to terms. A term holds whole numbers and the patterns of the block's scales; the
//! value of the element is a product (and for some types a difference) of floating-point numbers
//! that the caller computes from them, in the order that the variant gives.

use vstd::prelude::*;

use crate::bytes::{le, lemma_bases, read_le};
use crate::floatbits::{f16_to_f32, half_to_single};
use crate::gguf::{GgmlType, GgufFault};

verus! {

/// How a grid element is scaled by the `s` of its group.
#[derive(Clone, Copy, Debug, PartialEq, Eq, Structural)]
pub enum GridScale {
    /// By `(s + 1/2) / 4`.
    Quarter,
    /// By `(s + 1/2) / 2`.
    Half,
    /// By `1 + 2 s`.
    Odd,
}

/// What one element is made of. `d` and `m` are patterns of halves.
#[allow(inconsistent_fields)]
#[derive(Clone, Copy, Debug, PartialEq, Eq, Structural)]
pub enum Term {
    /// The single of this pattern.
    Bits(u32),
    /// `d * q`.
    Scaled { d: u16, q: i32 },
    /// `(d * scale) * q - m * min`.
    Affine { d: u16, m: u16, scale: u8, min: u8, q: u8 },
    /// `(d * scale) * q`.
    Grouped { d: u16, scale: i32, q: i32 },
    /// `(d * scaled s) * g`, negated where `negative`.
    Grid { d: u16, scale: GridScale, s: u8, g: u8, negative: bool },
}

/// The tables of the grid types: rows of bytes, least significant byte first, the signs of a group by
/// their code, and the bit of each element in such a sign byte.
pub struct IqTables {
    pub iq2xxs: Vec<u64>,
    pub iq2xs: Vec<u64>,
    pub iq2s: Vec<u64>,
    pub iq3xxs: Vec<u32>,
    pub iq3s: Vec<u32>,
    pub ksigns: Vec<u8>,
    pub kmask: Vec<u8>,
}

impl IqTables {
    /// Every code has a row.
    pub open spec fn wf(self) -> bool {
        &&& self.iq2xxs.len() == 256
        &&& self.iq2xs.len() == 512
        &&& self.iq2s.len() == 1024
        &&& self.iq3xxs.len() == 256
        &&& self.iq3s.len() == 512
        &&& self.ksigns.len() == 128
        &&& self.kmask.len() == 8
    }
}

/// Two to the power of `k`, for `k` below eight.
pub open spec fn two(k: int) -> int {
    if k <= 0 {
        1
    } else if k == 1 {
        2
    } else if k == 2 {
        4
    } else if k == 3 {
        8
    } else if k == 4 {
        16
    } else if k == 5 {
        32
    } else if k == 6 {
        64
    } else {
        128
    }
}

fn power(k: usize) -> (p: u8)
    requires
        k < 8,
    ensures
        p == two(k as int),
        p >= 1,
{
    if k == 0 {
        1
    } else if k == 1 {
        2
    } else if k == 2 {
        4
    } else if k == 3 {
        8
    } else if k == 4 {
        16
    } else if k == 5 {
        32
    } else if k == 6 {
        64
    } else {
        128
    }
}

/// Bit `k` of a byte.
pub open spec fn bit(x: u8, k: int) -> int {
    (x as int / two(k)) % 2
}

/// The pair of bits `k` of a byte.
pub open spec fn pair(x: u8, k: int) -> int {
    (x as int / two(2 * k)) % 4
}

/// The low or the high half of a byte.
pub open spec fn nibble(x: u8, high: bool) -> int {
    if high {
        x as int / 16
    } else {
        x as int % 16
    }
}

/// A byte as a signed number.
pub open spec fn byte_signed(x: u8) -> int {
    if x >= 128 {
        x - 256
    } else {
        x as int
    }
}

fn get_bit(x: u8, k: usize) -> (r: u8)
    requires
        k < 8,
    ensures
        r == bit(x, k as int),
        r <= 1,
{
    (x / power(k)) % 2
}

fn get_pair(x: u8, k: usize) -> (r: u8)
    requires
        k < 4,
    ensures
        r == pair(x, k as int),
        r <= 3,
{
    (x / power(2 * k)) % 4
}

fn get_nibble(x: u8, high: bool) -> (r: u8)
    ensures
        r == nibble(x, high),
        r <= 15,
{
    if high {
        x / 16
    } else {
        x % 16
    }
}

fn get_signed(x: u8) -> (r: i32)
    ensures
        r == byte_signed(x),
{
    if x >= 128 {
        x as i32 - 256
    } else {
        x as i32
    }
}

/// The values that the codes of the non-linear 4-bit types stand for.
pub open spec fn nonlinear(n: int) -> int {
    if n == 0 {
        -127int
    } else if n == 1 {
        -104int
    } else if n == 2 {
        -83int
    } else if n == 3 {
        -65int
    } else if n == 4 {
        -49int
    } else if n == 5 {
        -35int
    } else if n == 6 {
        -22int
    } else if n == 7 {
        -10int
    } else if n == 8 {
        1int
    } else if n == 9 {
        13int
    } else if n == 10 {
        25int
    } else if n == 11 {
        38int
    } else if n == 12 {
        53int
    } else if n == 13 {
        69int
    } else if n == 14 {
        89int
    } else {
        113int
    }
}

fn get_nonlinear(n: u8) -> (r: i32)
    requires
        n < 16,
    ensures
        r == nonlinear(n as int),
{
    if n == 0 {
        -127
    } else if n == 1 {
        -104
    } else if n == 2 {
        -83
    } else if n == 3 {
        -65
    } else if n == 4 {
        -49
    } else if n == 5 {
        -35
    } else if n == 6 {
        -22
    } else if n == 7 {
        -10
    } else if n == 8 {
        1
    } else if n == 9 {
        13
    } else if n == 10 {
        25
    } else if n == 11 {
        38
    } else if n == 12 {
        53
    } else if n == 13 {
        69
    } else if n == 14 {
        89
    } else {
        113
    }
}

/// The scale and the minimum of group `j`, six bits each, from twelve bytes at `p`.
pub open spec fn scale_min(row: Seq<u8>, p: int, j: int) -> (int, int) {
    if j < 4 {
        (row[p + j] as int % 64, row[p + j + 4] as int % 64)
    } else {
        (
            row[p + j + 4] as int % 16 + (row[p + j - 4] as int / 64) * 16,
            row[p + j + 4] as int / 16 + (row[p + j] as int / 64) * 16,
        )
    }
}

fn scale_min_at(row: &[u8], p: usize, j: usize) -> (r: (u8, u8))
    requires
        j < 8,
        p + 12 <= row.len(),
    ensures
        (r.0 as int, r.1 as int) == scale_min(row@, p as int, j as int),
{
    if j < 4 {
        (row[p + j] % 64, row[p + j + 4] % 64)
    } else {
        (
            row[p + j + 4] % 16 + (row[p + j - 4] / 64) * 16,
            row[p + j + 4] / 16 + (row[p + j] / 64) * 16,
        )
    }
}

/// The scale and the minimum of group `j` of eight, six bits each, from twelve bytes.
pub fn q4k_scale_min(j: usize, q: &[u8]) -> (r: (u8, u8))
    requires
        j < 8,
        q.len() >= 12,
    ensures
        (r.0 as int, r.1 as int) == scale_min(q@, 0, j as int),
{
    scale_min_at(q, 0, j)
}

/// The half at `p`.
pub open spec fn half_at(row: Seq<u8>, p: int) -> u16 {
    le(row, p, 2) as u16
}

fn get_half(row: &[u8], p: usize) -> (r: u16)
    requires
        p + 2 <= row.len(),
    ensures
        r == half_at(row@, p as int),
{
    proof {
        lemma_bases();
    }
    read_le(row, p, 2) as u16
}

/// Byte `j` of a row of a grid.
pub open spec fn grid_byte(v: int, j: int) -> u8 {
    ((v / grid_base(j)) % 256) as u8
}

/// 256 to the power of `j`, for `j` below eight.
pub open spec fn grid_base(j: int) -> int {
    if j <= 0 {
        1
    } else if j == 1 {
        0x100
    } else if j == 2 {
        0x1_0000
    } else if j == 3 {
        0x100_0000
    } else if j == 4 {
        0x1_0000_0000
    } else if j == 5 {
        0x100_0000_0000
    } else if j == 6 {
        0x1_0000_0000_0000
    } else {
        0x100_0000_0000_0000
    }
}

fn get_grid_byte(v: u64, j: usize) -> (r: u8)
    requires
        j < 8,
    ensures
        r == grid_byte(v as int, j as int),
{
    let d: u64 = if j == 0 {
        1
    } else if j == 1 {
        0x100
    } else if j == 2 {
        0x1_0000
    } else if j == 3 {
        0x100_0000
    } else if j == 4 {
        0x1_0000_0000
    } else if j == 5 {
        0x100_0000_0000
    } else if j == 6 {
        0x1_0000_0000_0000
    } else {
        0x100_0000_0000_0000
    };
    ((v / d) % 256) as u8
}

/// Seven bits of a word, the group `l` of four.
pub open spec fn seven_bits(v: int, l: int) -> int {
    if l <= 0 {
        v % 128
    } else if l == 1 {
        (v / 128) % 128
    } else if l == 2 {
        (v / 16384) % 128
    } else {
        (v / 2097152) % 128
    }
}

fn get_seven_bits(v: u64, l: usize) -> (r: usize)
    requires
        l < 4,
    ensures
        r == seven_bits(v as int, l as int),
        r < 128,
{
    let d: u64 = if l == 0 {
        1
    } else if l == 1 {
        128
    } else if l == 2 {
        16384
    } else {
        2097152
    };
    ((v / d) % 128) as usize
}

/// Whether the sign byte says that element `j` is negative.
pub open spec fn is_negative(signs: u8, kmask: Seq<u8>, j: int) -> bool {
    signs & kmask[j] != 0
}

/// Element `r` of a block of 256 of one of the grid types, the block starting at `o`.
pub open spec fn grid_term(dtype: GgmlType, row: Seq<u8>, o: int, r: int, t: IqTables) -> Term {
    let g32 = r / 32;
    let l = (r % 32) / 8;
    let j = r % 8;
    let d = half_at(row, o);
    match dtype {
        GgmlType::Iq2Xxs => {
            let aux = le(row, o + 2 + 8 * g32 + 4, 4) as int;
            Term::Grid {
                d,
                scale: GridScale::Quarter,
                s: (aux / 0x1000_0000) as u8,
                g: grid_byte(t.iq2xxs[row[o + 2 + 8 * g32 + l] as int] as int, j),
                negative: is_negative(t.ksigns[seven_bits(aux, l)], t.kmask@, j),
            }
        },
        GgmlType::Iq2Xs => {
            let code = le(row, o + 2 + 2 * (4 * g32 + l), 2) as int;
            Term::Grid {
                d,
                scale: GridScale::Quarter,
                s: nibble(row[o + 66 + g32], l >= 2) as u8,
                g: grid_byte(t.iq2xs[code % 512] as int, j),
                negative: is_negative(t.ksigns[code / 512], t.kmask@, j),
            }
        },
        GgmlType::Iq2S => {
            let index = row[o + 2 + 4 * g32 + l] + 256 * pair(row[o + 66 + g32], l);
            Term::Grid {
                d,
                scale: GridScale::Quarter,
                s: nibble(row[o + 74 + g32], l >= 2) as u8,
                g: grid_byte(t.iq2s[index] as int, j),
                negative: is_negative(row[o + 34 + 4 * g32 + l], t.kmask@, j),
            }
        },
        GgmlType::Iq3Xxs => {
            let aux = le(row, o + 66 + 4 * g32, 4) as int;
            let index = row[o + 2 + 8 * g32 + 2 * l + j / 4] as int;
            Term::Grid {
                d,
                scale: GridScale::Half,
                s: (aux / 0x1000_0000) as u8,
                g: grid_byte(t.iq3xxs[index] as int, j % 4),
                negative: is_negative(t.ksigns[seven_bits(aux, l)], t.kmask@, j),
            }
        },
        _ => {
            let index = row[o + 2 + 8 * g32 + 2 * l + j / 4] + 256 * bit(
                row[o + 66 + g32],
                2 * l + j / 4,
            );
            Term::Grid {
                d,
                scale: GridScale::Odd,
                s: nibble(row[o + 106 + g32 / 2], g32 % 2 == 1) as u8,
                g: grid_byte(t.iq3s[index] as int, j % 4),
                negative: is_negative(row[o + 74 + 4 * g32 + l], t.kmask@, j),
            }
        },
    }
}

/// Element `e` of a row.
pub open spec fn term_spec(dtype: GgmlType, row: Seq<u8>, e: int, t: IqTables) -> Term {
    block_term(
        dtype,
        row,
        e / dtype.block_len() * dtype.block_bytes(),
        e % dtype.block_len(),
        t,
    )
}

/// Element `r` of the block that starts at `o`.
pub open spec fn block_term(dtype: GgmlType, row: Seq<u8>, o: int, r: int, t: IqTables) -> Term {
    match dtype {
        GgmlType::F32 => Term::Bits(le(row, o, 4) as u32),
        GgmlType::F16 => Term::Bits(half_to_single(half_at(row, o)) as u32),
        GgmlType::Bf16 => Term::Bits((half_at(row, o) * 65536) as u32),
        GgmlType::Q8_0 => Term::Scaled { d: half_at(row, o), q: byte_signed(row[o + 2 + r]) as i32 },
        GgmlType::Q5_0 => Term::Scaled {
            d: half_at(row, o),
            q: (nibble(row[o + 6 + r % 16], r >= 16) + 16 * bit(row[o + 2 + r / 8], r % 8)
                - 16) as i32,
        },
        GgmlType::Q4K => {
            let g = r / 32;
            let (scale, min) = scale_min(row, o + 4, g);
            Term::Affine {
                d: half_at(row, o),
                m: half_at(row, o + 2),
                scale: scale as u8,
                min: min as u8,
                q: nibble(row[o + 16 + g / 2 * 32 + r % 32], g % 2 == 1) as u8,
            }
        },
        GgmlType::Q5K => {
            let g = r / 32;
            let (scale, min) = scale_min(row, o + 4, g);
            Term::Affine {
                d: half_at(row, o),
                m: half_at(row, o + 2),
                scale: scale as u8,
                min: min as u8,
                q: (nibble(row[o + 48 + g / 2 * 32 + r % 32], g % 2 == 1) + 16 * bit(
                    row[o + 16 + r % 32],
                    g,
                )) as u8,
            }
        },
        GgmlType::Q2_0 => Term::Scaled {
            d: half_at(row, o),
            q: (pair(row[o + 2 + r / 4], r % 4) - 1) as i32,
        },
        GgmlType::Iq4Nl => Term::Scaled {
            d: half_at(row, o),
            q: nonlinear(nibble(row[o + 2 + r % 16], r >= 16)) as i32,
        },
        GgmlType::Iq4Xs => {
            let g = r / 32;
            Term::Grouped {
                d: half_at(row, o),
                scale: (nibble(row[o + 4 + g / 2], g % 2 == 1) + 16 * pair(row[o + 2 + g / 4], g % 4)
                    - 32) as i32,
                q: nonlinear(nibble(row[o + 8 + 16 * g + r % 16], r % 32 >= 16)) as i32,
            }
        },
        GgmlType::Q6K => {
            let h = r / 128;
            let lane = (r % 128) / 32;
            let i = r % 32;
            Term::Grouped {
                d: half_at(row, o + 208),
                scale: byte_signed(row[o + 192 + 8 * h + i / 16 + 2 * lane]) as i32,
                q: (nibble(row[o + 64 * h + i + 32 * (lane % 2)], lane >= 2) + 16 * pair(
                    row[o + 128 + 32 * h + i],
                    lane,
                ) - 32) as i32,
            }
        },
        _ => grid_term(dtype, row, o, r, t),
    }
}

/// Why a row cannot be decoded.
#[derive(Clone, Copy, Debug, PartialEq, Eq, Structural)]
pub enum RowFault {
    /// The elements fill no whole number of blocks.
    Layout(GgufFault),
    /// The row has another length than its elements take.
    Length { bytes: usize, expected: u64 },
}

/// Whether a row of `bytes` bytes holds `elements` elements.
pub open spec fn row_check(dtype: GgmlType, bytes: int, elements: int) -> Result<(), RowFault> {
    match dtype.stored(elements) {
        Err(e) => Err(RowFault::Layout(e)),
        Ok(n) => if bytes != n {
            Err(RowFault::Length { bytes: bytes as usize, expected: n })
        } else {
            Ok(())
        },
    }
}

fn check_row(dtype: GgmlType, bytes: usize, elements: usize) -> (r: Result<(), RowFault>)
    ensures
        r == row_check(dtype, bytes as int, elements as int),
{
    match dtype.stored_bytes(elements as u64) {
        Err(e) => Err(RowFault::Layout(e)),
        Ok(n) => if bytes as u64 != n {
            Err(RowFault::Length { bytes, expected: n })
        } else {
            Ok(())
        },
    }
}

proof fn lemma_block_in_row(dtype: GgmlType, bytes: int, elements: int, e: int)
    requires
        row_check(dtype, bytes, elements) is Ok,
        0 <= e < elements,
    ensures
        0 <= e / dtype.block_len() * dtype.block_bytes(),
        e / dtype.block_len() * dtype.block_bytes() + dtype.block_bytes() <= bytes,
{
    let l = dtype.block_len();
    let k = dtype.block_bytes();
    vstd::arithmetic::div_mod::lemma_fundamental_div_mod(elements, l);
    vstd::arithmetic::div_mod::lemma_fundamental_div_mod(e, l);
    let b = e / l;
    let n = elements / l;
    assert(b < n) by (nonlinear_arith)
        requires
            e == l * b + e % l,
            elements == l * n,
            0 <= e % l,
            e < elements,
            l > 0,
    ;
    assert(0 <= b) by {
        vstd::arithmetic::div_mod::lemma_div_pos_is_pos(e, l);
    }
    assert(0 <= b * k && b * k + k <= n * k) by (nonlinear_arith)
        requires
            0 <= b < n,
            k > 0,
    ;
}

fn grid_term_at(dtype: GgmlType, row: &[u8], o: usize, r: usize, t: &IqTables) -> (v: Term)
    requires
        t.wf(),
        r < 256,
        dtype is Iq2Xxs || dtype is Iq2Xs || dtype is Iq2S || dtype is Iq3Xxs || dtype is Iq3S,
        o + dtype.block_bytes() <= row.len(),
    ensures
        v == grid_term(dtype, row@, o as int, r as int, *t),
{
    let g32: usize = r / 32;
    let l: usize = (r % 32) / 8;
    let j: usize = r % 8;
    let d: u16 = get_half(row, o);
    proof {
        lemma_bases();
    }
    match dtype {
        GgmlType::Iq2Xxs => {
            let aux: u64 = read_le(row, o + 2 + 8 * g32 + 4, 4);
            let signs: u8 = t.ksigns[get_seven_bits(aux, l)];
            let code: usize = row[o + 2 + 8 * g32 + l] as usize;
            Term::Grid {
                d,
                scale: GridScale::Quarter,
                s: (aux / 0x1000_0000) as u8,
                g: get_grid_byte(t.iq2xxs[code], j),
                negative: signs & t.kmask[j] != 0,
            }
        },
        GgmlType::Iq2Xs => {
            let code: u64 = read_le(row, o + 2 + 2 * (4 * g32 + l), 2);
            let signs: u8 = t.ksigns[(code / 512) as usize];
            Term::Grid {
                d,
                scale: GridScale::Quarter,
                s: get_nibble(row[o + 66 + g32], l >= 2),
                g: get_grid_byte(t.iq2xs[(code % 512) as usize], j),
                negative: signs & t.kmask[j] != 0,
            }
        },
        GgmlType::Iq2S => {
            let index: usize = row[o + 2 + 4 * g32 + l] as usize + 256 * get_pair(
                row[o + 66 + g32],
                l,
            ) as usize;
            let signs: u8 = row[o + 34 + 4 * g32 + l];
            Term::Grid {
                d,
                scale: GridScale::Quarter,
                s: get_nibble(row[o + 74 + g32], l >= 2),
                g: get_grid_byte(t.iq2s[index], j),
                negative: signs & t.kmask[j] != 0,
            }
        },
        GgmlType::Iq3Xxs => {
            let aux: u64 = read_le(row, o + 66 + 4 * g32, 4);
            let signs: u8 = t.ksigns[get_seven_bits(aux, l)];
            let index: usize = row[o + 2 + 8 * g32 + 2 * l + j / 4] as usize;
            Term::Grid {
                d,
                scale: GridScale::Half,
                s: (aux / 0x1000_0000) as u8,
                g: get_grid_byte(t.iq3xxs[index] as u64, j % 4),
                negative: signs & t.kmask[j] != 0,
            }
        },
        _ => {
            let index: usize = row[o + 2 + 8 * g32 + 2 * l + j / 4] as usize + 256 * get_bit(
                row[o + 66 + g32],
                2 * l + j / 4,
            ) as usize;
            let signs: u8 = row[o + 74 + 4 * g32 + l];
            Term::Grid {
                d,
                scale: GridScale::Odd,
                s: get_nibble(row[o + 106 + g32 / 2], g32 % 2 == 1),
                g: get_grid_byte(t.iq3s[index] as u64, j % 4),
                negative: signs & t.kmask[j] != 0,
            }
        },
    }
}

fn q8_0_term(row: &[u8], o: usize, r: usize, t: &IqTables) -> (v: Term)
    requires
        r < 32,
        o + 34 <= row.len(),
    ensures
        v == block_term(GgmlType::Q8_0, row@, o as int, r as int, *t),
{
    Term::Scaled { d: get_half(row, o), q: get_signed(row[o + 2 + r]) }
}

fn q5_0_term(row: &[u8], o: usize, r: usize, t: &IqTables) -> (v: Term)
    requires
        r < 32,
        o + 22 <= row.len(),
    ensures
        v == block_term(GgmlType::Q5_0, row@, o as int, r as int, *t),
{
    let low: u8 = get_nibble(row[o + 6 + r % 16], r >= 16);
    let top: u8 = get_bit(row[o + 2 + r / 8], r % 8);
    Term::Scaled { d: get_half(row, o), q: low as i32 + 16 * top as i32 - 16 }
}

fn q4k_term(row: &[u8], o: usize, r: usize, t: &IqTables) -> (v: Term)
    requires
        r < 256,
        o + 144 <= row.len(),
    ensures
        v == block_term(GgmlType::Q4K, row@, o as int, r as int, *t),
{
    let g: usize = r / 32;
    let (scale, min) = scale_min_at(row, o + 4, g);
    Term::Affine {
        d: get_half(row, o),
        m: get_half(row, o + 2),
        scale,
        min,
        q: get_nibble(row[o + 16 + g / 2 * 32 + r % 32], g % 2 == 1),
    }
}

fn q5k_term(row: &[u8], o: usize, r: usize, t: &IqTables) -> (v: Term)
    requires
        r < 256,
        o + 176 <= row.len(),
    ensures
        v == block_term(GgmlType::Q5K, row@, o as int, r as int, *t),
{
    let g: usize = r / 32;
    let (scale, min) = scale_min_at(row, o + 4, g);
    let low: u8 = get_nibble(row[o + 48 + g / 2 * 32 + r % 32], g % 2 == 1);
    let top: u8 = get_bit(row[o + 16 + r % 32], g);
    Term::Affine {
        d: get_half(row, o),
        m: get_half(row, o + 2),
        scale,
        min,
        q: low + 16 * top,
    }
}

fn q2_0_term(row: &[u8], o: usize, r: usize, t: &IqTables) -> (v: Term)
    requires
        r < 64,
        o + 18 <= row.len(),
    ensures
        v == block_term(GgmlType::Q2_0, row@, o as int, r as int, *t),
{
    Term::Scaled {
        d: get_half(row, o),
        q: get_pair(row[o + 2 + r / 4], r % 4) as i32 - 1,
    }
}

fn iq4nl_term(row: &[u8], o: usize, r: usize, t: &IqTables) -> (v: Term)
    requires
        r < 32,
        o + 18 <= row.len(),
    ensures
        v == block_term(GgmlType::Iq4Nl, row@, o as int, r as int, *t),
{
    Term::Scaled {
        d: get_half(row, o),
        q: get_nonlinear(get_nibble(row[o + 2 + r % 16], r >= 16)),
    }
}

fn iq4xs_term(row: &[u8], o: usize, r: usize, t: &IqTables) -> (v: Term)
    requires
        r < 256,
        o + 136 <= row.len(),
    ensures
        v == block_term(GgmlType::Iq4Xs, row@, o as int, r as int, *t),
{
    let g: usize = r / 32;
    let low: u8 = get_nibble(row[o + 4 + g / 2], g % 2 == 1);
    let top: u8 = get_pair(row[o + 2 + g / 4], g % 4);
    Term::Grouped {
        d: get_half(row, o),
        scale: low as i32 + 16 * top as i32 - 32,
        q: get_nonlinear(get_nibble(row[o + 8 + 16 * g + r % 16], r % 32 >= 16)),
    }
}

#[verifier::spinoff_prover]
#[verifier::rlimit(60)]
fn q6k_term(row: &[u8], o: usize, r: usize, t: &IqTables) -> (v: Term)
    requires
        r < 256,
        o + 210 <= row.len(),
    ensures
        v == block_term(GgmlType::Q6K, row@, o as int, r as int, *t),
{
    let h: usize = r / 128;
    let lane: usize = (r % 128) / 32;
    let i: usize = r % 32;
    let low: u8 = get_nibble(row[o + 64 * h + i + 32 * (lane % 2)], lane >= 2);
    let top: u8 = get_pair(row[o + 128 + 32 * h + i], lane);
    Term::Grouped {
        d: get_half(row, o + 208),
        scale: get_signed(row[o + 192 + 8 * h + i / 16 + 2 * lane]),
        q: low as i32 + 16 * top as i32 - 32,
    }
}

fn block_term_at(dtype: GgmlType, row: &[u8], o: usize, r: usize, t: &IqTables) -> (v: Term)
    requires
        t.wf(),
        r < dtype.block_len(),
        o + dtype.block_bytes() <= row.len(),
    ensures
        v == block_term(dtype, row@, o as int, r as int, *t),
{
    proof {
        lemma_bases();
    }
    match dtype {
        GgmlType::F32 => Term::Bits(read_le(row, o, 4) as u32),
        GgmlType::F16 => Term::Bits(f16_to_f32(get_half(row, o))),
        GgmlType::Bf16 => Term::Bits(get_half(row, o) as u32 * 65536),
        GgmlType::Q8_0 => q8_0_term(row, o, r, t),
        GgmlType::Q5_0 => q5_0_term(row, o, r, t),
        GgmlType::Q4K => q4k_term(row, o, r, t),
        GgmlType::Q5K => q5k_term(row, o, r, t),
        GgmlType::Q2_0 => q2_0_term(row, o, r, t),
        GgmlType::Iq4Nl => iq4nl_term(row, o, r, t),
        GgmlType::Iq4Xs => iq4xs_term(row, o, r, t),
        GgmlType::Q6K => q6k_term(row, o, r, t),
        _ => grid_term_at(dtype, row, o, r, t),
    }
}

fn term_at(dtype: GgmlType, row: &[u8], elements: usize, e: usize, t: &IqTables) -> (v: Term)
    requires
        t.wf(),
        row_check(dtype, row.len() as int, elements as int) is Ok,
        e < elements,
    ensures
        v == term_spec(dtype, row@, e as int, *t),
{
    proof {
        lemma_block_in_row(dtype, row.len() as int, elements as int, e as int);
    }
    let (block, size) = dtype.block_geometry();
    let o: usize = e / block as usize * size as usize;
    let r: usize = e % block as usize;
    block_term_at(dtype, row, o, r, t)
}

/// The elements of a row, in order.
pub fn decode_row(dtype: GgmlType, row: &[u8], elements: usize, t: &IqTables) -> (r: Result<
    Vec<Term>,
    RowFault,
>)
    requires
        t.wf(),
    ensures
        match r {
            Ok(v) => row_check(dtype, row.len() as int, elements as int) is Ok && v@ == Seq::new(
                elements as nat,
                |e: int| term_spec(dtype, row@, e, *t),
            ),
            Err(f) => row_check(dtype, row.len() as int, elements as int) == Err::<(), RowFault>(f),
        },
        match r {
            Ok(v) => decoded(dtype, row@, elements as nat, *t) == Ok::<Seq<Term>, RowFault>(v@),
            Err(f) => decoded(dtype, row@, elements as nat, *t) == Err::<Seq<Term>, RowFault>(f),
        },
{
    if let Err(f) = check_row(dtype, row.len(), elements) {
        return Err(f);
    }
    let mut v: Vec<Term> = Vec::new();
    let mut e: usize = 0;
    while e < elements
        invariant
            t.wf(),
            e <= elements,
            row_check(dtype, row.len() as int, elements as int) is Ok,
            v.len() == e,
            forall|i: int| 0 <= i < e ==> #[trigger] v[i] == term_spec(dtype, row@, i, *t),
        decreases elements - e,
    {
        v.push(term_at(dtype, row, elements, e, t));
        e += 1;
    }
    assert(v@ =~= Seq::new(elements as nat, |e: int| term_spec(dtype, row@, e, *t)));
    Ok(v)
}

/// The size of the groups of elements within which a dot product takes another order: rows are walked
/// in the order of their bytes, and a byte holds elements that are not neighbours.
pub open spec fn group_len(dtype: GgmlType) -> int {
    match dtype {
        GgmlType::Q5_0 | GgmlType::Iq4Nl | GgmlType::Iq4Xs => 32,
        GgmlType::Q5K => 64,
        GgmlType::Iq3Xxs | GgmlType::Iq3S => 8,
        GgmlType::Q6K => 128,
        _ => 1,
    }
}

/// Which element of a group is added at step `t` of the group.
pub open spec fn group_element(dtype: GgmlType, t: int) -> int {
    match dtype {
        GgmlType::Q5_0 | GgmlType::Iq4Nl | GgmlType::Iq4Xs => t / 2 + 16 * (t % 2),
        GgmlType::Q5K => t / 2 + 32 * (t % 2),
        GgmlType::Iq3Xxs | GgmlType::Iq3S => t / 2 + 4 * (t % 2),
        GgmlType::Q6K => t / 4 + 32 * (t % 4),
        _ => t,
    }
}

/// At which step of a group element `e` of the group is added.
pub open spec fn group_step(dtype: GgmlType, e: int) -> int {
    match dtype {
        GgmlType::Q5_0 | GgmlType::Iq4Nl | GgmlType::Iq4Xs => 2 * (e % 16) + e / 16,
        GgmlType::Q5K => 2 * (e % 32) + e / 32,
        GgmlType::Iq3Xxs | GgmlType::Iq3S => 2 * (e % 4) + e / 4,
        GgmlType::Q6K => 4 * (e % 32) + e / 32,
        _ => e,
    }
}

/// Which element a dot product adds at step `k`.
pub open spec fn dot_element(dtype: GgmlType, k: int) -> int {
    k - k % group_len(dtype) + group_element(dtype, k % group_len(dtype))
}

/// The step at which a dot product adds element `e`.
pub open spec fn dot_step(dtype: GgmlType, e: int) -> int {
    e - e % group_len(dtype) + group_step(dtype, e % group_len(dtype))
}

proof fn lemma_rebase(k: int, n: int, x: int)
    requires
        n > 0,
        0 <= x < n,
    ensures
        (k - k % n + x) % n == x,
        k - k % n + x - (k - k % n + x) % n == k - k % n,
{
    vstd::arithmetic::div_mod::lemma_fundamental_div_mod(k, n);
    vstd::arithmetic::mul::lemma_mul_is_commutative(n, k / n);
    vstd::arithmetic::div_mod::lemma_fundamental_div_mod_converse(k - k % n + x, n, k / n, x);
}

/// Walking `m` columns of `p` rows the other way round, and back, comes back.
proof fn lemma_turned(m: int, p: int, t: int)
    requires
        m > 0,
        p > 0,
        0 <= t < m * p,
    ensures
        0 <= t / p + m * (t % p) < m * p,
        p * ((t / p + m * (t % p)) % m) + (t / p + m * (t % p)) / m == t,
{
    let a = t / p;
    let b = t % p;
    vstd::arithmetic::div_mod::lemma_fundamental_div_mod(t, p);
    assert(0 <= a < m) by (nonlinear_arith)
        requires
            t == p * a + b,
            0 <= b < p,
            0 <= t < m * p,
            m > 0,
    ;
    assert(0 <= m * b && m * b + m <= m * p && m * b == b * m) by (nonlinear_arith)
        requires
            0 <= b < p,
            m > 0,
    ;
    vstd::arithmetic::div_mod::lemma_fundamental_div_mod_converse(a + m * b, m, b, a);
}

proof fn lemma_group(dtype: GgmlType, t: int)
    requires
        0 <= t < group_len(dtype),
    ensures
        0 <= group_element(dtype, t) < group_len(dtype),
        group_step(dtype, group_element(dtype, t)) == t,
        0 <= group_step(dtype, t) < group_len(dtype),
        group_element(dtype, group_step(dtype, t)) == t,
{
    match dtype {
        GgmlType::Q5_0 | GgmlType::Iq4Nl | GgmlType::Iq4Xs => {
            lemma_turned(16, 2, t);
            lemma_turned(2, 16, t);
        },
        GgmlType::Q5K => {
            lemma_turned(32, 2, t);
            lemma_turned(2, 32, t);
        },
        GgmlType::Iq3Xxs | GgmlType::Iq3S => {
            lemma_turned(4, 2, t);
            lemma_turned(2, 4, t);
        },
        GgmlType::Q6K => {
            lemma_turned(32, 4, t);
            lemma_turned(4, 32, t);
        },
        _ => {},
    }
}

/// What holds whole blocks holds whole groups.
proof fn lemma_coarser(elements: int, n: int, q: int)
    requires
        n > 0,
        q > 0,
        elements % (n * q) == 0,
    ensures
        elements % n == 0,
{
    let b = elements / (n * q);
    assert(n * q > 0) by (nonlinear_arith)
        requires
            n > 0,
            q > 0,
    ;
    vstd::arithmetic::div_mod::lemma_fundamental_div_mod(elements, n * q);
    vstd::arithmetic::mul::lemma_mul_is_associative(n, q, b);
    vstd::arithmetic::mul::lemma_mul_is_commutative(n, q * b);
    vstd::arithmetic::div_mod::lemma_fundamental_div_mod_converse(elements, n, q * b, 0);
}

proof fn lemma_group_room(dtype: GgmlType, elements: int, k: int)
    requires
        elements % dtype.block_len() == 0,
        0 <= k < elements,
    ensures
        0 <= k - k % group_len(dtype),
        k - k % group_len(dtype) + group_len(dtype) <= elements,
{
    let n = group_len(dtype);
    lemma_coarser(elements, n, dtype.block_len() / n);
    vstd::arithmetic::div_mod::lemma_fundamental_div_mod(k, n);
    vstd::arithmetic::div_mod::lemma_fundamental_div_mod(elements, n);
    let a = k / n;
    let b = elements / n;
    assert(n * a + n <= n * b && 0 <= n * a) by (nonlinear_arith)
        requires
            k == n * a + k % n,
            elements == n * b,
            0 <= k % n < n,
            0 <= k < elements,
            n > 0,
    ;
}

/// A dot product adds every element of a row exactly once: steps and elements correspond one to one.
pub proof fn law_dot_visits_each_once(dtype: GgmlType, elements: int, k: int)
    requires
        elements % dtype.block_len() == 0,
        0 <= k < elements,
    ensures
        0 <= dot_element(dtype, k) < elements,
        dot_step(dtype, dot_element(dtype, k)) == k,
        0 <= dot_step(dtype, k) < elements,
        dot_element(dtype, dot_step(dtype, k)) == k,
{
    let n = group_len(dtype);
    let t = k % n;
    lemma_group_room(dtype, elements, k);
    lemma_group(dtype, t);
    lemma_rebase(k, n, group_element(dtype, t));
    lemma_rebase(k, n, group_step(dtype, t));
}

fn dot_element_at(dtype: GgmlType, elements: usize, k: usize) -> (e: usize)
    requires
        k < elements,
        elements as int % dtype.block_len() == 0,
    ensures
        e == dot_element(dtype, k as int),
        e < elements,
{
    let n: usize = match dtype {
        GgmlType::Q5_0 | GgmlType::Iq4Nl | GgmlType::Iq4Xs => 32,
        GgmlType::Q5K => 64,
        GgmlType::Iq3Xxs | GgmlType::Iq3S => 8,
        GgmlType::Q6K => 128,
        _ => 1,
    };
    let t: usize = k % n;
    let within: usize = match dtype {
        GgmlType::Q5_0 | GgmlType::Iq4Nl | GgmlType::Iq4Xs => t / 2 + 16 * (t % 2),
        GgmlType::Q5K => t / 2 + 32 * (t % 2),
        GgmlType::Iq3Xxs | GgmlType::Iq3S => t / 2 + 4 * (t % 2),
        GgmlType::Q6K => t / 4 + 32 * (t % 4),
        _ => t,
    };
    proof {
        lemma_group_room(dtype, elements as int, k as int);
        lemma_group(dtype, t as int);
    }
    k - t + within
}

/// What the elements of a row are made of, in their order.
pub open spec fn decoded(dtype: GgmlType, row: Seq<u8>, elements: nat, t: IqTables) -> Result<
    Seq<Term>,
    RowFault,
> {
    match row_check(dtype, row.len() as int, elements as int) {
        Err(f) => Err(f),
        Ok(_) => Ok(Seq::new(elements, |e: int| term_spec(dtype, row, e, t))),
    }
}

/// The steps of a dot product with a row: which element is added, and what it is made of.
pub open spec fn dotted(dtype: GgmlType, row: Seq<u8>, elements: nat, t: IqTables) -> Result<
    Seq<(usize, Term)>,
    RowFault,
> {
    match row_check(dtype, row.len() as int, elements as int) {
        Err(f) => Err(f),
        Ok(_) => Ok(
            Seq::new(
                elements,
                |k: int|
                    (
                        dot_element(dtype, k) as usize,
                        term_spec(dtype, row, dot_element(dtype, k), t),
                    ),
            ),
        ),
    }
}

/// A dot product and the decoded row agree: both fail on the same rows with the same fault, and
/// where they do not, every column has one step of the dot product, and the same term in both. So a
/// vector that is zero but for one column meets exactly the term of that column.
pub proof fn law_dot_and_decode_agree(
    dtype: GgmlType,
    row: Seq<u8>,
    elements: nat,
    t: IqTables,
    column: int,
)
    requires
        elements <= usize::MAX,
    ensures
        match (decoded(dtype, row, elements, t), dotted(dtype, row, elements, t)) {
            (Ok(v), Ok(d)) => {
                &&& v.len() == elements && d.len() == elements
                &&& 0 <= column < elements ==> {
                    let k = dot_step(dtype, column);
                    &&& 0 <= k < elements
                    &&& d[k].0 == column
                    &&& d[k].1 == v[column]
                    &&& forall|j: int|
                        0 <= j < elements && (#[trigger] d[j]).0 == column ==> j == k
                }
            },
            (Err(f), Err(g)) => f == g,
            _ => false,
        },
{
    if row_check(dtype, row.len() as int, elements as int) is Ok {
        assert(elements as int % dtype.block_len() == 0);
        if 0 <= column < elements {
            law_dot_visits_each_once(dtype, elements as int, column);
            let d = dotted(dtype, row, elements, t)->Ok_0;
            let k = dot_step(dtype, column);
            assert forall|j: int| 0 <= j < elements && (#[trigger] d[j]).0 == column implies j
                == k by {
                law_dot_visits_each_once(dtype, elements as int, j);
            }
        }
    }
}

/// The steps of a dot product with a row: which element is added, and what it is made of.
pub fn dot_row(dtype: GgmlType, row: &[u8], elements: usize, t: &IqTables) -> (r: Result<
    Vec<(usize, Term)>,
    RowFault,
>)
    requires
        t.wf(),
    ensures
        match r {
            Ok(v) => row_check(dtype, row.len() as int, elements as int) is Ok && v@.len()
                == elements && forall|k: int|
                0 <= k < elements ==> (#[trigger] v@[k]).0 == dot_element(dtype, k) && v@[k].1
                    == term_spec(dtype, row@, dot_element(dtype, k), *t),
            Err(f) => row_check(dtype, row.len() as int, elements as int) == Err::<(), RowFault>(f),
        },
        match r {
            Ok(v) => dotted(dtype, row@, elements as nat, *t) == Ok::<
                Seq<(usize, Term)>,
                RowFault,
            >(v@),
            Err(f) => dotted(dtype, row@, elements as nat, *t) == Err::<
                Seq<(usize, Term)>,
                RowFault,
            >(f),
        },
{
    let r: Result<Vec<(usize, Term)>, RowFault> = dot_steps(dtype, row, elements, t);
    proof {
        if r is Ok {
            let got = r->Ok_0@;
            let want = dotted(dtype, row@, elements as nat, *t)->Ok_0;
            assert forall|k: int| 0 <= k < elements implies #[trigger] got[k] == want[k] by {
                assert(got[k].0 == dot_element(dtype, k));
            }
            assert(got =~= want);
        }
    }
    r
}

fn dot_steps(dtype: GgmlType, row: &[u8], elements: usize, t: &IqTables) -> (r: Result<
    Vec<(usize, Term)>,
    RowFault,
>)
    requires
        t.wf(),
    ensures
        match r {
            Ok(v) => row_check(dtype, row.len() as int, elements as int) is Ok && v@.len()
                == elements && forall|k: int|
                0 <= k < elements ==> (#[trigger] v@[k]).0 == dot_element(dtype, k) && v@[k].1
                    == term_spec(dtype, row@, dot_element(dtype, k), *t),
            Err(f) => row_check(dtype, row.len() as int, elements as int) == Err::<(), RowFault>(f),
        },
{
    if let Err(f) = check_row(dtype, row.len(), elements) {
        return Err(f);
    }
    let mut v: Vec<(usize, Term)> = Vec::new();
    let mut k: usize = 0;
    while k < elements
        invariant
            t.wf(),
            k <= elements,
            row_check(dtype, row.len() as int, elements as int) is Ok,
            v.len() == k,
            forall|i: int|
                0 <= i < k ==> (#[trigger] v@[i]).0 == dot_element(dtype, i) && v@[i].1
                    == term_spec(dtype, row@, dot_element(dtype, i), *t),
        decreases elements - k,
    {
        let e: usize = dot_element_at(dtype, elements, k);
        v.push((e, term_at(dtype, row, elements, e, t)));
        k += 1;
    }
    Ok(v)
}

} // verus!
