//! Weight matrices as they are held: how an element reads in each of the
//! stored forms, how a matrix is requantized in place, and which kernel a
//! product with it takes.
//!
//! What an element is worth is the sum of its parts, in their order; the
//! arithmetic on the parts is left to the caller.

use vstd::prelude::*;

use crate::bytes::{le, le_bytes, read_le};
use crate::floatbits::{f32_to_bf16, single_to_brain};
use crate::ggml::{byte_signed, decode_row, term_spec, IqTables, Term};
use crate::gguf::GgmlType;
use crate::mxfp4::{
    append_all, code_of, group_scale, groups, is_matrix, lemma_cell, lemma_unpack, matrix_fits, mxfp4_of,
    mxfp4_storage_fmt, residual_seq, scales_of, weight, mxfp4x2_of, mxfp4x3_of, packed_len, quantize_bf16_to_mxfp4, quantize_bf16_to_mxfp4x2, quantize_bf16_to_mxfp4x3, storage_fmt,
};
use crate::settings::{number_or, switch_on, Settings};
use crate::text::{chars_of, parse_small_signed, small_signed};

verus! {

/// The stored form of a matrix. `metal_tensor` is the handle of the copy that a
/// device holds, zero where there is none.
#[derive(Debug)]
pub enum WtBytes {
    /// Two bytes an element.
    Bf16 { weights: Vec<u8>, metal_tensor: u64 },
    /// Four bits an element and a scale byte for thirty-two, in one to three layers.
    Mxfp4 { weights: Vec<u8>, scales: Vec<u8>, metal_tensor: u64 },
    /// A signed byte an element and a scale of four bytes for a block of them, with
    /// or without one correction for each block.
    Q8Block {
        weights: Vec<u8>,
        scales: Vec<u8>,
        block: usize,
        residuals: usize,
        metal_tensor: u64,
    },
    /// The rows of a quantized tensor as its file has them.
    Gguf { weights: Vec<u8>, dtype: GgmlType },
}

/// What a stored form is, its device handle aside.
pub open spec fn same_payload(a: WtBytes, b: WtBytes) -> bool {
    match (a, b) {
        (WtBytes::Bf16 { weights: w, .. }, WtBytes::Bf16 { weights: v, .. }) => w@ == v@,
        (
            WtBytes::Mxfp4 { weights: w, scales: s, .. },
            WtBytes::Mxfp4 { weights: v, scales: t, .. },
        ) => w@ == v@ && s@ == t@,
        (
            WtBytes::Q8Block { weights: w, scales: s, block: b, residuals: r, .. },
            WtBytes::Q8Block { weights: v, scales: t, block: c, residuals: q, .. },
        ) => w@ == v@ && s@ == t@ && b == c && r == q,
        (WtBytes::Gguf { weights: w, dtype: d }, WtBytes::Gguf { weights: v, dtype: e }) => w@ == v@
            && d == e,
        _ => false,
    }
}

/// The device handle of a stored form.
pub open spec fn handle_of(b: WtBytes) -> u64 {
    match b {
        WtBytes::Bf16 { metal_tensor, .. } => metal_tensor,
        WtBytes::Mxfp4 { metal_tensor, .. } => metal_tensor,
        WtBytes::Q8Block { metal_tensor, .. } => metal_tensor,
        WtBytes::Gguf { .. } => 0,
    }
}

impl Clone for WtBytes {
    /// A copy of the payload. The device copy is not shared.
    fn clone(&self) -> (r: Self)
        ensures
            same_payload(*self, r),
            handle_of(r) == 0,
    {
        match self {
            WtBytes::Bf16 { weights, .. } => WtBytes::Bf16 {
                weights: weights.clone(),
                metal_tensor: 0,
            },
            WtBytes::Mxfp4 { weights, scales, .. } => WtBytes::Mxfp4 {
                weights: weights.clone(),
                scales: scales.clone(),
                metal_tensor: 0,
            },
            WtBytes::Q8Block { weights, scales, block, residuals, .. } => WtBytes::Q8Block {
                weights: weights.clone(),
                scales: scales.clone(),
                block: *block,
                residuals: *residuals,
                metal_tensor: 0,
            },
            WtBytes::Gguf { weights, dtype } => WtBytes::Gguf {
                weights: weights.clone(),
                dtype: *dtype,
            },
        }
    }
}

impl WtBytes {
    /// The device handle to give back when the matrix goes.
    pub fn take_handle(&mut self) -> (r: Option<u64>)
        ensures
            same_payload(*old(self), *final(self)),
            handle_of(*final(self)) == 0,
            r == (if handle_of(*old(self)) == 0 {
                None
            } else {
                Some(handle_of(*old(self)))
            }),
    {
        let raw: u64 = match self {
            WtBytes::Bf16 { metal_tensor, .. } => {
                let h: u64 = *metal_tensor;
                *metal_tensor = 0;
                h
            },
            WtBytes::Mxfp4 { metal_tensor, .. } => {
                let h: u64 = *metal_tensor;
                *metal_tensor = 0;
                h
            },
            WtBytes::Q8Block { metal_tensor, .. } => {
                let h: u64 = *metal_tensor;
                *metal_tensor = 0;
                h
            },
            WtBytes::Gguf { .. } => 0,
        };
        if raw == 0 {
            None
        } else {
            Some(raw)
        }
    }
}

/// A summand of an element.
#[allow(inconsistent_fields)]
#[derive(Clone, Copy, Debug, PartialEq, Eq, Structural)]
pub enum Part {
    /// The single of this pattern.
    Single(u32),
    /// The bfloat16 number of this pattern.
    Brain(u16),
    /// The magnitude of a four-bit code, by the scale of a byte.
    Code { code: u8, scale: u8 },
    /// A whole number, by the single of a pattern.
    Byte { q: i32, scale: u32 },
}

/// A row, element by element.
#[derive(Debug)]
pub enum WtRow {
    /// The parts of each element.
    Parts(Vec<Vec<Part>>),
    /// The terms of each element of a quantized tensor.
    Terms(Vec<Term>),
}

/// A matrix of `o` rows and `i` columns: either its elements as patterns of
/// singles, or a stored form.
pub struct Wt {
    pub f: Vec<u32>,
    pub bytes: Option<WtBytes>,
    pub o: usize,
    pub i: usize,
}

/// How many blocks a row of `i` elements has.
pub open spec fn blocks(i: nat, block: nat) -> nat {
    if i % block == 0 {
        i / block
    } else {
        i / block + 1
    }
}

/// Whether a stored form holds `o` rows of `i` elements.
pub open spec fn holds(b: WtBytes, o: nat, i: nat) -> bool {
    match b {
        WtBytes::Bf16 { weights, .. } => weights@.len() >= 2 * (o * i),
        WtBytes::Mxfp4 { weights, scales, .. } => weights@.len() >= o * packed_len(i)
            && scales@.len() >= o * groups(i),
        WtBytes::Q8Block { weights, scales, block, residuals, .. } => {
            &&& block > 0
            &&& weights@.len() >= o * i
            &&& residuals == 1 && block == 32 ==> weights@.len() >= o * i + 3 * (o * blocks(i, block as nat))
            &&& scales@.len() >= 4 * (o * blocks(i, block as nat))
        },
        WtBytes::Gguf { weights, dtype } => match dtype.stored(i as int) {
            Ok(n) => n <= usize::MAX && weights@.len() == o * (n as nat),
            Err(_) => false,
        },
    }
}

/// A code out of one layer of a matrix of four-bit codes.
pub open spec fn layer_code(w: Seq<u8>, s: Seq<u8>, o: nat, i: nat, layer: nat, row: int, col: int) -> Part {
    let p = w[layer * (o * packed_len(i)) + (row * packed_len(i) + col / 2)];
    Part::Code {
        code: if col % 2 == 0 {
            p % 16
        } else {
            p / 16
        },
        scale: s[layer * (o * groups(i)) + (row * groups(i) + col / 32)],
    }
}

/// How many layers of codes are stored.
pub open spec fn layers_of(w: Seq<u8>, s: Seq<u8>, o: nat, i: nat) -> nat {
    let f = storage_fmt(w.len(), s.len(), o, i);
    if f == 10 {
        3
    } else if f == 9 {
        2
    } else {
        1
    }
}

/// The parts of an element in blocks of signed bytes.
pub open spec fn block_parts(
    w: Seq<u8>,
    s: Seq<u8>,
    o: nat,
    i: nat,
    block: nat,
    residuals: nat,
    row: int,
    col: int,
) -> Seq<Part> {
    let cell = row * blocks(i, block) + col / block as int;
    let main = Part::Byte {
        q: byte_signed(w[row * i + col]) as i32,
        scale: le(s, 4 * cell, 4) as u32,
    };
    if residuals == 1 && block == 32 && w[o * i + 2 * (o * blocks(i, block)) + cell] == col % 32 {
        seq![main, Part::Brain(le(w, o * i + 2 * cell, 2) as u16)]
    } else {
        seq![main]
    }
}

/// The parts of an element in a stored form other than a file's own.
pub open spec fn parts_of(b: WtBytes, o: nat, i: nat, row: int, col: int) -> Seq<Part> {
    match b {
        WtBytes::Bf16 { weights, .. } => seq![
            Part::Brain(le(weights@, 2 * (row * i + col), 2) as u16),
        ],
        WtBytes::Mxfp4 { weights, scales, .. } => Seq::new(
            layers_of(weights@, scales@, o, i),
            |l: int| layer_code(weights@, scales@, o, i, l as nat, row, col),
        ),
        WtBytes::Q8Block { weights, scales, block, residuals, .. } => block_parts(
            weights@,
            scales@,
            o,
            i,
            block as nat,
            residuals as nat,
            row,
            col,
        ),
        WtBytes::Gguf { .. } => Seq::empty(),
    }
}

/// The bytes of a row of a quantized tensor.
pub open spec fn stored_row(weights: Seq<u8>, dtype: GgmlType, i: nat, row: int) -> Seq<u8> {
    let n = dtype.stored(i as int)->Ok_0 as int;
    weights.subrange(row * n, row * n + n)
}

impl Wt {
    /// Its elements are there, in one form or the other.
    pub open spec fn wf(self) -> bool {
        &&& self.f@.len() > 0 ==> self.f@.len() == self.o * self.i
        &&& self.f@.len() == 0 ==> match self.bytes {
            Some(b) => holds(b, self.o as nat, self.i as nat),
            None => self.o * self.i == 0,
        }
    }

    /// Whether a row reads as the matrix has it.
    pub open spec fn is_row(self, row: int, t: IqTables, r: WtRow) -> bool {
        if self.f@.len() > 0 {
            r matches WtRow::Parts(p) && p@.len() == self.i && forall|c: int|
                0 <= c < self.i ==> #[trigger] p@[c]@ == seq![Part::Single(self.f@[row * self.i + c])]
        } else {
            match self.bytes {
                None => r matches WtRow::Parts(p) && p@.len() == 0,
                Some(WtBytes::Gguf { weights, dtype }) => r matches WtRow::Terms(v) && v@ == Seq::new(
                    self.i as nat,
                    |e: int|
                        term_spec(dtype, stored_row(weights@, dtype, self.i as nat, row), e, t),
                ),
                Some(b) => r matches WtRow::Parts(p) && p@.len() == self.i && forall|c: int|
                    0 <= c < self.i ==> #[trigger] p@[c]@ == parts_of(
                        b,
                        self.o as nat,
                        self.i as nat,
                        row,
                        c,
                    ),
            }
        }
    }

    /// The stored bfloat16 bytes, where that is the form.
    pub fn bf16_bytes(&self) -> (r: Option<&Vec<u8>>)
        ensures
            match r {
                Some(v) => self.bytes matches Some(WtBytes::Bf16 { weights, .. }) && *v == weights,
                None => !(self.bytes matches Some(WtBytes::Bf16 { .. })),
            },
    {
        match &self.bytes {
            Some(WtBytes::Bf16 { weights, .. }) => Some(weights),
            _ => None,
        }
    }

    /// A row of the matrix.
    pub fn row(&self, row: usize, t: &IqTables) -> (r: WtRow)
        requires
            self.wf(),
            row < self.o,
            t.wf(),
        ensures
            self.is_row(row as int, *t, r),
    {
        let ghost (o, i) = (self.o as nat, self.i as nat);
        if self.f.len() > 0 {
            let mut out: Vec<Vec<Part>> = Vec::new();
            let mut c: usize = 0;
            while c < self.i
                invariant
                    c <= self.i,
                    row < self.o,
                    self.f@.len() == self.o * self.i,
                    out@.len() == c,
                    forall|k: int| 0 <= k < c ==> #[trigger] out@[k]@ == seq![
                        Part::Single(self.f@[row * self.i + k]),
                    ],
                decreases self.i - c,
            {
                proof {
                    lemma_cell(self.o as nat, self.i as nat, row as int, c as int);
                    assert(self.f.len() == self.f@.len());
                }
                let one: Vec<Part> = vec![Part::Single(self.f[row * self.i + c])];
                assert(one@ =~= seq![Part::Single(self.f@[row * self.i + c])]);
                out.push(one);
                c = c + 1;
            }
            return WtRow::Parts(out);
        }
        match &self.bytes {
            None => {
                proof {
                    assert(self.i == 0) by (nonlinear_arith)
                        requires
                            self.o * self.i == 0,
                            self.o > 0,
                    ;
                }
                WtRow::Parts(Vec::new())
            },
            Some(WtBytes::Gguf { weights, dtype }) => {
                let ghost n0 = dtype.stored(i as int)->Ok_0;
                match dtype.stored_bytes(self.i as u64) {
                    Ok(n) => {
                        let w: usize = n as usize;
                        proof {
                            assert(weights.len() == weights@.len());
                            assert(row * w + w <= o * w) by (nonlinear_arith)
                                requires
                                    row + 1 <= o,
                            ;
                        }
                        let raw: Vec<u8> = crate::bytes::copy_range(weights.as_slice(), row * w, w);
                        match decode_row(*dtype, raw.as_slice(), self.i, t) {
                            Ok(v) => WtRow::Terms(v),
                            Err(_) => WtRow::Terms(Vec::new()),
                        }
                    },
                    Err(_) => WtRow::Terms(Vec::new()),
                }
            },
            Some(b) => {
                let mut out: Vec<Vec<Part>> = Vec::new();
                let mut c: usize = 0;
                while c < self.i
                    invariant
                        c <= self.i,
                        row < self.o,
                        holds(*b, self.o as nat, self.i as nat),
                        !(b matches WtBytes::Gguf { .. }),
                        out@.len() == c,
                        forall|k: int| 0 <= k < c ==> #[trigger] out@[k]@ == parts_of(
                            *b,
                            self.o as nat,
                            self.i as nat,
                            row as int,
                            k,
                        ),
                    decreases self.i - c,
                {
                    let one: Vec<Part> = element(b, self.o, self.i, row, c);
                    out.push(one);
                    c = c + 1;
                }
                WtRow::Parts(out)
            },
        }
    }
}

/// The signed number of a byte.
fn signed_byte(x: u8) -> (r: i32)
    ensures
        r == byte_signed(x),
{
    if x >= 128 {
        x as i32 - 256
    } else {
        x as i32
    }
}

/// How many blocks a row has.
fn block_count(i: usize, block: usize) -> (n: usize)
    requires
        block > 0,
    ensures
        n == blocks(i as nat, block as nat),
{
    if i % block == 0 {
        i / block
    } else {
        proof {
            assert(i / block < usize::MAX) by (nonlinear_arith)
                requires
                    0 <= i <= usize::MAX,
                    block >= 1,
                    i % block != 0,
            {
                assert(block >= 2 || i % 1 == 0);
                assert(i / block <= i);
                if i / block == usize::MAX {
                    assert(block * (i / block) <= i);
                }
            }
        }
        i / block + 1
    }
}

/// A column lies in one of the blocks of its row.
proof fn lemma_block(i: nat, block: nat, col: int)
    requires
        block > 0,
        0 <= col < i,
    ensures
        0 <= col / block as int,
        col / (block as int) < blocks(i, block),
{
    let b = block as int;
    vstd::arithmetic::div_mod::lemma_fundamental_div_mod(col, b);
    vstd::arithmetic::div_mod::lemma_fundamental_div_mod(i as int, b);
    let q = col / b;
    let n = i as int / b;
    assert(0 <= q) by (nonlinear_arith)
        requires
            q == col / b,
            col >= 0,
            b > 0,
    ;
    assert(q < blocks(i, block)) by (nonlinear_arith)
        requires
            col == b * q + col % b,
            0 <= col % b < b,
            i == b * n + i as int % b,
            0 <= i as int % b < b,
            col < i,
            blocks(i, block) == (if i as int % b == 0 {
                n
            } else {
                n + 1
            }),
            b > 0,
    ;
}

/// The parts of one element of a stored form.
fn element(b: &WtBytes, o: usize, i: usize, row: usize, col: usize) -> (r: Vec<Part>)
    requires
        holds(*b, o as nat, i as nat),
        !(b matches WtBytes::Gguf { .. }),
        row < o,
        col < i,
    ensures
        r@ == parts_of(*b, o as nat, i as nat, row as int, col as int),
{
    let ghost (no, ni) = (o as nat, i as nat);
    match b {
        WtBytes::Bf16 { weights, .. } => {
            proof {
                lemma_cell(no, ni, row as int, col as int);
                assert(weights.len() == weights@.len());
                crate::bytes::lemma_bases();
            }
            let u: u16 = read_le(weights.as_slice(), 2 * (row * i + col), 2) as u16;
            let r: Vec<Part> = vec![Part::Brain(u)];
            assert(r@ =~= parts_of(*b, no, ni, row as int, col as int));
            r
        },
        WtBytes::Mxfp4 { weights, scales, .. } => {
            let fmt: i32 = mxfp4_storage_fmt(weights.as_slice(), scales.as_slice(), o, i);
            let layers: usize = if fmt == 10 {
                3
            } else if fmt == 9 {
                2
            } else {
                1
            };
            let rb: usize = i / 2 + i % 2;
            let ng: usize = i / 32 + (if i % 32 == 0 {
                0
            } else {
                1
            });
            assert(rb == packed_len(ni) && ng == groups(ni));
            let mut r: Vec<Part> = Vec::new();
            let mut l: usize = 0;
            proof {
                assert(weights.len() == weights@.len());
                assert(scales.len() == scales@.len());
            }
            while l < layers
                invariant
                    l <= layers <= 3,
                    no == o && ni == i,
                    row < o,
                    col < i,
                    rb == packed_len(ni) && ng == groups(ni),
                    weights.len() == weights@.len(),
                    scales.len() == scales@.len(),
                    weights@.len() >= layers * (o * rb),
                    scales@.len() >= layers * (o * ng),
                    r@.len() == l,
                    forall|k: int| 0 <= k < l ==> #[trigger] r@[k] == layer_code(
                        weights@,
                        scales@,
                        no,
                        ni,
                        k as nat,
                        row as int,
                        col as int,
                    ),
                decreases layers - l,
            {
                proof {
                    lemma_cell(no, rb as nat, row as int, col as int / 2);
                    lemma_cell(no, ng as nat, row as int, col as int / 32);
                    lemma_cell(layers as nat, (o * rb) as nat, l as int, row * rb + col as int / 2);
                    lemma_cell(layers as nat, (o * ng) as nat, l as int, row * ng + col as int / 32);
                    assert(o * rb <= layers * (o * rb)) by (nonlinear_arith)
                        requires
                            layers >= 1,
                            0 <= o * rb,
                    ;
                    assert(o * ng <= layers * (o * ng)) by (nonlinear_arith)
                        requires
                            layers >= 1,
                            0 <= o * ng,
                    ;
                }
                let p: u8 = weights[l * (o * rb) + (row * rb + col / 2)];
                let code: u8 = if col % 2 == 0 {
                    p % 16
                } else {
                    p / 16
                };
                let scale: u8 = scales[l * (o * ng) + (row * ng + col / 32)];
                r.push(Part::Code { code, scale });
                l = l + 1;
            }
            assert(r@ =~= parts_of(*b, no, ni, row as int, col as int));
            r
        },
        WtBytes::Q8Block { weights, scales, block, residuals, .. } => {
            let ng: usize = block_count(i, *block);
            proof {
                lemma_block(ni, *block as nat, col as int);
                lemma_cell(no, ni, row as int, col as int);
                lemma_cell(no, ng as nat, row as int, col as int / *block as int);
                assert(weights.len() == weights@.len());
                assert(scales.len() == scales@.len());
                crate::bytes::lemma_bases();
            }
            let cell: usize = row * ng + col / *block;
            let q: i32 = signed_byte(weights[row * i + col]);
            let scale: u32 = read_le(scales.as_slice(), 4 * cell, 4) as u32;
            let mut r: Vec<Part> = vec![Part::Byte { q, scale }];
            if *residuals == 1 && *block == 32 {
                let at: usize = o * i + 2 * (o * ng) + cell;
                if weights[at] as usize == col % 32 {
                    let u: u16 = read_le(weights.as_slice(), o * i + 2 * cell, 2) as u16;
                    r.push(Part::Brain(u));
                }
            }
            assert(r@ =~= parts_of(*b, no, ni, row as int, col as int));
            r
        },
        WtBytes::Gguf { .. } => Vec::new(),
    }
}

/// A byte of codes is put together again from the codes of the two columns it stands for: the code of
/// the even column and sixteen times that of the odd one behind it. The scale of a column is that of
/// the thirty-two columns it is among. `half` bytes and `ng` scales are what a row takes.
pub proof fn law_codes_of_a_row_make_up_its_bytes(
    w: Wt,
    t: IqTables,
    r: WtRow,
    row: int,
    l: int,
    j: int,
    half: int,
    ng: int,
)
    requires
        w.f@.len() == 0,
        w.bytes is Some && w.bytes->0 is Mxfp4,
        w.is_row(row, t, r),
        0 <= row < w.o,
        0 <= l < layers_of(
            (w.bytes->0)->Mxfp4_weights@,
            (w.bytes->0)->Mxfp4_scales@,
            w.o as nat,
            w.i as nat,
        ),
        0 <= 2 * j < w.i,
        2 * half - 1 <= w.i <= 2 * half,
        32 * ng - 31 <= w.i <= 32 * ng,
    ensures
        ({
            let codes = (w.bytes->0)->Mxfp4_weights@;
            let scales = (w.bytes->0)->Mxfp4_scales@;
            let byte = codes[l * (w.o * half) + (row * half + j)];
            let scale = scales[l * (w.o * ng) + (row * ng + 2 * j / 32)];
            let even = (r->Parts_0)@[2 * j]@[l];
            &&& r is Parts && (r->Parts_0)@.len() == w.i
            &&& even is Code && even->Code_scale == scale && 0 <= even->Code_code < 16
            &&& 2 * j + 1 < w.i ==> {
                let odd = (r->Parts_0)@[2 * j + 1]@[l];
                &&& odd is Code && odd->Code_scale == scale && 0 <= odd->Code_code < 16
                &&& byte == even->Code_code + 16 * odd->Code_code
            }
            &&& byte % 16 == even->Code_code
        }),
{
    let (o, i) = (w.o as nat, w.i as nat);
    let (codes, scales) = ((w.bytes->0)->Mxfp4_weights@, (w.bytes->0)->Mxfp4_scales@);
    assert(half == packed_len(i));
    assert(ng == groups(i));
    let p = (r->Parts_0)@;
    assert(p[2 * j]@ == parts_of(w.bytes->0, o, i, row, 2 * j));
    assert(p[2 * j]@[l] == layer_code(codes, scales, o, i, l as nat, row, 2 * j));
    assert((2 * j) % 2 == 0 && (2 * j) / 2 == j);
    if 2 * j + 1 < i {
        assert(p[2 * j + 1]@ == parts_of(w.bytes->0, o, i, row, 2 * j + 1));
        assert(p[2 * j + 1]@[l] == layer_code(codes, scales, o, i, l as nat, row, 2 * j + 1));
        assert((2 * j + 1) % 2 == 1 && (2 * j + 1) / 2 == j && (2 * j + 1) / 32 == 2 * j / 32);
    }
}

/// A row of brain floats is its bytes, two a column, the lower first; and a row of patterns is they.
pub proof fn law_plain_rows_are_their_bytes(w: Wt, t: IqTables, r: WtRow, row: int, col: int)
    requires
        w.is_row(row, t, r),
        0 <= row < w.o,
        0 <= col < w.i,
    ensures
        w.f@.len() > 0 ==> r is Parts && (r->Parts_0)@[col]@ == seq![
            Part::Single(w.f@[w.i * row + col]),
        ],
        w.f@.len() == 0 && w.bytes is Some && w.bytes->0 is Bf16 ==> {
            let raw = (w.bytes->0)->Bf16_weights@;
            let at = 2 * (w.i * row + col);
            &&& r is Parts && (r->Parts_0)@[col]@.len() == 1
            &&& (r->Parts_0)@[col]@[0] is Brain
            &&& (r->Parts_0)@[col]@[0]->Brain_0 == raw[at] + 256 * raw[at + 1]
        },
{
    assert(w.i * row == row * w.i) by (nonlinear_arith);
    if w.f@.len() > 0 {
        assert((r->Parts_0)@[col]@ == seq![Part::Single(w.f@[row * w.i + col])]);
    } else if w.bytes is Some && w.bytes->0 is Bf16 {
        let raw = (w.bytes->0)->Bf16_weights@;
        assert((r->Parts_0)@[col]@ == parts_of(w.bytes->0, w.o as nat, w.i as nat, row, col));
        crate::bytes::lemma_bases();
        reveal_with_fuel(le, 3);
        let at = 2 * (row * w.i + col);
        assert(le(raw, at, 2) == raw[at] + 256 * raw[at + 1]);
    }
}

/// A column of signed bytes is its byte, taken as a signed one, under the four bytes of the scale of
/// its block; where there is a correction for each block of thirty-two, it stands behind the columns,
/// and the column that it names has it on top.
pub proof fn law_blocks_of_bytes_read_signed(w: Wt, t: IqTables, r: WtRow, row: int, col: int, n: int)
    requires
        w.f@.len() == 0,
        w.bytes is Some && w.bytes->0 is Q8Block,
        (w.bytes->0)->block > 0,
        w.is_row(row, t, r),
        0 <= row < w.o,
        0 <= col < w.i,
        (n - 1) * (w.bytes->0)->block < w.i <= n * (w.bytes->0)->block,
    ensures
        ({
            let (q, s) = ((w.bytes->0)->Q8Block_weights@, (w.bytes->0)->Q8Block_scales@);
            let cell = row * n + col / ((w.bytes->0)->block as int);
            let byte = q[row * w.i + col] as int;
            let parts = (r->Parts_0)@[col]@;
            let corrected = (w.bytes->0)->residuals == 1 && (w.bytes->0)->block == 32 && q[w.o * w.i
                + 2 * (w.o * n) + cell] == col % 32;
            &&& r is Parts
            &&& parts.len() == (if corrected {
                2int
            } else {
                1int
            })
            &&& parts[0] is Byte
            &&& -128 <= parts[0]->q < 128
            &&& parts[0]->q == byte || parts[0]->q == byte - 256
            &&& parts[0]->Byte_scale == s[4 * cell] + 256 * s[4 * cell + 1] + 65536 * s[4 * cell + 2]
                + 16777216 * s[4 * cell + 3]
            &&& corrected ==> parts[1] is Brain && parts[1]->Brain_0 == q[w.o * w.i + 2 * cell] + 256
                * q[w.o * w.i + 2 * cell + 1]
        }),
{
    let (q, s) = ((w.bytes->0)->Q8Block_weights@, (w.bytes->0)->Q8Block_scales@);
    let block = (w.bytes->0)->block as int;
    let (o, i) = (w.o as nat, w.i as nat);
    vstd::arithmetic::div_mod::lemma_fundamental_div_mod(i as int, block);
    let (d, m) = (i as int / block, i as int % block);
    assert(n == (if m == 0 {
        d
    } else {
        d + 1
    })) by (nonlinear_arith)
        requires
            i == block * d + m,
            0 <= m < block,
            (n - 1) * block < i,
            i <= n * block,
    ;
    assert(n == blocks(i, block as nat));
    let cell = row * n + col / block;
    assert((r->Parts_0)@[col]@ == parts_of(w.bytes->0, o, i, row, col));
    crate::bytes::lemma_bases();
    reveal_with_fuel(le, 5);
    let at = 4 * cell;
    assert(le(s, at, 4) == s[at] + 256 * s[at + 1] + 65536 * s[at + 2] + 16777216 * s[at + 3]);
    let c = o * i + 2 * cell;
    assert(le(q, c, 2) == q[c] + 256 * q[c + 1]);
}

/// Codes and scales of a matrix in as many layers as the settings ask for.
pub open spec fn mxfp4_layers_of(w: Seq<u8>, rows: nat, cols: nat, layers: nat) -> (Seq<u8>, Seq<u8>) {
    if layers == 3 {
        mxfp4x3_of(w, rows, cols)
    } else if layers == 2 {
        mxfp4x2_of(w, rows, cols)
    } else {
        mxfp4_of(w, rows, cols)
    }
}

/// What is packed in each of the layers: the weights, what their codes leave, and what the codes of
/// that leave.
pub open spec fn packed_in(w: Seq<u8>, rows: nat, cols: nat, l: int) -> Seq<u8> {
    if l == 0 {
        w
    } else if l == 1 {
        residual_seq(w, rows, cols)
    } else {
        residual_seq(residual_seq(w, rows, cols), rows, cols)
    }
}

/// Quantizing a matrix and reading a row of it back gives, for every column and in every layer, the
/// code that was chosen for the weight of that column, under the scale of that column's group.
#[verifier::rlimit(30)]
pub proof fn law_quantized_rows_read_back(
    src: Seq<u8>,
    w: Wt,
    t: IqTables,
    r: WtRow,
    layers: nat,
    row: int,
    col: int,
    l: int,
)
    requires
        is_matrix(src, w.o as nat, w.i as nat),
        1 <= layers <= 3,
        w.f@.len() == 0,
        w.bytes is Some && w.bytes->0 is Mxfp4,
        ((w.bytes->0)->Mxfp4_weights@, (w.bytes->0)->Mxfp4_scales@) == mxfp4_layers_of(
            src,
            w.o as nat,
            w.i as nat,
            layers,
        ),
        w.is_row(row, t, r),
        0 <= row < w.o,
        0 <= col < w.i,
        0 <= l < layers,
    ensures
        ({
            let from = packed_in(src, w.o as nat, w.i as nat, l);
            let scale = group_scale(from, w.i as nat, row, col / 32);
            &&& r is Parts
            &&& (r->Parts_0)@[col]@.len() == layers
            &&& (r->Parts_0)@[col]@[l] is Code
            &&& (r->Parts_0)@[col]@[l]->Code_scale == scale
            &&& (r->Parts_0)@[col]@[l]->Code_code == code_of(
                weight(from, w.i as nat, row, col),
                scale,
            )
        }),
{
    let (o, i) = (w.o as nat, w.i as nat);
    let (codes, scales) = ((w.bytes->0)->Mxfp4_weights@, (w.bytes->0)->Mxfp4_scales@);
    let (wb, sb) = ((o * packed_len(i)) as int, (o * groups(i)) as int);
    assert(wb > 0 && sb > 0) by (nonlinear_arith)
        requires
            wb == o * packed_len(i),
            sb == o * groups(i),
            o > 0,
            packed_len(i) > 0,
            groups(i) > 0,
    ;
    let from = packed_in(src, o, i, l);
    let ss = scales_of(from, o, i);
    let one = mxfp4_of(from, o, i);
    assert(codes.len() == (if layers == 3 {
        3 * wb
    } else if layers == 2 {
        2 * wb
    } else {
        wb
    }));
    assert(scales.len() == (if layers == 3 {
        3 * sb
    } else if layers == 2 {
        2 * sb
    } else {
        sb
    }));
    assert(layers_of(codes, scales, o, i) == layers);
    let (k, g) = (row * packed_len(i) + col / 2, row * groups(i) + col / 32);
    lemma_cell(o, packed_len(i), row, col / 2);
    lemma_cell(o, groups(i), row, col / 32);
    assert(l * wb == (if l == 0 {
        0
    } else if l == 1 {
        wb
    } else {
        2 * wb
    })) by (nonlinear_arith)
        requires
            0 <= l < 3,
    ;
    assert(l * sb == (if l == 0 {
        0
    } else if l == 1 {
        sb
    } else {
        2 * sb
    })) by (nonlinear_arith)
        requires
            0 <= l < 3,
    ;
    assert(codes[l * wb + k] == one.0[k]);
    assert(scales[l * sb + g] == ss[g]);
    lemma_unpack(from, o, i, ss, row, col);
    let p = (r->Parts_0)@;
    assert(p[col]@ == parts_of(w.bytes->0, o, i, row, col));
    assert(p[col]@[l] == layer_code(codes, scales, o, i, l as nat, row, col));
}

/// How many layers of codes the settings ask for.
pub open spec fn layers_asked(s: Settings) -> nat {
    if crate::settings::switch_enabled(s.value("QWEN_GDN_RUNTIME_MXFP4_RESIDUAL3"@), false) {
        3
    } else if crate::settings::switch_enabled(s.value("QWEN_GDN_RUNTIME_MXFP4_RESIDUAL2"@), false) {
        2
    } else {
        1
    }
}

/// Whether the scales of codes are chosen by what they leave or by a mean, in place of the
/// largest weight: by a switch, or by `clip`, whether a positive limit is set.
pub fn other_scales(settings: &Settings, clip: bool) -> (r: bool)
    ensures
        r == (crate::settings::switch_enabled(
            settings.value("QWEN_GDN_RUNTIME_MXFP4_MSE"@),
            false,
        ) || clip),
{
    settings.enabled("QWEN_GDN_RUNTIME_MXFP4_MSE", false) || clip
}

/// How far below the scale of the largest weight the settings have scales looked for, where they are
/// chosen by what they leave.
pub open spec fn radius_of(s: Settings) -> Option<int> {
    if crate::settings::switch_enabled(s.value("QWEN_GDN_RUNTIME_MXFP4_MSE"@), false) {
        let asked = match s.value("QWEN_GDN_RUNTIME_MXFP4_MSE_RADIUS"@) {
            Some(v) => small_signed(v),
            None => None,
        };
        let n = match asked {
            Some(n) => n,
            None => 3,
        };
        Some(
            if n < 1 {
                1
            } else if n > 8 {
                8
            } else {
                n
            },
        )
    } else {
        None
    }
}

/// How far below the scale of the largest weight scales are looked for.
pub fn mse_radius(settings: &Settings) -> (r: Option<u8>)
    ensures
        match r {
            Some(n) => radius_of(*settings) == Some(n as int),
            None => radius_of(*settings) is None,
        },
{
    if !settings.enabled("QWEN_GDN_RUNTIME_MXFP4_MSE", false) {
        return None;
    }
    let asked: Option<i32> = match settings.get("QWEN_GDN_RUNTIME_MXFP4_MSE_RADIUS") {
        Some(v) => parse_small_signed(&chars_of(v)),
        None => None,
    };
    let n: i32 = match asked {
        Some(n) => n,
        None => 3,
    };
    Some(
        if n < 1 {
            1
        } else if n > 8 {
            8
        } else {
            n as u8
        },
    )
}

/// The scales that are tried, from the first to the last: some below that of the largest weight, and
/// one above.
pub fn candidate_scales(base: u8, radius: u8) -> (r: (u8, u8))
    ensures
        r.0 == (if base - radius < 1 {
            1
        } else {
            base - radius
        }),
        r.1 == (if base + 1 > 254 {
            254
        } else {
            base + 1
        }),
{
    let lo: u8 = if base > radius {
        base - radius
    } else {
        1
    };
    let hi: u8 = if base >= 254 {
        254
    } else {
        base + 1
    };
    (lo, hi)
}

/// What packing bfloat16 weights once gives: codes, their scales, and what they leave of the weights,
/// as bfloat16 weights again.
pub struct Packed {
    pub codes: Vec<u8>,
    pub scales: Vec<u8>,
    pub left: Vec<u8>,
}

/// One layer of codes and scales with further ones behind it.
pub open spec fn behind(q: Packed, rest: Option<(Seq<u8>, Seq<u8>)>) -> Option<
    (Seq<u8>, Seq<u8>),
> {
    match rest {
        None => None,
        Some(x) => Some((q.codes@ + x.0, q.scales@ + x.1)),
    }
}

/// Whether codes and scales, or none, can be what packing in `n` layers gives: each layer packs what
/// the one before it leaves, and stands behind it.
pub open spec fn layered<F: Fn(&Vec<u8>, usize, usize) -> Option<Packed>>(
    f: F,
    w: Vec<u8>,
    o: usize,
    i: usize,
    n: nat,
    p: Option<(Seq<u8>, Seq<u8>)>,
) -> bool
    decreases n,
{
    exists|k: Option<Packed>|
        {
            &&& #[trigger] call_ensures(f, (&w, o, i), k)
            &&& match k {
                None => p is None,
                Some(q) => if n <= 1 {
                    p == Some((q.codes@, q.scales@))
                } else if !is_matrix(q.left@, o as nat, i as nat) {
                    p is None
                } else {
                    exists|rest: Option<(Seq<u8>, Seq<u8>)>|
                        {
                            &&& p == #[trigger] behind(q, rest)
                            &&& layered(f, q.left, o, i, (n - 1) as nat, rest)
                        }
                },
            }
        }
}

fn pack_layers<F: Fn(&Vec<u8>, usize, usize) -> Option<Packed>>(
    f: &F,
    w: &Vec<u8>,
    o: usize,
    i: usize,
    n: usize,
) -> (p: Option<(Vec<u8>, Vec<u8>)>)
    requires
        forall|w: &Vec<u8>, o: usize, i: usize| call_requires(*f, (w, o, i)),
    ensures
        layered(*f, *w, o, i, n as nat, views(p)),
    decreases n,
{
    let k: Option<Packed> = f(w, o, i);
    let ghost made = k;
    assert(call_ensures(*f, (w, o, i), made));
    match k {
        None => None,
        Some(Packed { codes, scales, left }) => {
            if n <= 1 {
                return Some((codes, scales));
            }
            if !matrix_fits(left.as_slice(), o, i) {
                return None;
            }
            let rest: Option<(Vec<u8>, Vec<u8>)> = pack_layers(f, &left, o, i, n - 1);
            let ghost more_views = views(rest);
            assert(layered(*f, (made->0).left, o, i, (n - 1) as nat, more_views));
            match rest {
                None => {
                    assert(behind(made->0, more_views) is None);
                    None
                },
                Some((more, more_scales)) => {
                    let mut codes: Vec<u8> = codes;
                    let mut scales: Vec<u8> = scales;
                    append_all(&mut codes, &more);
                    append_all(&mut scales, &more_scales);
                    assert(behind(made->0, more_views) == Some((codes@, scales@)));
                    Some((codes, scales))
                },
            }
        },
    }
}

/// Codes and scales as sequences.
pub open spec fn views(p: Option<(Vec<u8>, Vec<u8>)>) -> Option<(Seq<u8>, Seq<u8>)> {
    match p {
        Some(q) => Some((q.0@, q.1@)),
        None => None,
    }
}

/// Whether codes and scales, or none, can be what packing once gives.
pub open spec fn packed_once<F: Fn(&Vec<u8>, usize, usize) -> Option<Packed>>(
    f: F,
    w: Vec<u8>,
    o: usize,
    i: usize,
    p: Option<(Vec<u8>, Vec<u8>)>,
) -> bool {
    exists|k: Option<Packed>| #[trigger]
        call_ensures(f, (&w, o, i), k) && match k {
            None => p is None,
            Some(q) => p == Some((q.codes, q.scales)),
        }
}

/// How bfloat16 weights are packed.
pub enum Rule<'a, F> {
    /// Codes with the least scales that hold the largest weights, in as many layers as the
    /// settings ask for.
    Largest(&'a Settings),
    /// Codes as a function makes them that is handed in, in as many layers as the settings ask for.
    Layers(&'a Settings, &'a F),
    /// As a function does it once that is handed in.
    Once(&'a F),
}

impl<'a, F: Fn(&Vec<u8>, usize, usize) -> Option<Packed>> Rule<'a, F> {
    /// Whether the rule can be asked for any matrix.
    pub open spec fn callable(self) -> bool {
        match self {
            Rule::Largest(_) => true,
            Rule::Layers(_, f) => forall|w: &Vec<u8>, o: usize, i: usize|
                call_requires(*f, (w, o, i)),
            Rule::Once(f) => forall|w: &Vec<u8>, o: usize, i: usize| call_requires(*f, (w, o, i)),
        }
    }

    /// Whether codes and scales, or none, can be what the rule gives for a matrix.
    pub open spec fn gives(
        self,
        w: Vec<u8>,
        o: usize,
        i: usize,
        p: Option<(Vec<u8>, Vec<u8>)>,
    ) -> bool {
        match self {
            Rule::Largest(s) => match p {
                Some(q) => is_matrix(w@, o as nat, i as nat) && (q.0@, q.1@) == mxfp4_layers_of(
                    w@,
                    o as nat,
                    i as nat,
                    layers_asked(*s),
                ),
                None => !is_matrix(w@, o as nat, i as nat),
            },
            Rule::Layers(s, f) => layered(*f, w, o, i, layers_asked(*s), views(p)),
            Rule::Once(f) => packed_once(*f, w, o, i, p),
        }
    }

    /// Codes and scales of a matrix, or nothing where there are none.
    pub fn pack(&self, w: &Vec<u8>, o: usize, i: usize) -> (p: Option<(Vec<u8>, Vec<u8>)>)
        requires
            self.callable(),
        ensures
            self.gives(*w, o, i, p),
    {
        match self {
            Rule::Largest(settings) => {
                match count_layers(settings) {
                    3 => quantize_bf16_to_mxfp4x3(w.as_slice(), o, i),
                    2 => quantize_bf16_to_mxfp4x2(w.as_slice(), o, i),
                    _ => quantize_bf16_to_mxfp4(w.as_slice(), o, i),
                }
            },
            Rule::Layers(settings, f) => {
                let n: usize = count_layers(settings);
                pack_layers(*f, w, o, i, n)
            },
            Rule::Once(f) => {
                let k: Option<Packed> = f(w, o, i);
                let ghost made = k;
                assert(call_ensures(**f, (&*w, o, i), made));
                match k {
                    None => None,
                    Some(q) => Some((q.codes, q.scales)),
                }
            },
        }
    }
}

/// How many layers of codes the settings ask for.
pub fn count_layers(settings: &Settings) -> (n: usize)
    ensures
        n == layers_asked(*settings),
{
    if settings.enabled("QWEN_GDN_RUNTIME_MXFP4_RESIDUAL3", false) {
        3
    } else if settings.enabled("QWEN_GDN_RUNTIME_MXFP4_RESIDUAL2", false) {
        2
    } else {
        1
    }
}

/// Turns bfloat16 weights into four-bit codes by a rule. Codes stay what they are; any
/// other form is refused and left alone.
pub fn quantize_wt_bf16_to_mxfp4<F: Fn(&Vec<u8>, usize, usize) -> Option<Packed>>(
    w: &mut Wt,
    rule: &Rule<F>,
) -> (r: bool)
    requires
        rule.callable(),
    ensures
        final(w).o == old(w).o && final(w).i == old(w).i && final(w).f == old(w).f,
        match old(w).bytes {
            Some(WtBytes::Bf16 { weights, .. }) => if r {
                exists|p: (Vec<u8>, Vec<u8>)| #[trigger]
                    rule.gives(weights, old(w).o, old(w).i, Some(p)) && final(w).bytes == Some(
                        WtBytes::Mxfp4 { weights: p.0, scales: p.1, metal_tensor: 0 },
                    )
            } else {
                rule.gives(weights, old(w).o, old(w).i, None) && *final(w) == *old(w)
            },
            Some(WtBytes::Mxfp4 { .. }) => r && *final(w) == *old(w),
            _ => !r && *final(w) == *old(w),
        },
{
    let packed: Option<(Vec<u8>, Vec<u8>)> = match &w.bytes {
        Some(WtBytes::Bf16 { weights, .. }) => rule.pack(weights, w.o, w.i),
        Some(WtBytes::Mxfp4 { .. }) => {
            return true;
        },
        _ => {
            return false;
        },
    };
    match packed {
        Some((weights, scales)) => {
            let ghost p = (weights, scales);
            assert(rule.gives(old(w).bytes->0->Bf16_weights, old(w).o, old(w).i, Some(p)));
            w.bytes = Some(WtBytes::Mxfp4 { weights, scales, metal_tensor: 0 });
            true
        },
        None => false,
    }
}

/// The magnitude bits of a pattern; those of no number count as nothing.
pub open spec fn size_of(bits: u32) -> int {
    if bits % 0x8000_0000 > 0x7f80_0000 {
        -1
    } else {
        (bits % 0x8000_0000) as int
    }
}

/// Which of the first `n` columns of a group leaves the most, the first of them
/// where several do; the column and what it leaves, or column zero and nothing.
pub open spec fn most_left(left: Seq<u32>, from: int, n: nat) -> (int, u32)
    decreases n,
{
    if n == 0 {
        (0, 0)
    } else {
        let best = most_left(left, from, (n - 1) as nat);
        if size_of(left[from + n - 1]) > size_of(best.1) {
            (n - 1, left[from + n - 1])
        } else {
            best
        }
    }
}

/// The number of columns of a group of thirty-two.
pub open spec fn group_cols(cols: nat, group: int) -> nat {
    if 32 * group + 32 <= cols {
        32
    } else {
        (cols - 32 * group) as nat
    }
}

/// The correction of the `k`th group of a matrix: a column and what it leaves.
pub open spec fn correction(left: Seq<u32>, cols: nat, k: int) -> (int, u32) {
    let (row, group) = (k / groups(cols) as int, k % groups(cols) as int);
    most_left(left, row * cols + 32 * group, group_cols(cols, group))
}

/// The corrections of the first `n` groups, two bytes each.
pub open spec fn correction_values(left: Seq<u32>, cols: nat, n: nat) -> Seq<u8>
    decreases n,
{
    if n == 0 {
        Seq::empty()
    } else {
        correction_values(left, cols, (n - 1) as nat) + le_bytes(
            single_to_brain(correction(left, cols, n - 1).1),
            2,
        )
    }
}

/// Finds what the columns of a group leave the most of.
fn find_most(left: &Vec<u32>, from: usize, n: usize) -> (r: (u8, u32))
    requires
        from + n <= left@.len(),
        n <= 32,
    ensures
        r.0 == most_left(left@, from as int, n as nat).0,
        r.1 == most_left(left@, from as int, n as nat).1,
        r.0 < 32,
        size_of(r.1) >= 0,
{
    let mut at: u8 = 0;
    let mut best: u32 = 0;
    let mut c: usize = 0;
    assert(left.len() == left@.len());
    while c < n
        invariant
            left.len() == left@.len(),
            from + n <= left@.len(),
            c <= n <= 32,
            at < 32,
            (at as int, best) == most_left(left@, from as int, c as nat),
            size_of(best) >= 0,
        decreases n - c,
    {
        let v: u32 = left[from + c];
        let m: u32 = v % 0x8000_0000;
        if m <= 0x7f80_0000 && m > best % 0x8000_0000 {
            at = c as u8;
            best = v;
        }
        c = c + 1;
    }
    (at, best)
}

/// Appends to the bytes of a matrix of signed bytes one correction for every
/// group of thirty-two: first what the worst column of each group leaves, as
/// bfloat16, then which column that is. `left` holds, element by element, the
/// pattern of what the byte leaves of the weight. Nothing comes of lengths that
/// do not fit together.
pub fn q8_append_residual1(left: &Vec<u32>, q: Vec<u8>, scales: usize, rows: usize, cols: usize) -> (r:
    Option<Vec<u8>>)
    ensures
        r is Some <==> left@.len() == rows * cols && q@.len() == rows * cols && scales >= 4 * (rows
            * groups(cols as nat)),
        r matches Some(v) ==> {
            let n = rows as nat * groups(cols as nat);
            v@ == q@ + correction_values(left@, cols as nat, n) + Seq::new(
                n,
                |k: int| correction(left@, cols as nat, k).0 as u8,
            )
        },
{
    let ng: usize = cols / 32 + (if cols % 32 == 0 {
        0
    } else {
        1
    });
    let ghost (nr, nc) = (rows as nat, cols as nat);
    assert(ng == groups(nc));
    assert(left.len() == left@.len() && q.len() == q@.len());
    match rows.checked_mul(cols) {
        None => {
            return None;
        },
        Some(cells) => if left.len() != cells || q.len() != cells {
            return None;
        },
    }
    proof {
        assert(rows * ng <= rows * cols) by (nonlinear_arith)
            requires
                0 <= ng <= cols,
                0 <= rows,
        ;
    }
    let total: usize = rows * ng;
    if scales / 4 < total {
        return None;
    }
    let ghost base = q@;
    let mut out: Vec<u8> = q;
    let mut indices: Vec<u8> = Vec::new();
    let mut row: usize = 0;
    while row < rows
        invariant
            nr == rows && nc == cols,
            ng == groups(nc),
            row <= rows,
            left.len() == left@.len(),
            left@.len() == rows * cols,
            indices@.len() == row * ng,
            forall|k: int| 0 <= k < indices@.len() ==> #[trigger] indices@[k] == correction(
                left@,
                nc,
                k,
            ).0 as u8,
            out@ == base + correction_values(left@, nc, indices@.len()),
        decreases rows - row,
    {
        let mut g: usize = 0;
        while g < ng
            invariant
                nr == rows && nc == cols,
                ng == groups(nc),
                row < rows,
                g <= ng,
                left.len() == left@.len(),
                left@.len() == rows * cols,
                indices@.len() == row * ng + g,
                forall|k: int| 0 <= k < indices@.len() ==> #[trigger] indices@[k] == correction(
                    left@,
                    nc,
                    k,
                ).0 as u8,
                out@ == base + correction_values(left@, nc, indices@.len()),
            decreases ng - g,
        {
            let from: usize = 32 * g;
            let n: usize = if cols - from >= 32 {
                32
            } else {
                cols - from
            };
            proof {
                lemma_cell(nr, nc, row as int, from as int);
                lemma_cell(nr, ng as nat, row as int, g as int);
                assert(n == group_cols(nc, g as int));
            }
            let (at, value) = find_most(left, row * cols + from, n);
            proof {
                assert(value < 0xffff_8000);
            }
            let v: u16 = f32_to_bf16(value);
            let ghost done = out@;
            let ghost k = indices@.len();
            crate::bytes::push_le(&mut out, v as u64, 2);
            indices.push(at);
            proof {
                assert(correction(left@, nc, k as int) == (at as int, value));
                assert(out@ =~= base + correction_values(left@, nc, k + 1));
            }
            g = g + 1;
        }
        assert(row * ng + ng == (row + 1) * ng) by (nonlinear_arith);
        row = row + 1;
    }
    let ghost values = out@;
    let mut k: usize = 0;
    while k < indices.len()
        invariant
            k <= indices.len(),
            out@ == values + indices@.take(k as int),
        decreases indices.len() - k,
    {
        out.push(indices[k]);
        k = k + 1;
        assert(out@ =~= values + indices@.take(k as int));
    }
    proof {
        assert(indices@.take(indices@.len() as int) =~= Seq::new(
            (rows * ng) as nat,
            |k: int| correction(left@, nc, k).0 as u8,
        ));
    }
    Some(out)
}

/// Puts blocks of signed bytes in the place of bfloat16 weights. `packed` is
/// what quantizing the weights gave, if it gave anything. Blocks of the same
/// kind stay what they are; any other form is refused and left alone.
pub fn quantize_wt_bf16_to_q8_block(
    w: &mut Wt,
    block: usize,
    residuals: usize,
    packed: Option<(Vec<u8>, Vec<u8>)>,
) -> (r: bool)
    ensures
        final(w).o == old(w).o && final(w).i == old(w).i && final(w).f == old(w).f,
        match old(w).bytes {
            Some(WtBytes::Bf16 { .. }) => {
                &&& r == (packed is Some && (residuals == 1 ==> block == 32))
                &&& !r ==> *final(w) == *old(w)
                &&& r ==> final(w).bytes == Some(
                    WtBytes::Q8Block {
                        weights: (packed->0).0,
                        scales: (packed->0).1,
                        block,
                        residuals,
                        metal_tensor: 0,
                    },
                )
            },
            Some(WtBytes::Q8Block { block: b, residuals: q, .. }) => r == (b == block && q == residuals)
                && *final(w) == *old(w),
            _ => !r && *final(w) == *old(w),
        },
{
    match &w.bytes {
        Some(WtBytes::Bf16 { .. }) => {},
        Some(WtBytes::Q8Block { block: b, residuals: q, .. }) => {
            return *b == block && *q == residuals;
        },
        _ => {
            return false;
        },
    }
    if residuals == 1 && block != 32 {
        return false;
    }
    match packed {
        None => false,
        Some((weights, scales)) => {
            w.bytes = Some(
                WtBytes::Q8Block { weights, scales, block, residuals, metal_tensor: 0 },
            );
            true
        },
    }
}

/// The format under which a device kernel takes a stored form, if it has one.
pub open spec fn metal_fmt(b: WtBytes, o: nat, i: nat) -> Option<i32> {
    match b {
        WtBytes::Bf16 { .. } => Some(5),
        WtBytes::Mxfp4 { weights, scales, .. } => Some(
            storage_fmt(weights@.len(), scales@.len(), o, i) as i32,
        ),
        WtBytes::Q8Block { block, residuals, .. } => if block == 32 && residuals == 1 {
            Some(14)
        } else if block == 32 {
            Some(11)
        } else if block == 16 {
            Some(12)
        } else if block == 8 {
            Some(13)
        } else {
            None
        },
        WtBytes::Gguf { .. } => None,
    }
}

/// The format under which a device kernel takes a matrix.
pub fn device_format(b: &WtBytes, o: usize, i: usize) -> (r: Option<i32>)
    ensures
        r == metal_fmt(*b, o as nat, i as nat),
{
    match b {
        WtBytes::Bf16 { .. } => Some(5),
        WtBytes::Mxfp4 { weights, scales, .. } => Some(
            mxfp4_storage_fmt(weights.as_slice(), scales.as_slice(), o, i),
        ),
        WtBytes::Q8Block { block, residuals, .. } => if *block == 32 && *residuals == 1 {
            Some(14)
        } else if *block == 32 {
            Some(11)
        } else if *block == 16 {
            Some(12)
        } else if *block == 8 {
            Some(13)
        } else {
            None
        },
        WtBytes::Gguf { .. } => None,
    }
}

/// How a product with a matrix is made: the device format to try first, and how
/// many rows each worker takes where the host makes it with several.
#[derive(Clone, Copy, Debug, PartialEq, Eq, Structural)]
pub struct MatmulPlan {
    pub device: Option<i32>,
    pub rows_per_worker: Option<usize>,
}

/// The quotient rounded up.
pub open spec fn ceil(n: nat, d: nat) -> nat {
    if n % d == 0 {
        n / d
    } else {
        n / d + 1
    }
}

/// How many rows a worker takes of a matrix with as many cells as `least` or
/// more; smaller ones are not shared out.
pub open spec fn shared_out(o: nat, i: nat, least: nat, workers: nat) -> Option<usize> {
    if o * i >= least && workers > 1 {
        Some(ceil(o, workers) as usize)
    } else {
        None
    }
}

/// How a product is made with a matrix under the settings, by as many workers.
pub open spec fn plan_of(w: Wt, settings: Settings, workers: nat) -> MatmulPlan {
    let (o, i) = (w.o as nat, w.i as nat);
    match w.bytes {
        None => MatmulPlan { device: None, rows_per_worker: shared_out(o, i, 16_000_000, workers) },
        Some(WtBytes::Bf16 { .. }) => MatmulPlan {
            device: if switch_on(settings.value("QWEN_METAL_BF16"@), true) && o >= 65_536 {
                Some(5)
            } else {
                None
            },
            rows_per_worker: shared_out(o, i, 16_000_000, workers),
        },
        Some(WtBytes::Gguf { .. }) => MatmulPlan {
            device: None,
            rows_per_worker: shared_out(o, i, 1_000_000, workers),
        },
        Some(b) => MatmulPlan { device: metal_fmt(b, o, i), rows_per_worker: None },
    }
}

/// Shares the rows of a matrix out.
fn share(o: usize, i: usize, least: usize, workers: usize) -> (r: Option<usize>)
    requires
        o * i <= usize::MAX,
    ensures
        r == shared_out(o as nat, i as nat, least as nat, workers as nat),
{
    if o * i >= least && workers > 1 {
        Some(block_count(o, workers))
    } else {
        None
    }
}

/// How a product is made with a matrix.
pub fn matmul_plan(w: &Wt, settings: &Settings, workers: usize) -> (r: MatmulPlan)
    requires
        w.o * w.i <= usize::MAX,
    ensures
        r == plan_of(*w, *settings, workers as nat),
{
    match &w.bytes {
        None => MatmulPlan { device: None, rows_per_worker: share(w.o, w.i, 16_000_000, workers) },
        Some(WtBytes::Bf16 { .. }) => {
            let device: Option<i32> = if settings.on("QWEN_METAL_BF16", true) && w.o >= 65_536 {
                Some(5)
            } else {
                None
            };
            MatmulPlan { device, rows_per_worker: share(w.o, w.i, 16_000_000, workers) }
        },
        Some(WtBytes::Gguf { .. }) => MatmulPlan {
            device: None,
            rows_per_worker: share(w.o, w.i, 1_000_000, workers),
        },
        Some(b) => MatmulPlan { device: device_format(b, w.o, w.i), rows_per_worker: None },
    }
}

/// Every row of a shared matrix falls to one worker of those there are: the one
/// whose number is the row by the rows that each takes.
pub proof fn law_every_row_has_a_worker(o: nat, workers: nat, row: int)
    requires
        workers > 1,
        0 <= row < o,
    ensures
        ceil(o, workers) > 0,
        0 <= row / (ceil(o, workers) as int) < workers,
{
    let (w, n) = (workers as int, o as int);
    let c = ceil(o, workers) as int;
    let q = n / w;
    vstd::arithmetic::div_mod::lemma_fundamental_div_mod(n, w);
    assert(c * w >= n) by (nonlinear_arith)
        requires
            n == w * q + n % w,
            0 <= n % w < w,
            c == (if n % w == 0 {
                q
            } else {
                q + 1
            }),
    ;
    assert(c > 0) by (nonlinear_arith)
        requires
            c * w >= n,
            n > 0,
            w > 0,
    ;
    vstd::arithmetic::div_mod::lemma_fundamental_div_mod(row, c);
    let k = row / c;
    assert(0 <= k < w) by (nonlinear_arith)
        requires
            row == c * k + row % c,
            0 <= row % c < c,
            0 <= row < n,
            n <= c * w,
            c > 0,
    ;
}

/// How the host makes a product with bfloat16 weights.
#[derive(Clone, Copy, Debug, PartialEq, Eq, Structural)]
pub struct Bf16Plan {
    /// Whether the vendor's routine is tried first.
    pub bnns: bool,
    /// Whether the vector loop is taken.
    pub neon: bool,
    pub rows_per_worker: Option<usize>,
}

/// The smaller of two numbers.
pub open spec fn lesser(a: int, b: int) -> int {
    if a <= b {
        a
    } else {
        b
    }
}

/// How many workers the vector loop takes: as many as are asked for, but no more
/// than there are or there are rows.
pub open spec fn vector_workers(asked: Option<Seq<char>>, workers: usize, o: int) -> int {
    let n = number_or(asked, 0);
    let want = if n > 0 {
        n
    } else {
        workers
    };
    lesser(lesser(want as int, workers as int), if o > 1 {
        o
    } else {
        1
    })
}

/// How the host makes a product with bfloat16 weights. Only some machines have
/// the vector loop, and small products do without.
pub fn bf16_plan(o: usize, i: usize, settings: &Settings, workers: usize, vectors: bool) -> (r: Bf16Plan)
    requires
        o * i <= usize::MAX,
        workers >= 1,
    ensures
        r.bnns == switch_on(settings.value("QWEN_BNNS_BF16"@), false),
        r.neon == (vectors && switch_on(settings.value("QWEN_NEON_BF16"@), true) && o * i >= 262_144),
        r.rows_per_worker == (if o * i >= 16_000_000 && workers > 1 {
            Some(
                ceil(
                    o as nat,
                    (if r.neon {
                        vector_workers(settings.value("QWEN_BF16_THREADS"@), workers, o as int)
                    } else {
                        workers as int
                    }) as nat,
                ) as usize,
            )
        } else {
            None
        }),
{
    let bnns: bool = settings.on("QWEN_BNNS_BF16", false);
    let neon: bool = vectors && settings.on("QWEN_NEON_BF16", true) && o * i >= 262_144;
    let rows_per_worker: Option<usize> = if o * i >= 16_000_000 && workers > 1 {
        if neon {
            let asked: usize = settings.number("QWEN_BF16_THREADS", 0);
            let want: usize = if asked > 0 {
                asked
            } else {
                workers
            };
            let most: usize = if want <= workers {
                want
            } else {
                workers
            };
            let rows: usize = if o > 1 {
                o
            } else {
                1
            };
            Some(
                block_count(
                    o,
                    if most <= rows {
                        most
                    } else {
                        rows
                    },
                ),
            )
        } else {
            Some(block_count(o, workers))
        }
    } else {
        None
    };
    Bf16Plan { bnns, neon, rows_per_worker }
}

/// The formats of several matrices for one device call: only where there are any
/// and all are four-bit codes.
pub fn multi_formats(ws: &Vec<&Wt>) -> (r: Option<Vec<i32>>)
    ensures
        r is Some <==> ws@.len() > 0 && forall|k: int|
            0 <= k < ws@.len() ==> #[trigger] ws@[k].bytes matches Some(WtBytes::Mxfp4 { .. }),
        r matches Some(v) ==> v@.len() == ws@.len() && forall|k: int|
            0 <= k < ws@.len() ==> Some(#[trigger] v@[k]) == metal_fmt(
                ws@[k].bytes->0,
                ws@[k].o as nat,
                ws@[k].i as nat,
            ),
{
    if ws.len() == 0 {
        return None;
    }
    let mut v: Vec<i32> = Vec::new();
    let mut k: usize = 0;
    while k < ws.len()
        invariant
            k <= ws.len(),
            v@.len() == k,
            forall|j: int| 0 <= j < k ==> #[trigger] ws@[j].bytes matches Some(
                WtBytes::Mxfp4 { .. },
            ),
            forall|j: int| 0 <= j < k ==> Some(#[trigger] v@[j]) == metal_fmt(
                ws@[j].bytes->0,
                ws@[j].o as nat,
                ws@[j].i as nat,
            ),
        decreases ws.len() - k,
    {
        let w: &Wt = ws[k];
        match &w.bytes {
            Some(WtBytes::Mxfp4 { weights, scales, .. }) => {
                v.push(mxfp4_storage_fmt(weights.as_slice(), scales.as_slice(), w.o, w.i));
            },
            _ => {
                assert(!(ws@[k as int].bytes matches Some(WtBytes::Mxfp4 { .. })));
                return None;
            },
        }
        k = k + 1;
    }
    Some(v)
}

/// The formats of the matrices of a layer whose whole step a device makes: none
/// of them may be in a form that the device has no kernel for.
pub fn full_formats(ws: &Vec<&Wt>) -> (r: Option<Vec<i32>>)
    ensures
        r is Some <==> forall|k: int|
            0 <= k < ws@.len() ==> (#[trigger] ws@[k].bytes matches Some(b) && metal_fmt(
                b,
                ws@[k].o as nat,
                ws@[k].i as nat,
            ) is Some),
        r matches Some(v) ==> v@.len() == ws@.len() && forall|k: int|
            0 <= k < ws@.len() ==> Some(#[trigger] v@[k]) == metal_fmt(
                ws@[k].bytes->0,
                ws@[k].o as nat,
                ws@[k].i as nat,
            ),
{
    let mut v: Vec<i32> = Vec::new();
    let mut k: usize = 0;
    while k < ws.len()
        invariant
            k <= ws.len(),
            v@.len() == k,
            forall|j: int| 0 <= j < k ==> (#[trigger] ws@[j].bytes matches Some(b) && metal_fmt(
                b,
                ws@[j].o as nat,
                ws@[j].i as nat,
            ) is Some),
            forall|j: int| 0 <= j < k ==> Some(#[trigger] v@[j]) == metal_fmt(
                ws@[j].bytes->0,
                ws@[j].o as nat,
                ws@[j].i as nat,
            ),
        decreases ws.len() - k,
    {
        let w: &Wt = ws[k];
        let fmt: Option<i32> = match &w.bytes {
            Some(b) => device_format(b, w.o, w.i),
            None => None,
        };
        match fmt {
            Some(f) => {
                v.push(f);
            },
            None => {
                assert(!(ws@[k as int].bytes matches Some(b) && metal_fmt(
                    b,
                    ws@[k as int].o as nat,
                    ws@[k as int].i as nat,
                ) is Some));
                return None;
            },
        }
        k = k + 1;
    }
    Some(v)
}

/// The groups of a row are of thirty-two columns each, but for what is left at its end.
pub proof fn law_groups_cover_the_columns(cols: nat, group: int)
    requires
        0 <= group,
        32 * group < cols,
    ensures
        1 <= group_cols(cols, group) <= 32,
        32 * group + group_cols(cols, group) <= cols,
        32 * group + 32 <= cols ==> group_cols(cols, group) == 32,
        32 * group + 32 > cols ==> 32 * group + group_cols(cols, group) == cols,
{
}

/// How far scales are searched: not at all unless that is switched on, three steps unless said otherwise,
/// and from one to eight.
pub proof fn law_how_far_scales_are_searched(s: Settings, n: nat)
    ensures
        !crate::settings::switch_enabled(s.value("QWEN_GDN_RUNTIME_MXFP4_MSE"@), false) ==> radius_of(s)
            is None,
        crate::settings::switch_enabled(s.value("QWEN_GDN_RUNTIME_MXFP4_MSE"@), false) ==> {
            &&& radius_of(s) is Some && 1 <= radius_of(s)->0 <= 8
            &&& s.value("QWEN_GDN_RUNTIME_MXFP4_MSE_RADIUS"@) is None ==> radius_of(s) == Some(3int)
            &&& s.value("QWEN_GDN_RUNTIME_MXFP4_MSE_RADIUS"@) == Some(crate::text::decimal(n)) && 1 <= n <= 8
                ==> radius_of(s) == Some(n as int)
            &&& s.value("QWEN_GDN_RUNTIME_MXFP4_MSE_RADIUS"@) == Some(crate::text::decimal(n)) && 8 < n
                < 1000 ==> radius_of(s) == Some(8int)
        },
{
    crate::text::law_a_signed_number_reads_back(n);
}

/// How many share a product: as many as are asked for, never more than there are or than it has rows.
pub proof fn law_how_many_share_a_product(asked: Option<Seq<char>>, workers: usize, o: int)
    requires
        workers >= 1,
    ensures
        vector_workers(asked, workers, o) <= workers,
        o >= 1 ==> 1 <= vector_workers(asked, workers, o) <= o,
        o >= workers && crate::settings::number_or(asked, 0) == 0 ==> vector_workers(asked, workers, o)
            == workers,
        o >= workers && 1 <= crate::settings::number_or(asked, 0) <= workers ==> vector_workers(
            asked,
            workers,
            o,
        ) == crate::settings::number_or(asked, 0),
{
}

/// How a matrix is known to the device: by a number for each way of storing it that it can take.
pub proof fn law_how_the_device_knows_a_matrix(b: WtBytes, o: nat, i: nat)
    ensures
        b is Bf16 ==> metal_fmt(b, o, i) == Some(5i32),
        b is Gguf ==> metal_fmt(b, o, i) is None,
        b matches WtBytes::Q8Block { block, residuals, .. } ==> {
            &&& block == 32 && residuals == 1 ==> metal_fmt(b, o, i) == Some(14i32)
            &&& block == 32 && residuals != 1 ==> metal_fmt(b, o, i) == Some(11i32)
            &&& block == 16 ==> metal_fmt(b, o, i) == Some(12i32)
            &&& block == 8 ==> metal_fmt(b, o, i) == Some(13i32)
            &&& block != 32 && block != 16 && block != 8 ==> metal_fmt(b, o, i) is None
        },
{
}

/// When a product is shared out and when the device takes it: sixteen million weights are worth sharing,
/// one million where they have to be decoded, and matrices of brain floats go to the device from 65536 rows
/// on, unless that is switched off.
pub proof fn law_when_a_product_is_shared_out(w: Wt, s: Settings, workers: nat)
    requires
        workers > 1,
    ensures
        w.bytes is None ==> {
            &&& plan_of(w, s, workers).device is None
            &&& plan_of(w, s, workers).rows_per_worker is Some <==> w.o * w.i >= 16_000_000
        },
        w.bytes matches Some(b) ==> {
            &&& b is Bf16 ==> (plan_of(w, s, workers).rows_per_worker is Some <==> w.o * w.i >= 16_000_000)
            &&& b is Bf16 ==> (plan_of(w, s, workers).device is Some <==> w.o >= 65_536 && switch_on(
                s.value("QWEN_METAL_BF16"@),
                true,
            ))
            &&& b is Gguf ==> (plan_of(w, s, workers).rows_per_worker is Some <==> w.o * w.i >= 1_000_000)
            &&& b is Gguf ==> plan_of(w, s, workers).device is None
            &&& !(b is Bf16 || b is Gguf) ==> plan_of(w, s, workers).rows_per_worker is None
        },
        plan_of(w, s, 1).rows_per_worker is None,
{
}

/// The rows of a product that is shared out are enough for all of it, and one less for each would not be.
pub proof fn law_shares_are_enough(o: nat, i: nat, least: nat, workers: nat)
    requires
        0 < o <= usize::MAX,
        workers <= usize::MAX,
    ensures
        shared_out(o, i, least, workers) matches Some(n) ==> n * workers >= o && (n - 1) * workers < o,
{
    if workers > 1 {
        let (q, r) = (o as int / workers as int, o as int % workers as int);
        vstd::arithmetic::div_mod::lemma_fundamental_div_mod(o as int, workers as int);
        assert(workers * q == q * workers) by (nonlinear_arith);
        assert((q + 1) * workers == q * workers + workers) by (nonlinear_arith);
        assert((q - 1) * workers == q * workers - workers) by (nonlinear_arith);
        assert(q <= o) by (nonlinear_arith)
            requires
                o == workers * q + r,
                r >= 0,
                workers > 1,
                q >= 0,
        ;
        assert(q + 1 <= o || r == 0) by (nonlinear_arith)
            requires
                o == workers * q + r,
                r >= 0,
                workers > 1,
                q >= 0,
        ;
    }
}

} // verus!
