//! Model files in the GGUF format: the header, the tensors that it lists, and where their bytes are.

use vstd::prelude::*;
use vstd::utf8::{decode_utf8, valid_utf8};

use vstd::arithmetic::power2::{lemma_pow2_strictly_increases, lemma_pow2_unfold, pow2};

use crate::bytes::{base, copy_range, le, lemma_bases, lemma_le_bound, lemma_le_same, read_le, signed};
use crate::text::{
    comes_before, law_order_of_texts_is_transitive, law_texts_are_ordered, precedes, same_text,
    starts_with, starts_with_spec, string_from_utf8,
};

verus! {

/// The first four bytes of a file, as a number.
pub const GGUF_MAGIC: u32 = 0x4655_4747;

/// The alignment of tensors in a file that gives none.
pub const DEFAULT_ALIGNMENT: u64 = 32;

/// The length of the longest string that is read.
pub const MAX_STRING_BYTES: u64 = 67_108_864;

/// The length of the longest array that is kept.
pub const MAX_METADATA_ARRAY: u64 = 1_048_576;

/// The highest rank of a tensor.
pub const MAX_DIMS: u32 = 8;

/// The largest count of tensors or of metadata entries.
pub const MAX_COUNT: u64 = 1_000_000;

/// The largest alignment.
pub const MAX_ALIGNMENT: u64 = 1_048_576;

/// The largest position in a file.
pub const MAX_POSITION: u64 = 0x7fff_ffff_ffff_ffff;

/// How the elements of a tensor are stored.
#[derive(Clone, Copy, Debug, PartialEq, Eq, Structural)]
pub enum GgmlType {
    F32,
    F16,
    Q5_0,
    Q8_0,
    Q4K,
    Q5K,
    Q6K,
    Iq2Xxs,
    Iq2Xs,
    Iq3Xxs,
    Iq4Nl,
    Iq3S,
    Iq2S,
    Iq4Xs,
    Bf16,
    Q2_0,
}

/// What is wrong with a file.
#[derive(Clone, Copy, Debug, PartialEq, Eq, Structural)]
pub enum GgufFault {
    /// The file ends too early.
    Eof,
    /// The file does not start with the magic number.
    NotGguf,
    /// The version is not 3.
    Version(u32),
    /// More tensors or entries than are read.
    Counts,
    /// A string is longer than is read.
    StringTooLong(u64),
    /// A string is not UTF-8.
    NotUtf8,
    /// A position that no file has.
    SkipRange,
    /// A metadata value of an unknown type.
    ValueType(u32),
    /// An array of elements of an unknown type.
    ArrayType(u32),
    /// An array of arrays.
    NestedArray,
    /// An array larger than any file.
    ArrayOverflow,
    /// A string in an array is longer than is read.
    ArrayStringTooLong(u64),
    /// An alignment that is zero, no power of two, or too large.
    Alignment(u64),
    /// A tensor of no or too many dimensions.
    Rank(u32),
    /// A tensor of an unknown type.
    TensorType(u32),
    /// A tensor with more elements than can be counted.
    ElementOverflow,
    /// A tensor whose elements do not fill blocks.
    NotDivisible(GgmlType, u64),
    /// A tensor with more bytes than can be counted.
    ByteOverflow(GgmlType),
    /// A header end that cannot be aligned.
    AlignOverflow,
    /// The data would start behind the end of the file.
    DataBeyondEnd,
    /// A tensor offset that is not aligned.
    Unaligned(u64),
    /// A tensor offset that cannot be counted.
    OffsetOverflow,
    /// A tensor end that cannot be counted.
    ExtentOverflow,
    /// A tensor that ends behind the end of the file.
    BeyondEnd,
    /// Two tensors of one name.
    Duplicate,
}

impl GgmlType {
    /// Whether the rows of the type name entries of a grid.
    pub open spec fn on_grid(self) -> bool {
        self is Iq2Xxs || self is Iq2Xs || self is Iq2S || self is Iq3Xxs || self is Iq3S
    }

    /// Whether the rows of the type name entries of a grid.
    pub fn uses_grid(&self) -> (r: bool)
        ensures
            r == self.on_grid(),
    {
        match self {
            GgmlType::Iq2Xxs | GgmlType::Iq2Xs | GgmlType::Iq2S | GgmlType::Iq3Xxs
            | GgmlType::Iq3S => true,
            _ => false,
        }
    }

    /// The type that a number stands for.
    pub open spec fn of_id(id: u32) -> Option<GgmlType> {
        if id == 0 {
            Some(GgmlType::F32)
        } else if id == 1 {
            Some(GgmlType::F16)
        } else if id == 6 {
            Some(GgmlType::Q5_0)
        } else if id == 8 {
            Some(GgmlType::Q8_0)
        } else if id == 12 {
            Some(GgmlType::Q4K)
        } else if id == 13 {
            Some(GgmlType::Q5K)
        } else if id == 14 {
            Some(GgmlType::Q6K)
        } else if id == 16 {
            Some(GgmlType::Iq2Xxs)
        } else if id == 17 {
            Some(GgmlType::Iq2Xs)
        } else if id == 18 {
            Some(GgmlType::Iq3Xxs)
        } else if id == 20 {
            Some(GgmlType::Iq4Nl)
        } else if id == 21 {
            Some(GgmlType::Iq3S)
        } else if id == 22 {
            Some(GgmlType::Iq2S)
        } else if id == 23 {
            Some(GgmlType::Iq4Xs)
        } else if id == 30 {
            Some(GgmlType::Bf16)
        } else if id == 42 {
            Some(GgmlType::Q2_0)
        } else {
            None
        }
    }

    /// Reads a type from its number.
    pub fn from_id(id: u32) -> (r: Result<GgmlType, GgufFault>)
        ensures
            r == (match GgmlType::of_id(id) {
                Some(t) => Ok(t),
                None => Err(GgufFault::TensorType(id)),
            }),
    {
        match id {
            0 => Ok(GgmlType::F32),
            1 => Ok(GgmlType::F16),
            6 => Ok(GgmlType::Q5_0),
            8 => Ok(GgmlType::Q8_0),
            12 => Ok(GgmlType::Q4K),
            13 => Ok(GgmlType::Q5K),
            14 => Ok(GgmlType::Q6K),
            16 => Ok(GgmlType::Iq2Xxs),
            17 => Ok(GgmlType::Iq2Xs),
            18 => Ok(GgmlType::Iq3Xxs),
            20 => Ok(GgmlType::Iq4Nl),
            21 => Ok(GgmlType::Iq3S),
            22 => Ok(GgmlType::Iq2S),
            23 => Ok(GgmlType::Iq4Xs),
            30 => Ok(GgmlType::Bf16),
            42 => Ok(GgmlType::Q2_0),
            other => Err(GgufFault::TensorType(other)),
        }
    }

    /// The number of a type.
    pub fn id(self) -> (id: u32)
        ensures
            GgmlType::of_id(id) == Some(self),
    {
        match self {
            GgmlType::F32 => 0,
            GgmlType::F16 => 1,
            GgmlType::Q5_0 => 6,
            GgmlType::Q8_0 => 8,
            GgmlType::Q4K => 12,
            GgmlType::Q5K => 13,
            GgmlType::Q6K => 14,
            GgmlType::Iq2Xxs => 16,
            GgmlType::Iq2Xs => 17,
            GgmlType::Iq3Xxs => 18,
            GgmlType::Iq4Nl => 20,
            GgmlType::Iq3S => 21,
            GgmlType::Iq2S => 22,
            GgmlType::Iq4Xs => 23,
            GgmlType::Bf16 => 30,
            GgmlType::Q2_0 => 42,
        }
    }

    /// The name of a type.
    pub open spec fn name_spec(self) -> Seq<char> {
        match self {
            GgmlType::F32 => "F32"@,
            GgmlType::F16 => "F16"@,
            GgmlType::Q5_0 => "Q5_0"@,
            GgmlType::Q8_0 => "Q8_0"@,
            GgmlType::Q4K => "Q4_K"@,
            GgmlType::Q5K => "Q5_K"@,
            GgmlType::Q6K => "Q6_K"@,
            GgmlType::Iq2Xxs => "IQ2_XXS"@,
            GgmlType::Iq2Xs => "IQ2_XS"@,
            GgmlType::Iq3Xxs => "IQ3_XXS"@,
            GgmlType::Iq4Nl => "IQ4_NL"@,
            GgmlType::Iq3S => "IQ3_S"@,
            GgmlType::Iq2S => "IQ2_S"@,
            GgmlType::Iq4Xs => "IQ4_XS"@,
            GgmlType::Bf16 => "BF16"@,
            GgmlType::Q2_0 => "Q2_0"@,
        }
    }

    /// The name of a type.
    pub fn name(self) -> (s: &'static str)
        ensures
            s@ == self.name_spec(),
    {
        match self {
            GgmlType::F32 => "F32",
            GgmlType::F16 => "F16",
            GgmlType::Q5_0 => "Q5_0",
            GgmlType::Q8_0 => "Q8_0",
            GgmlType::Q4K => "Q4_K",
            GgmlType::Q5K => "Q5_K",
            GgmlType::Q6K => "Q6_K",
            GgmlType::Iq2Xxs => "IQ2_XXS",
            GgmlType::Iq2Xs => "IQ2_XS",
            GgmlType::Iq3Xxs => "IQ3_XXS",
            GgmlType::Iq4Nl => "IQ4_NL",
            GgmlType::Iq3S => "IQ3_S",
            GgmlType::Iq2S => "IQ2_S",
            GgmlType::Iq4Xs => "IQ4_XS",
            GgmlType::Bf16 => "BF16",
            GgmlType::Q2_0 => "Q2_0",
        }
    }

    /// The elements of a block.
    pub open spec fn block_len(self) -> int {
        match self {
            GgmlType::F32 => 1,
            GgmlType::F16 => 1,
            GgmlType::Bf16 => 1,
            GgmlType::Q5_0 => 32,
            GgmlType::Q8_0 => 32,
            GgmlType::Iq4Nl => 32,
            GgmlType::Q2_0 => 64,
            _ => 256,
        }
    }

    /// The bytes of a block.
    pub open spec fn block_bytes(self) -> int {
        match self {
            GgmlType::F32 => 4,
            GgmlType::F16 => 2,
            GgmlType::Bf16 => 2,
            GgmlType::Q5_0 => 22,
            GgmlType::Q8_0 => 34,
            GgmlType::Q4K => 144,
            GgmlType::Q5K => 176,
            GgmlType::Q6K => 210,
            GgmlType::Iq2Xxs => 66,
            GgmlType::Iq2Xs => 74,
            GgmlType::Iq3Xxs => 98,
            GgmlType::Iq4Nl => 18,
            GgmlType::Iq3S => 110,
            GgmlType::Iq2S => 82,
            GgmlType::Iq4Xs => 136,
            GgmlType::Q2_0 => 18,
        }
    }

    /// The elements and the bytes of a block.
    pub fn block_geometry(self) -> (r: (u64, u64))
        ensures
            r.0 == self.block_len(),
            r.1 == self.block_bytes(),
    {
        match self {
            GgmlType::F32 => (1, 4),
            GgmlType::F16 | GgmlType::Bf16 => (1, 2),
            GgmlType::Q5_0 => (32, 22),
            GgmlType::Q8_0 => (32, 34),
            GgmlType::Q4K => (256, 144),
            GgmlType::Q5K => (256, 176),
            GgmlType::Q6K => (256, 210),
            GgmlType::Iq2Xxs => (256, 66),
            GgmlType::Iq2Xs => (256, 74),
            GgmlType::Iq3Xxs => (256, 98),
            GgmlType::Iq4Nl => (32, 18),
            GgmlType::Iq3S => (256, 110),
            GgmlType::Iq2S => (256, 82),
            GgmlType::Iq4Xs => (256, 136),
            GgmlType::Q2_0 => (64, 18),
        }
    }

    /// The bytes that `elements` elements take: whole blocks only.
    pub open spec fn stored(self, elements: int) -> Result<u64, GgufFault> {
        let bytes = elements / self.block_len() * self.block_bytes();
        if elements % self.block_len() != 0 {
            Err(GgufFault::NotDivisible(self, elements as u64))
        } else if bytes > u64::MAX {
            Err(GgufFault::ByteOverflow(self))
        } else {
            Ok(bytes as u64)
        }
    }

    /// The bytes that `elements` elements take.
    pub fn stored_bytes(self, elements: u64) -> (r: Result<u64, GgufFault>)
        ensures
            r == self.stored(elements as int),
    {
        let (block, bytes) = self.block_geometry();
        if elements % block != 0 {
            return Err(GgufFault::NotDivisible(self, elements));
        }
        match (elements / block).checked_mul(bytes) {
            Some(n) => Ok(n),
            None => Err(GgufFault::ByteOverflow(self)),
        }
    }
}

/// The product of a tensor's dimensions.
pub open spec fn product(dims: Seq<u64>) -> int
    decreases dims.len(),
{
    if dims.len() == 0 {
        1
    } else {
        product(dims.drop_last()) * dims.last()
    }
}

/// One tensor of a model: its name and shape, and where its bytes are.
#[derive(Clone, Debug)]
pub struct TensorInfo {
    pub name: String,
    pub dims: Vec<u64>,
    pub dtype: GgmlType,
    pub shard: usize,
    pub offset: u64,
    pub stored_bytes: u64,
}

/// A tensor as a value.
pub struct TensorView {
    pub name: Seq<char>,
    pub dims: Seq<u64>,
    pub dtype: GgmlType,
    pub shard: int,
    pub offset: u64,
    pub stored_bytes: u64,
}

impl View for TensorInfo {
    type V = TensorView;

    open spec fn view(&self) -> TensorView {
        TensorView {
            name: self.name@,
            dims: self.dims@,
            dtype: self.dtype,
            shard: self.shard as int,
            offset: self.offset,
            stored_bytes: self.stored_bytes,
        }
    }
}

/// The product of a list of dimensions, or nothing where it cannot be counted on the way.
pub open spec fn checked_product(dims: Seq<u64>) -> Option<u64>
    decreases dims.len(),
{
    if dims.len() == 0 {
        Some(1)
    } else {
        match checked_product(dims.drop_last()) {
            None => None,
            Some(p) => if p * dims.last() <= u64::MAX {
                Some((p * dims.last()) as u64)
            } else {
                None
            },
        }
    }
}

/// Where a product can be counted it is the product.
pub proof fn lemma_checked_product(dims: Seq<u64>)
    ensures
        checked_product(dims) matches Some(p) ==> p == product(dims),
    decreases dims.len(),
{
    if dims.len() > 0 {
        lemma_checked_product(dims.drop_last());
    }
}

pub(crate) fn multiply(dims: &Vec<u64>, from: usize) -> (r: Option<u64>)
    requires
        from <= dims.len(),
    ensures
        r == checked_product(dims@.skip(from as int)),
{
    let mut acc: u64 = 1;
    let mut i: usize = from;
    let ghost d = dims@.skip(from as int);
    assert(d.take(0) =~= Seq::<u64>::empty());
    while i < dims.len()
        invariant
            from <= i <= dims.len(),
            d == dims@.skip(from as int),
            checked_product(d.take(i - from)) == Some(acc),
        decreases dims.len() - i,
    {
        assert(d.take(i - from + 1).drop_last() =~= d.take(i - from));
        match acc.checked_mul(dims[i]) {
            Some(p) => {
                acc = p;
            },
            None => {
                proof {
                    lemma_overflow_stays(d, i - from + 1);
                }
                return None;
            },
        }
        i += 1;
    }
    assert(d.take(i - from) =~= d);
    Some(acc)
}

proof fn lemma_overflow_stays(d: Seq<u64>, n: int)
    requires
        0 <= n <= d.len(),
        checked_product(d.take(n)) is None,
    ensures
        checked_product(d) is None,
    decreases d.len(),
{
    if n == d.len() {
        assert(d.take(n) =~= d);
    } else {
        assert(d.drop_last().take(n) =~= d.take(n));
        lemma_overflow_stays(d.drop_last(), n);
    }
}

impl TensorInfo {
    /// The number of elements.
    pub fn elements(&self) -> (n: u64)
        requires
            checked_product(self.dims@) is Some,
        ensures
            n == product(self.dims@),
    {
        assert(self.dims@.skip(0) =~= self.dims@);
        proof {
            lemma_checked_product(self.dims@);
        }
        match multiply(&self.dims, 0) {
            Some(n) => n,
            None => 0,
        }
    }
}

/// A metadata value. Floating-point numbers are kept as their bit patterns.
#[derive(Clone, Debug)]
pub enum MetadataValue {
    U64(u64),
    I64(i64),
    F32(u32),
    F64(u64),
    Bool(bool),
    String(String),
    U64Array(Vec<u64>),
    I64Array(Vec<i64>),
    F32Array(Vec<u32>),
    F64Array(Vec<u64>),
    /// An array that is not kept, by its length.
    IgnoredArray(u64),
}

/// A metadata value, its strings and arrays as sequences.
pub enum ValueView {
    U64(u64),
    I64(i64),
    F32(u32),
    F64(u64),
    Bool(bool),
    String(Seq<char>),
    U64Array(Seq<u64>),
    I64Array(Seq<i64>),
    F32Array(Seq<u32>),
    F64Array(Seq<u64>),
    IgnoredArray(u64),
}

impl View for MetadataValue {
    type V = ValueView;

    open spec fn view(&self) -> ValueView {
        match self {
            MetadataValue::U64(v) => ValueView::U64(*v),
            MetadataValue::I64(v) => ValueView::I64(*v),
            MetadataValue::F32(v) => ValueView::F32(*v),
            MetadataValue::F64(v) => ValueView::F64(*v),
            MetadataValue::Bool(v) => ValueView::Bool(*v),
            MetadataValue::String(v) => ValueView::String(v@),
            MetadataValue::U64Array(v) => ValueView::U64Array(v@),
            MetadataValue::I64Array(v) => ValueView::I64Array(v@),
            MetadataValue::F32Array(v) => ValueView::F32Array(v@),
            MetadataValue::F64Array(v) => ValueView::F64Array(v@),
            MetadataValue::IgnoredArray(n) => ValueView::IgnoredArray(*n),
        }
    }
}

/// The bytes of one element of a metadata array of numbers.
pub open spec fn width_of(ty: u32) -> Option<u64> {
    if ty == 0 || ty == 1 || ty == 7 {
        Some(1)
    } else if ty == 2 || ty == 3 {
        Some(2)
    } else if ty == 4 || ty == 5 || ty == 6 {
        Some(4)
    } else if ty == 10 || ty == 11 || ty == 12 {
        Some(8)
    } else {
        None
    }
}

/// The bytes of one element of a metadata array of numbers.
pub fn scalar_width(ty: u32) -> (r: Option<u64>)
    ensures
        r == width_of(ty),
{
    match ty {
        0 | 1 | 7 => Some(1),
        2 | 3 => Some(2),
        4 | 5 | 6 => Some(4),
        10 | 11 | 12 => Some(8),
        _ => None,
    }
}

/// A number that was read, or where the read failed.
pub open spec fn number_at(b: Seq<u8>, p: int, w: nat) -> Result<(nat, int), GgufFault> {
    if p + w <= b.len() {
        Ok((le(b, p, w), p + w))
    } else {
        Err(GgufFault::Eof)
    }
}

/// A string that was read, and where the next thing starts.
pub open spec fn string_at(b: Seq<u8>, p: int) -> Result<(Seq<char>, int), GgufFault> {
    match number_at(b, p, 8) {
        Err(e) => Err(e),
        Ok((n, q)) => if n > MAX_STRING_BYTES {
            Err(GgufFault::StringTooLong(n as u64))
        } else if q + n > b.len() {
            Err(GgufFault::Eof)
        } else if !valid_utf8(b.subrange(q, q + n)) {
            Err(GgufFault::NotUtf8)
        } else {
            Ok((decode_utf8(b.subrange(q, q + n)), q + n))
        },
    }
}

/// The position `n` bytes on, which may lie behind the end of the file.
pub open spec fn skipped(p: int, n: int) -> Result<int, GgufFault> {
    if p + n > MAX_POSITION {
        Err(GgufFault::SkipRange)
    } else {
        Ok(p + n)
    }
}

/// The position behind `n` strings.
pub open spec fn strings_skipped(b: Seq<u8>, p: int, n: nat) -> Result<int, GgufFault>
    decreases n,
{
    if n == 0 {
        Ok(p)
    } else {
        match number_at(b, p, 8) {
            Err(e) => Err(e),
            Ok((len, q)) => if len > MAX_STRING_BYTES {
                Err(GgufFault::ArrayStringTooLong(len as u64))
            } else {
                match skipped(q, len as int) {
                    Err(e) => Err(e),
                    Ok(r) => strings_skipped(b, r, (n - 1) as nat),
                }
            },
        }
    }
}

/// The position behind an array that is not kept.
pub open spec fn array_skipped(b: Seq<u8>, p: int, ty: u32, n: nat) -> Result<int, GgufFault> {
    if ty == 8 {
        strings_skipped(b, p, n)
    } else if ty == 9 {
        Err(GgufFault::NestedArray)
    } else {
        match width_of(ty) {
            None => Err(GgufFault::ArrayType(ty)),
            Some(w) => if w * n > u64::MAX {
                Err(GgufFault::ArrayOverflow)
            } else {
                skipped(p, w * n)
            },
        }
    }
}

/// Element `i` of an array of numbers of `w` bytes.
pub open spec fn element(b: Seq<u8>, p: int, w: nat, i: int) -> nat {
    le(b, p + i * w, w)
}

/// The elements of an array, as unsigned numbers.
pub open spec fn wide_elements(b: Seq<u8>, p: int, w: nat, n: nat) -> Seq<u64> {
    Seq::new(n, |i: int| element(b, p, w, i) as u64)
}

/// The elements of an array, as unsigned numbers of four bytes.
pub open spec fn narrow_elements(b: Seq<u8>, p: int, w: nat, n: nat) -> Seq<u32> {
    Seq::new(n, |i: int| element(b, p, w, i) as u32)
}

/// The elements of an array, as signed numbers.
pub open spec fn signed_elements(b: Seq<u8>, p: int, w: nat, n: nat) -> Seq<i64> {
    Seq::new(n, |i: int| signed(element(b, p, w, i), w) as i64)
}

/// A metadata array.
pub open spec fn array_at(b: Seq<u8>, p: int, keep: bool) -> Result<(ValueView, int), GgufFault> {
    match number_at(b, p, 4) {
        Err(e) => Err(e),
        Ok((ty, q)) => match number_at(b, q, 8) {
            Err(e) => Err(e),
            Ok((n, r)) => {
                let ty = ty as u32;
                let kept = keep && n <= MAX_METADATA_ARRAY;
                let unsigned = ty == 0 || ty == 2 || ty == 4 || ty == 10;
                let with_sign = ty == 1 || ty == 3 || ty == 5 || ty == 11;
                let float = ty == 6 || ty == 12;
                if kept && (unsigned || with_sign || float) {
                    let w = width_of(ty)->0 as nat;
                    if n > 0 && r + n * w > b.len() {
                        Err(GgufFault::Eof)
                    } else if unsigned {
                        Ok(
                            (
                                ValueView::U64Array(wide_elements(b, r, w, n)),
                                r + n * w,
                            ),
                        )
                    } else if with_sign {
                        Ok(
                            (
                                ValueView::I64Array(signed_elements(b, r, w, n)),
                                r + n * w,
                            ),
                        )
                    } else if ty == 6 {
                        Ok(
                            (
                                ValueView::F32Array(narrow_elements(b, r, w, n)),
                                r + n * w,
                            ),
                        )
                    } else {
                        Ok(
                            (
                                ValueView::F64Array(wide_elements(b, r, w, n)),
                                r + n * w,
                            ),
                        )
                    }
                } else {
                    match array_skipped(b, r, ty, n) {
                        Err(e) => Err(e),
                        Ok(s) => Ok((ValueView::IgnoredArray(n as u64), s)),
                    }
                }
            },
        },
    }
}

/// A metadata value of type `ty`.
pub open spec fn value_at(b: Seq<u8>, p: int, ty: u32, keep: bool) -> Result<
    (ValueView, int),
    GgufFault,
> {
    if ty == 8 {
        match string_at(b, p) {
            Err(e) => Err(e),
            Ok((s, q)) => Ok((ValueView::String(s), q)),
        }
    } else if ty == 9 {
        array_at(b, p, keep)
    } else {
        match width_of(ty) {
            None => Err(GgufFault::ValueType(ty)),
            Some(w) => match number_at(b, p, w as nat) {
                Err(e) => Err(e),
                Ok((n, q)) => Ok(
                    (
                        if ty == 0 || ty == 2 || ty == 4 || ty == 10 {
                            ValueView::U64(n as u64)
                        } else if ty == 6 {
                            ValueView::F32(n as u32)
                        } else if ty == 7 {
                            ValueView::Bool(n != 0)
                        } else if ty == 12 {
                            ValueView::F64(n as u64)
                        } else {
                            ValueView::I64(signed(n, w as nat) as i64)
                        },
                        q,
                    ),
                ),
            },
        }
    }
}

fn read_number(b: &[u8], p: u64, w: usize) -> (r: Result<(u64, u64), GgufFault>)
    requires
        w <= 8,
        p <= MAX_POSITION,
        b.len() <= MAX_POSITION,
    ensures
        match r {
            Ok((v, q)) => number_at(b@, p as int, w as nat) == Ok::<(nat, int), GgufFault>(
                (v as nat, q as int),
            ) && q <= b.len() && q == p + w,
            Err(e) => number_at(b@, p as int, w as nat) == Err::<(nat, int), GgufFault>(e),
        },
{
    if p > b.len() as u64 || (w as u64) > b.len() as u64 - p {
        return Err(GgufFault::Eof);
    }
    Ok((read_le(b, p as usize, w), p + w as u64))
}

fn read_string(b: &[u8], p: u64) -> (r: Result<(String, u64), GgufFault>)
    requires
        p <= MAX_POSITION,
        b.len() <= MAX_POSITION,
    ensures
        match r {
            Ok((s, q)) => string_at(b@, p as int) == Ok::<(Seq<char>, int), GgufFault>(
                (s@, q as int),
            ) && q <= b.len(),
            Err(e) => string_at(b@, p as int) == Err::<(Seq<char>, int), GgufFault>(e),
        },
{
    let (n, q) = match read_number(b, p, 8) {
        Ok(x) => x,
        Err(e) => {
            return Err(e);
        },
    };
    if n > MAX_STRING_BYTES {
        return Err(GgufFault::StringTooLong(n));
    }
    if n > b.len() as u64 - q {
        return Err(GgufFault::Eof);
    }
    let raw = copy_range(b, q as usize, n as usize);
    assert(raw@ == b@.subrange(q as int, q + n));
    match string_from_utf8(raw) {
        Some(s) => Ok((s, q + n)),
        None => Err(GgufFault::NotUtf8),
    }
}

fn skip_bytes(p: u64, n: u64) -> (r: Result<u64, GgufFault>)
    requires
        p <= MAX_POSITION,
    ensures
        match r {
            Ok(q) => skipped(p as int, n as int) == Ok::<int, GgufFault>(q as int) && q
                <= MAX_POSITION,
            Err(e) => skipped(p as int, n as int) == Err::<int, GgufFault>(e),
        },
{
    if n > MAX_POSITION - p {
        return Err(GgufFault::SkipRange);
    }
    Ok(p + n)
}

fn skip_array(b: &[u8], p: u64, ty: u32, n: u64) -> (r: Result<u64, GgufFault>)
    requires
        p <= MAX_POSITION,
        b.len() <= MAX_POSITION,
    ensures
        match r {
            Ok(q) => array_skipped(b@, p as int, ty, n as nat) == Ok::<int, GgufFault>(q as int)
                && q <= MAX_POSITION,
            Err(e) => array_skipped(b@, p as int, ty, n as nat) == Err::<int, GgufFault>(e),
        },
{
    if ty == 8 {
        let mut pos: u64 = p;
        let mut i: u64 = 0;
        while i < n
            invariant
                i <= n,
                pos <= MAX_POSITION,
                b.len() <= MAX_POSITION,
                ty == 8,
                array_skipped(b@, p as int, ty, n as nat) == strings_skipped(
                    b@,
                    pos as int,
                    (n - i) as nat,
                ),
            decreases n - i,
        {
            let (len, q) = match read_number(b, pos, 8) {
                Ok(x) => x,
                Err(e) => {
                    return Err(e);
                },
            };
            if len > MAX_STRING_BYTES {
                return Err(GgufFault::ArrayStringTooLong(len));
            }
            pos = match skip_bytes(q, len) {
                Ok(x) => x,
                Err(e) => {
                    return Err(e);
                },
            };
            i += 1;
        }
        return Ok(pos);
    }
    if ty == 9 {
        return Err(GgufFault::NestedArray);
    }
    match scalar_width(ty) {
        None => Err(GgufFault::ArrayType(ty)),
        Some(w) => match w.checked_mul(n) {
            None => Err(GgufFault::ArrayOverflow),
            Some(bytes) => skip_bytes(p, bytes),
        },
    }
}

/// The signed number of `w` bytes whose two's complement is `v`.
pub(crate) fn to_signed(v: u64, w: usize) -> (r: i64)
    requires
        w == 1 || w == 2 || w == 4 || w == 8,
        v < base(w as nat),
    ensures
        r == signed(v as nat, w as nat),
{
    proof {
        lemma_bases();
    }
    let half: u64 = if w == 1 {
        0x80
    } else if w == 2 {
        0x8000
    } else if w == 4 {
        0x8000_0000
    } else {
        0x8000_0000_0000_0000
    };
    if v >= half {
        ((v - half) as i64) + (-(half as i128)) as i64
    } else {
        v as i64
    }
}

pub(crate) proof fn lemma_element_room(i: int, n: int, w: int)
    requires
        0 <= i < n,
        0 < w,
    ensures
        i * w + w == (i + 1) * w,
        (i + 1) * w <= n * w,
        0 <= i * w,
{
    assert(i * w + w == (i + 1) * w) by (nonlinear_arith);
    assert((i + 1) * w <= n * w) by (nonlinear_arith)
        requires
            i + 1 <= n,
            0 < w,
    ;
    assert(0 <= i * w) by (nonlinear_arith)
        requires
            0 <= i,
            0 < w,
    ;
}

fn read_elements(b: &[u8], p: u64, w: usize, n: u64) -> (v: Vec<u64>)
    requires
        w == 1 || w == 2 || w == 4 || w == 8,
        n > 0 ==> p + n * w <= b.len(),
    ensures
        v.len() == n,
        forall|i: int|
            0 <= i < n ==> #[trigger] v[i] == element(b@, p as int, w as nat, i) && v[i] < base(
                w as nat,
            ),
{
    let mut v: Vec<u64> = Vec::new();
    let mut i: u64 = 0;
    let mut at: u64 = p;
    while i < n
        invariant
            i <= n,
            w == 1 || w == 2 || w == 4 || w == 8,
            n > 0 ==> p + n * w <= b.len(),
            at == p + i * w,
            v.len() == i,
            forall|j: int|
                0 <= j < i ==> #[trigger] v[j] == element(b@, p as int, w as nat, j) && v[j]
                    < base(w as nat),
        decreases n - i,
    {
        proof {
            lemma_element_room(i as int, n as int, w as int);
        }
        let x: u64 = read_le(b, at as usize, w);
        v.push(x);
        at = at + w as u64;
        i += 1;
    }
    v
}

#[verifier::spinoff_prover]
#[verifier::rlimit(40)]
fn read_array(b: &[u8], p: u64, keep: bool) -> (r: Result<(MetadataValue, u64), GgufFault>)
    requires
        p <= MAX_POSITION,
        b.len() <= MAX_POSITION,
    ensures
        match r {
            Ok((v, q)) => array_at(b@, p as int, keep) == Ok::<(ValueView, int), GgufFault>(
                (v@, q as int),
            ) && q <= MAX_POSITION,
            Err(e) => array_at(b@, p as int, keep) == Err::<(ValueView, int), GgufFault>(e),
        },
{
    let (ty_raw, q) = match read_number(b, p, 4) {
        Ok(x) => x,
        Err(e) => {
            return Err(e);
        },
    };
    proof {
        lemma_bases();
        lemma_le_bound(b@, p as int, 4);
    }
    let ty: u32 = ty_raw as u32;
    let (n, start) = match read_number(b, q, 8) {
        Ok(x) => x,
        Err(e) => {
            return Err(e);
        },
    };
    let unsigned: bool = ty == 0 || ty == 2 || ty == 4 || ty == 10;
    let with_sign: bool = ty == 1 || ty == 3 || ty == 5 || ty == 11;
    let float: bool = ty == 6 || ty == 12;
    if !(keep && n <= MAX_METADATA_ARRAY && (unsigned || with_sign || float)) {
        return match skip_array(b, start, ty, n) {
            Ok(s) => Ok((MetadataValue::IgnoredArray(n), s)),
            Err(e) => Err(e),
        };
    }
    let w: u64 = match scalar_width(ty) {
        Some(w) => w,
        None => 1,
    };
    proof {
        assert(0 <= n * w <= MAX_METADATA_ARRAY * 8) by (nonlinear_arith)
            requires
                0 <= n <= MAX_METADATA_ARRAY,
                1 <= w <= 8,
        ;
        assert(n > 0 ==> n * w > 0) by (nonlinear_arith)
            requires
                1 <= w <= 8,
        ;
    }
    let bytes: u64 = n * w;
    if n > 0 && bytes > b.len() as u64 - start {
        return Err(GgufFault::Eof);
    }
    let next: u64 = start + bytes;
    let raw = read_elements(b, start, w as usize, n);
    let ghost at = start as int;
    assert(width_of(ty) == Some(w));
    assert(next == at + n * w);
    if unsigned {
        assert(raw@ =~= wide_elements(b@, at, w as nat, n as nat));
        Ok((MetadataValue::U64Array(raw), next))
    } else if with_sign {
        let mut out: Vec<i64> = Vec::new();
        let mut i: usize = 0;
        while i < raw.len()
            invariant
                i <= raw.len(),
                raw.len() == n,
                out.len() == i,
                w == 1 || w == 2 || w == 4 || w == 8,
                forall|j: int|
                    0 <= j < n ==> #[trigger] raw[j] == element(b@, at, w as nat, j) && raw[j]
                        < base(w as nat),
                forall|j: int|
                    0 <= j < i ==> #[trigger] out[j] == signed(element(b@, at, w as nat, j), w as nat),
            decreases raw.len() - i,
        {
            out.push(to_signed(raw[i], w as usize));
            i += 1;
        }
        assert(out@ =~= signed_elements(b@, at, w as nat, n as nat));
        Ok((MetadataValue::I64Array(out), next))
    } else if ty == 6 {
        let mut out: Vec<u32> = Vec::new();
        let mut i: usize = 0;
        while i < raw.len()
            invariant
                i <= raw.len(),
                raw.len() == n,
                out.len() == i,
                w == 4,
                forall|j: int|
                    0 <= j < n ==> #[trigger] raw[j] == element(b@, at, w as nat, j) && raw[j]
                        < base(w as nat),
                forall|j: int| 0 <= j < i ==> #[trigger] out[j] == element(b@, at, w as nat, j),
            decreases raw.len() - i,
        {
            proof {
                lemma_bases();
                assert(raw[i as int] < base(4));
            }
            out.push(raw[i] as u32);
            i += 1;
        }
        assert(out@ =~= narrow_elements(b@, at, w as nat, n as nat));
        Ok((MetadataValue::F32Array(out), next))
    } else {
        assert(raw@ =~= wide_elements(b@, at, w as nat, n as nat));
        Ok((MetadataValue::F64Array(raw), next))
    }
}

fn read_value(b: &[u8], p: u64, ty: u32, keep: bool) -> (r: Result<
    (MetadataValue, u64),
    GgufFault,
>)
    requires
        p <= MAX_POSITION,
        b.len() <= MAX_POSITION,
    ensures
        match r {
            Ok((v, q)) => value_at(b@, p as int, ty, keep) == Ok::<(ValueView, int), GgufFault>(
                (v@, q as int),
            ) && q <= MAX_POSITION,
            Err(e) => value_at(b@, p as int, ty, keep) == Err::<(ValueView, int), GgufFault>(e),
        },
{
    if ty == 8 {
        return match read_string(b, p) {
            Ok((s, q)) => Ok((MetadataValue::String(s), q)),
            Err(e) => Err(e),
        };
    }
    if ty == 9 {
        return read_array(b, p, keep);
    }
    let w: u64 = match scalar_width(ty) {
        Some(w) => w,
        None => {
            return Err(GgufFault::ValueType(ty));
        },
    };
    let (n, q) = match read_number(b, p, w as usize) {
        Ok(x) => x,
        Err(e) => {
            return Err(e);
        },
    };
    proof {
        lemma_bases();
        lemma_le_bound(b@, p as int, w as nat);
    }
    let v: MetadataValue = if ty == 0 || ty == 2 || ty == 4 || ty == 10 {
        MetadataValue::U64(n)
    } else if ty == 6 {
        MetadataValue::F32(n as u32)
    } else if ty == 7 {
        MetadataValue::Bool(n != 0)
    } else if ty == 12 {
        MetadataValue::F64(n)
    } else {
        MetadataValue::I64(to_signed(n, w as usize))
    };
    Ok((v, q))
}

/// Whether the arrays under a key are kept.
pub open spec fn keeps(key: Seq<char>) -> bool {
    starts_with_spec(key, "qwen4exp."@) || key == "general.alignment"@
}

/// A key and its value.
pub open spec fn entry_at(b: Seq<u8>, p: int) -> Result<((Seq<char>, ValueView), int), GgufFault> {
    match string_at(b, p) {
        Err(e) => Err(e),
        Ok((key, q)) => match number_at(b, q, 4) {
            Err(e) => Err(e),
            Ok((ty, r)) => match value_at(b, r, ty as u32, keeps(key)) {
                Err(e) => Err(e),
                Ok((v, s)) => Ok(((key, v), s)),
            },
        },
    }
}

/// `n` keys with their values, behind those already read.
pub open spec fn entries_at(b: Seq<u8>, p: int, n: nat, done: Seq<(Seq<char>, ValueView)>) -> Result<
    (Seq<(Seq<char>, ValueView)>, int),
    GgufFault,
>
    decreases n,
{
    if n == 0 {
        Ok((done, p))
    } else {
        match entry_at(b, p) {
            Err(e) => Err(e),
            Ok((kv, q)) => entries_at(b, q, (n - 1) as nat, done.push(kv)),
        }
    }
}

/// The value that stands last under a key.
pub open spec fn lookup(entries: Seq<(Seq<char>, ValueView)>, key: Seq<char>) -> Option<ValueView>
    decreases entries.len(),
{
    if entries.len() == 0 {
        None
    } else if entries.last().0 == key {
        Some(entries.last().1)
    } else {
        lookup(entries.drop_last(), key)
    }
}

/// The metadata of a file, in the order of the file.
pub open spec fn entries_view(v: Seq<(String, MetadataValue)>) -> Seq<(Seq<char>, ValueView)> {
    v.map_values(|e: (String, MetadataValue)| (e.0@, e.1@))
}

/// The value under a key.
pub(crate) fn find_value<'a>(entries: &'a Vec<(String, MetadataValue)>, key: &str) -> (r: Option<
    &'a MetadataValue,
>)
    ensures
        match r {
            Some(v) => lookup(entries_view(entries@), key@) == Some(v@),
            None => lookup(entries_view(entries@), key@) is None,
        },
{
    let mut i: usize = entries.len();
    let ghost all = entries_view(entries@);
    assert(all.take(all.len() as int) =~= all);
    while i > 0
        invariant
            i <= entries.len(),
            all == entries_view(entries@),
            lookup(all, key@) == lookup(all.take(i as int), key@),
        decreases i,
    {
        assert(all.take(i as int).drop_last() =~= all.take(i - 1));
        assert(all.take(i as int).last() == (entries[i - 1].0@, entries[i - 1].1@));
        if same_text(entries[i - 1].0.as_str(), key) {
            return Some(&entries[i - 1].1);
        }
        i -= 1;
    }
    None
}

/// A value as an unsigned number.
pub open spec fn value_u64(v: ValueView) -> Option<u64> {
    match v {
        ValueView::U64(n) => Some(n),
        ValueView::I64(n) => if n >= 0 {
            Some(n as u64)
        } else {
            None
        },
        _ => None,
    }
}

/// A value as an unsigned number.
pub fn meta_u64(value: &MetadataValue) -> (r: Option<u64>)
    ensures
        r == value_u64(value@),
{
    match value {
        MetadataValue::U64(n) => Some(*n),
        MetadataValue::I64(n) => if *n >= 0 {
            Some(*n as u64)
        } else {
            None
        },
        _ => None,
    }
}

/// The number under a key, or another where there is none.
pub open spec fn number_under(entries: Seq<(Seq<char>, ValueView)>, key: Seq<char>, default: u64) -> u64 {
    match lookup(entries, key) {
        Some(v) => match value_u64(v) {
            Some(n) => n,
            None => default,
        },
        None => default,
    }
}

pub(crate) fn number_for(entries: &Vec<(String, MetadataValue)>, key: &str, default: u64) -> (r: u64)
    ensures
        r == number_under(entries_view(entries@), key@, default),
{
    match find_value(entries, key) {
        Some(v) => match meta_u64(v) {
            Some(n) => n,
            None => default,
        },
        None => default,
    }
}

fn read_entry(b: &[u8], p: u64) -> (r: Result<((String, MetadataValue), u64), GgufFault>)
    requires
        p <= MAX_POSITION,
        b.len() <= MAX_POSITION,
    ensures
        match r {
            Ok((kv, q)) => entry_at(b@, p as int) == Ok::<
                ((Seq<char>, ValueView), int),
                GgufFault,
            >(((kv.0@, kv.1@), q as int)) && q <= MAX_POSITION,
            Err(e) => entry_at(b@, p as int) == Err::<((Seq<char>, ValueView), int), GgufFault>(e),
        },
{
    let (key, q) = match read_string(b, p) {
        Ok(x) => x,
        Err(e) => {
            return Err(e);
        },
    };
    let (ty, r) = match read_number(b, q, 4) {
        Ok(x) => x,
        Err(e) => {
            return Err(e);
        },
    };
    proof {
        lemma_bases();
        lemma_le_bound(b@, q as int, 4);
    }
    let keep: bool = starts_with(key.as_str(), "qwen4exp.") || same_text(
        key.as_str(),
        "general.alignment",
    );
    match read_value(b, r, ty as u32, keep) {
        Ok((v, s)) => Ok(((key, v), s)),
        Err(e) => Err(e),
    }
}

fn read_entries(b: &[u8], p: u64, n: u64) -> (r: Result<
    (Vec<(String, MetadataValue)>, u64),
    GgufFault,
>)
    requires
        p <= MAX_POSITION,
        b.len() <= MAX_POSITION,
    ensures
        match r {
            Ok((v, q)) => entries_at(b@, p as int, n as nat, Seq::empty()) == Ok::<
                (Seq<(Seq<char>, ValueView)>, int),
                GgufFault,
            >((entries_view(v@), q as int)) && q <= MAX_POSITION,
            Err(e) => entries_at(b@, p as int, n as nat, Seq::empty()) == Err::<
                (Seq<(Seq<char>, ValueView)>, int),
                GgufFault,
            >(e),
        },
{
    let mut out: Vec<(String, MetadataValue)> = Vec::new();
    let mut pos: u64 = p;
    let mut i: u64 = 0;
    let ghost goal = entries_at(b@, p as int, n as nat, Seq::empty());
    assert(entries_view(out@) =~= Seq::empty());
    while i < n
        invariant
            i <= n,
            pos <= MAX_POSITION,
            b.len() <= MAX_POSITION,
            goal == entries_at(b@, p as int, n as nat, Seq::empty()),
            goal == entries_at(b@, pos as int, (n - i) as nat, entries_view(out@)),
        decreases n - i,
    {
        let ghost before = entries_view(out@);
        match read_entry(b, pos) {
            Ok((kv, q)) => {
                let ghost view = (kv.0@, kv.1@);
                out.push(kv);
                assert(entries_view(out@) =~= before.push(view));
                pos = q;
            },
            Err(e) => {
                return Err(e);
            },
        }
        i += 1;
    }
    Ok((out, pos))
}

/// What is wrong with a file, and with which tensor where it is one.
#[derive(Debug)]
pub struct GgufError {
    pub fault: GgufFault,
    pub tensor: Option<String>,
}

/// A `GgufError` as a value.
pub struct ErrorView {
    pub fault: GgufFault,
    pub tensor: Option<Seq<char>>,
}

impl View for GgufError {
    type V = ErrorView;

    open spec fn view(&self) -> ErrorView {
        ErrorView {
            fault: self.fault,
            tensor: match self.tensor {
                Some(s) => Some(s@),
                None => None,
            },
        }
    }
}

/// A fault of the file as a whole.
pub open spec fn plain(fault: GgufFault) -> ErrorView {
    ErrorView { fault, tensor: None }
}

/// A fault of one tensor.
pub open spec fn of_tensor(fault: GgufFault, name: Seq<char>) -> ErrorView {
    ErrorView { fault, tensor: Some(name) }
}

fn plain_error(fault: GgufFault) -> (e: GgufError)
    ensures
        e@ == plain(fault),
{
    GgufError { fault, tensor: None }
}

fn tensor_error(fault: GgufFault, name: &String) -> (e: GgufError)
    ensures
        e@ == of_tensor(fault, name@),
{
    GgufError { fault, tensor: Some(name.clone()) }
}

/// A tensor as the header lists it, before its place in the file is known.
pub struct Listed {
    pub name: String,
    pub dims: Vec<u64>,
    pub dtype: GgmlType,
    pub relative_offset: u64,
    pub stored_bytes: u64,
}

/// A `Listed` as a value.
pub struct ListedView {
    pub name: Seq<char>,
    pub dims: Seq<u64>,
    pub dtype: GgmlType,
    pub relative_offset: u64,
    pub stored_bytes: u64,
}

impl View for Listed {
    type V = ListedView;

    open spec fn view(&self) -> ListedView {
        ListedView {
            name: self.name@,
            dims: self.dims@,
            dtype: self.dtype,
            relative_offset: self.relative_offset,
            stored_bytes: self.stored_bytes,
        }
    }
}

/// The dimensions of a tensor.
pub open spec fn dims_at(b: Seq<u8>, p: int, n: nat) -> Seq<u64> {
    Seq::new(n, |i: int| element(b, p, 8, i) as u64)
}

/// One tensor of the header.
pub open spec fn listed_at(b: Seq<u8>, p: int) -> Result<(ListedView, int), ErrorView> {
    match string_at(b, p) {
        Err(e) => Err(plain(e)),
        Ok((name, q)) => match number_at(b, q, 4) {
            Err(e) => Err(plain(e)),
            Ok((rank, r)) => if rank == 0 || rank > MAX_DIMS {
                Err(of_tensor(GgufFault::Rank(rank as u32), name))
            } else if r + 8 * rank > b.len() {
                Err(plain(GgufFault::Eof))
            } else {
                let dims = dims_at(b, r, rank);
                let s = r + 8 * rank;
                match number_at(b, s, 4) {
                    Err(e) => Err(plain(e)),
                    Ok((id, t)) => match GgmlType::of_id(id as u32) {
                        None => Err(plain(GgufFault::TensorType(id as u32))),
                        Some(dtype) => match number_at(b, t, 8) {
                            Err(e) => Err(plain(e)),
                            Ok((relative, u)) => match checked_product(dims) {
                                None => Err(of_tensor(GgufFault::ElementOverflow, name)),
                                Some(elements) => match dtype.stored(elements as int) {
                                    Err(e) => Err(plain(e)),
                                    Ok(stored_bytes) => Ok(
                                        (
                                            ListedView {
                                                name,
                                                dims,
                                                dtype,
                                                relative_offset: relative as u64,
                                                stored_bytes,
                                            },
                                            u,
                                        ),
                                    ),
                                },
                            },
                        },
                    },
                }
            },
        },
    }
}

/// `n` tensors of the header, behind those already read.
pub open spec fn all_listed_at(b: Seq<u8>, p: int, n: nat, done: Seq<ListedView>) -> Result<
    (Seq<ListedView>, int),
    ErrorView,
>
    decreases n,
{
    if n == 0 {
        Ok((done, p))
    } else {
        match listed_at(b, p) {
            Err(e) => Err(e),
            Ok((t, q)) => all_listed_at(b, q, (n - 1) as nat, done.push(t)),
        }
    }
}

fn read_listed(b: &[u8], p: u64) -> (r: Result<(Listed, u64), GgufError>)
    requires
        p <= MAX_POSITION,
        b.len() <= MAX_POSITION,
    ensures
        match r {
            Ok((t, q)) => listed_at(b@, p as int) == Ok::<(ListedView, int), ErrorView>(
                (t@, q as int),
            ) && q <= MAX_POSITION,
            Err(e) => listed_at(b@, p as int) == Err::<(ListedView, int), ErrorView>(e@),
        },
{
    let (name, q) = match read_string(b, p) {
        Ok(x) => x,
        Err(e) => {
            return Err(plain_error(e));
        },
    };
    let (rank, r) = match read_number(b, q, 4) {
        Ok(x) => x,
        Err(e) => {
            return Err(plain_error(e));
        },
    };
    proof {
        lemma_bases();
        lemma_le_bound(b@, q as int, 4);
    }
    if rank == 0 || rank > MAX_DIMS as u64 {
        return Err(tensor_error(GgufFault::Rank(rank as u32), &name));
    }
    if 8 * rank > b.len() as u64 - r {
        return Err(plain_error(GgufFault::Eof));
    }
    let dims = read_elements(b, r, 8, rank);
    assert(dims@ =~= dims_at(b@, r as int, rank as nat));
    let s: u64 = r + 8 * rank;
    let (id, t) = match read_number(b, s, 4) {
        Ok(x) => x,
        Err(e) => {
            return Err(plain_error(e));
        },
    };
    proof {
        lemma_le_bound(b@, s as int, 4);
    }
    let dtype: GgmlType = match GgmlType::from_id(id as u32) {
        Ok(d) => d,
        Err(e) => {
            return Err(plain_error(e));
        },
    };
    let (relative_offset, u) = match read_number(b, t, 8) {
        Ok(x) => x,
        Err(e) => {
            return Err(plain_error(e));
        },
    };
    assert(dims@.skip(0) =~= dims@);
    let elements: u64 = match multiply(&dims, 0) {
        Some(n) => n,
        None => {
            return Err(tensor_error(GgufFault::ElementOverflow, &name));
        },
    };
    match dtype.stored_bytes(elements) {
        Err(e) => Err(plain_error(e)),
        Ok(stored_bytes) => Ok((Listed { name, dims, dtype, relative_offset, stored_bytes }, u)),
    }
}

fn read_all_listed(b: &[u8], p: u64, n: u64) -> (r: Result<(Vec<Listed>, u64), GgufError>)
    requires
        p <= MAX_POSITION,
        b.len() <= MAX_POSITION,
    ensures
        match r {
            Ok((v, q)) => all_listed_at(b@, p as int, n as nat, Seq::empty()) == Ok::<
                (Seq<ListedView>, int),
                ErrorView,
            >((v@.map_values(|t: Listed| t@), q as int)) && q <= MAX_POSITION,
            Err(e) => all_listed_at(b@, p as int, n as nat, Seq::empty()) == Err::<
                (Seq<ListedView>, int),
                ErrorView,
            >(e@),
        },
{
    let mut out: Vec<Listed> = Vec::new();
    let mut pos: u64 = p;
    let mut i: u64 = 0;
    let ghost goal = all_listed_at(b@, p as int, n as nat, Seq::empty());
    assert(out@.map_values(|t: Listed| t@) =~= Seq::empty());
    while i < n
        invariant
            i <= n,
            pos <= MAX_POSITION,
            b.len() <= MAX_POSITION,
            goal == all_listed_at(b@, p as int, n as nat, Seq::empty()),
            goal == all_listed_at(
                b@,
                pos as int,
                (n - i) as nat,
                out@.map_values(|t: Listed| t@),
            ),
        decreases n - i,
    {
        let ghost before = out@.map_values(|t: Listed| t@);
        match read_listed(b, pos) {
            Ok((t, q)) => {
                let ghost view = t@;
                out.push(t);
                assert(out@.map_values(|t: Listed| t@) =~= before.push(view));
                pos = q;
            },
            Err(e) => {
                return Err(e);
            },
        }
        i += 1;
    }
    Ok((out, pos))
}

/// The least multiple of `alignment` that is not below `value`.
pub open spec fn aligned(value: int, alignment: int) -> int {
    (value + alignment - 1) / alignment * alignment
}

/// Rounds up to a multiple of `alignment`.
pub fn align_up(value: u64, alignment: u64) -> (r: Result<u64, GgufFault>)
    requires
        alignment > 0,
    ensures
        match r {
            Ok(m) => {
                &&& value + alignment - 1 <= u64::MAX
                &&& m == aligned(value as int, alignment as int)
                &&& m as int % alignment as int == 0
                &&& value <= m < value + alignment
            },
            Err(e) => value + alignment - 1 > u64::MAX && e == GgufFault::AlignOverflow,
        },
{
    match value.checked_add(alignment - 1) {
        None => Err(GgufFault::AlignOverflow),
        Some(v) => {
            let k: u64 = v / alignment;
            proof {
                let a = alignment as int;
                vstd::arithmetic::div_mod::lemma_fundamental_div_mod(v as int, a);
                vstd::arithmetic::mul::lemma_mul_is_commutative(a, k as int);
                vstd::arithmetic::div_mod::lemma_mod_multiples_basic(k as int, a);
            }
            Ok(k * alignment)
        },
    }
}

/// Whether a number is a power of two.
pub open spec fn is_power_of_two(a: u64) -> bool {
    exists|k: nat| a == #[trigger] pow2(k)
}

fn power_of_two(a: u64) -> (r: bool)
    requires
        0 < a <= MAX_ALIGNMENT,
    ensures
        r == is_power_of_two(a),
{
    let mut p: u64 = 1;
    let ghost mut k: nat = 0;
    proof {
        vstd::arithmetic::power2::lemma2_to64();
    }
    while p < a
        invariant
            p == pow2(k),
            1 <= p < 2 * a,
            a <= MAX_ALIGNMENT,
            forall|j: nat| j < k ==> #[trigger] pow2(j) < a,
        decreases 2 * a - p,
    {
        proof {
            lemma_pow2_unfold(k + 1);
            assert forall|j: nat| j < k + 1 implies #[trigger] pow2(j) < a by {
                if j < k {
                } else {
                    assert(j == k);
                }
            }
            k = k + 1;
        }
        p = p * 2;
    }
    proof {
        if p != a {
            assert forall|j: nat| a != #[trigger] pow2(j) by {
                if j < k {
                } else if j > k {
                    lemma_pow2_strictly_increases(k, j);
                }
            }
        } else {
            assert(a == pow2(k));
        }
    }
    p == a
}

/// A listed tensor with its place in the file.
pub open spec fn placed(
    t: ListedView,
    data_start: u64,
    alignment: u64,
    file_len: int,
    shard: int,
) -> Result<TensorView, ErrorView> {
    let offset = data_start + t.relative_offset;
    let end = offset + t.stored_bytes;
    if t.relative_offset as int % alignment as int != 0 {
        Err(of_tensor(GgufFault::Unaligned(t.relative_offset), t.name))
    } else if offset > u64::MAX {
        Err(of_tensor(GgufFault::OffsetOverflow, t.name))
    } else if end > u64::MAX {
        Err(of_tensor(GgufFault::ExtentOverflow, t.name))
    } else if end > file_len {
        Err(of_tensor(GgufFault::BeyondEnd, t.name))
    } else {
        Ok(
            TensorView {
                name: t.name,
                dims: t.dims,
                dtype: t.dtype,
                shard,
                offset: offset as u64,
                stored_bytes: t.stored_bytes,
            },
        )
    }
}

/// The tensor of a name.
pub open spec fn tensor_named(tensors: Seq<TensorView>, name: Seq<char>) -> Option<TensorView>
    decreases tensors.len(),
{
    if tensors.len() == 0 {
        None
    } else if tensors.last().name == name {
        Some(tensors.last())
    } else {
        tensor_named(tensors.drop_last(), name)
    }
}

/// Whether tensors are in the order of their names, no two of which are the same.
pub open spec fn names_ordered(tensors: Seq<TensorView>) -> bool {
    forall|i: int, j: int|
        0 <= i < j < tensors.len() ==> comes_before(
            (#[trigger] tensors[i]).name,
            (#[trigger] tensors[j]).name,
        )
}

/// Whether a shape and a number of bytes belong together.
pub open spec fn fills(dims: Seq<u64>, dtype: GgmlType, stored_bytes: u64) -> bool {
    &&& dims.len() > 0
    &&& checked_product(dims) is Some
    &&& dtype.stored(checked_product(dims)->0 as int) == Ok::<u64, GgufFault>(stored_bytes)
}

/// Whether a tensor has as many bytes as its shape takes, and its end can be counted.
pub open spec fn sized(t: TensorView) -> bool {
    &&& fills(t.dims, t.dtype, t.stored_bytes)
    &&& t.offset + t.stored_bytes <= u64::MAX
}

/// Whether all tensors are such tensors.
pub open spec fn all_sized(tensors: Seq<TensorView>) -> bool {
    forall|i: int| 0 <= i < tensors.len() ==> sized(#[trigger] tensors[i])
}

/// The place of a name among tensors in order: behind the last that comes before it.
pub open spec fn place_of(tensors: Seq<TensorView>, name: Seq<char>) -> int
    decreases tensors.len(),
{
    if tensors.len() == 0 {
        0
    } else if comes_before(tensors.last().name, name) {
        tensors.len() as int
    } else {
        place_of(tensors.drop_last(), name)
    }
}

/// Tensors with one more, in its place.
pub open spec fn with_tensor(tensors: Seq<TensorView>, t: TensorView) -> Seq<TensorView> {
    tensors.insert(place_of(tensors, t.name), t)
}

/// The listed tensors from `i` on with their places, among those already placed.
pub open spec fn all_placed(
    listed: Seq<ListedView>,
    i: int,
    data_start: u64,
    alignment: u64,
    file_len: int,
    shard: int,
    done: Seq<TensorView>,
) -> Result<Seq<TensorView>, ErrorView>
    decreases listed.len() - i,
{
    if i < 0 || i >= listed.len() {
        Ok(done)
    } else {
        match placed(listed[i], data_start, alignment, file_len, shard) {
            Err(e) => Err(e),
            Ok(t) => if tensor_named(done, t.name) is Some {
                Err(of_tensor(GgufFault::Duplicate, t.name))
            } else {
                all_placed(
                    listed,
                    i + 1,
                    data_start,
                    alignment,
                    file_len,
                    shard,
                    with_tensor(done, t),
                )
            },
        }
    }
}

/// A model file as a value.
pub struct FileView {
    pub metadata: Seq<(Seq<char>, ValueView)>,
    pub tensors: Seq<TensorView>,
    pub data_start: u64,
    pub alignment: u64,
}

impl FileView {
    /// The tensors are in the order of their names and have the bytes that their shapes take.
    pub open spec fn wf(self) -> bool {
        names_ordered(self.tensors) && all_sized(self.tensors)
    }
}

/// What a model file of `file` bytes holds that begins with `b`: its header lists the tensors, whose
/// bytes are not looked at.
pub open spec fn file_spec(b: Seq<u8>, file: int, shard: int) -> Result<FileView, ErrorView> {
    match number_at(b, 0, 4) {
        Err(e) => Err(plain(e)),
        Ok((magic, p)) => if magic != GGUF_MAGIC {
            Err(plain(GgufFault::NotGguf))
        } else {
            match number_at(b, p, 4) {
                Err(e) => Err(plain(e)),
                Ok((version, q)) => if version != 3 {
                    Err(plain(GgufFault::Version(version as u32)))
                } else {
                    match number_at(b, q, 8) {
                        Err(e) => Err(plain(e)),
                        Ok((tensor_count, r)) => match number_at(b, r, 8) {
                            Err(e) => Err(plain(e)),
                            Ok((kv_count, s)) => if tensor_count > MAX_COUNT || kv_count
                                > MAX_COUNT {
                                Err(plain(GgufFault::Counts))
                            } else {
                                body_spec(b, file, s, tensor_count, kv_count, shard)
                            },
                        },
                    }
                },
            }
        },
    }
}

/// What follows the counts of a model file.
pub open spec fn body_spec(
    b: Seq<u8>,
    file: int,
    p: int,
    tensor_count: nat,
    kv_count: nat,
    shard: int,
) -> Result<FileView, ErrorView> {
    match entries_at(b, p, kv_count, Seq::empty()) {
        Err(e) => Err(plain(e)),
        Ok((metadata, q)) => {
            let alignment = number_under(metadata, "general.alignment"@, DEFAULT_ALIGNMENT);
            if alignment == 0 || alignment > MAX_ALIGNMENT || !is_power_of_two(alignment) {
                Err(plain(GgufFault::Alignment(alignment)))
            } else {
                match all_listed_at(b, q, tensor_count, Seq::empty()) {
                    Err(e) => Err(e),
                    Ok((listed, header_end)) => {
                        let data_start = aligned(header_end, alignment as int);
                        if data_start > file {
                            Err(plain(GgufFault::DataBeyondEnd))
                        } else {
                            match all_placed(
                                listed,
                                0,
                                data_start as u64,
                                alignment,
                                file,
                                shard,
                                Seq::empty(),
                            ) {
                                Err(e) => Err(e),
                                Ok(tensors) => Ok(
                                    FileView {
                                        metadata,
                                        tensors,
                                        data_start: data_start as u64,
                                        alignment,
                                    },
                                ),
                            }
                        }
                    },
                }
            }
        },
    }
}

/// The tensors of a list, as values.
pub open spec fn tensors_view(v: Seq<TensorInfo>) -> Seq<TensorView> {
    v.map_values(|t: TensorInfo| t@)
}

pub(crate) fn find_tensor<'a>(tensors: &'a Vec<TensorInfo>, name: &str) -> (r: Option<&'a TensorInfo>)
    ensures
        match r {
            Some(t) => tensor_named(tensors_view(tensors@), name@) == Some(t@),
            None => tensor_named(tensors_view(tensors@), name@) is None,
        },
{
    let mut i: usize = tensors.len();
    let ghost all = tensors_view(tensors@);
    assert(all.take(all.len() as int) =~= all);
    while i > 0
        invariant
            i <= tensors.len(),
            all == tensors_view(tensors@),
            tensor_named(all, name@) == tensor_named(all.take(i as int), name@),
        decreases i,
    {
        assert(all.take(i as int).drop_last() =~= all.take(i - 1));
        assert(all.take(i as int).last() == tensors[i - 1]@);
        if same_text(tensors[i - 1].name.as_str(), name) {
            return Some(&tensors[i - 1]);
        }
        i -= 1;
    }
    None
}

fn place(t: &Listed, data_start: u64, alignment: u64, file_len: u64, shard: usize) -> (r: Result<
    TensorInfo,
    GgufError,
>)
    requires
        alignment > 0,
    ensures
        match r {
            Ok(info) => placed(t@, data_start, alignment, file_len as int, shard as int) == Ok::<
                TensorView,
                ErrorView,
            >(info@),
            Err(e) => placed(t@, data_start, alignment, file_len as int, shard as int) == Err::<
                TensorView,
                ErrorView,
            >(e@),
        },
{
    if t.relative_offset % alignment != 0 {
        return Err(tensor_error(GgufFault::Unaligned(t.relative_offset), &t.name));
    }
    let offset: u64 = match data_start.checked_add(t.relative_offset) {
        Some(x) => x,
        None => {
            return Err(tensor_error(GgufFault::OffsetOverflow, &t.name));
        },
    };
    let end: u64 = match offset.checked_add(t.stored_bytes) {
        Some(x) => x,
        None => {
            return Err(tensor_error(GgufFault::ExtentOverflow, &t.name));
        },
    };
    if end > file_len {
        return Err(tensor_error(GgufFault::BeyondEnd, &t.name));
    }
    let dims: Vec<u64> = t.dims.clone();
    assert(dims@ =~= t.dims@);
    Ok(
        TensorInfo {
            name: t.name.clone(),
            dims,
            dtype: t.dtype,
            shard,
            offset,
            stored_bytes: t.stored_bytes,
        },
    )
}

/// What stands before a place comes before the name, and nothing behind it does.
proof fn lemma_place(tensors: Seq<TensorView>, name: Seq<char>)
    requires
        names_ordered(tensors),
    ensures
        0 <= place_of(tensors, name) <= tensors.len(),
        forall|i: int|
            0 <= i < place_of(tensors, name) ==> comes_before((#[trigger] tensors[i]).name, name),
        forall|i: int|
            place_of(tensors, name) <= i < tensors.len() ==> !comes_before(
                (#[trigger] tensors[i]).name,
                name,
            ),
    decreases tensors.len(),
{
    if tensors.len() > 0 {
        let rest = tensors.drop_last();
        if comes_before(tensors.last().name, name) {
            assert forall|i: int| 0 <= i < tensors.len() implies comes_before(
                (#[trigger] tensors[i]).name,
                name,
            ) by {
                if i < tensors.len() - 1 {
                    law_order_of_texts_is_transitive(
                        tensors[i].name,
                        tensors.last().name,
                        name,
                    );
                }
            }
        } else {
            assert forall|i: int, j: int| 0 <= i < j < rest.len() implies comes_before(
                (#[trigger] rest[i]).name,
                (#[trigger] rest[j]).name,
            ) by {
                assert(rest[i] == tensors[i] && rest[j] == tensors[j]);
            }
            lemma_place(rest, name);
            assert forall|i: int| 0 <= i < place_of(tensors, name) implies comes_before(
                (#[trigger] tensors[i]).name,
                name,
            ) by {
                assert(rest[i] == tensors[i]);
            }
            assert forall|i: int| place_of(tensors, name) <= i < tensors.len() implies !comes_before(
                (#[trigger] tensors[i]).name,
                name,
            ) by {
                if i < rest.len() {
                    assert(rest[i] == tensors[i]);
                }
            }
        }
    }
}

/// Names in order are different.
pub(crate) proof fn lemma_ordered_names_differ(tensors: Seq<TensorView>, i: int, j: int)
    requires
        names_ordered(tensors),
        0 <= i < tensors.len(),
        0 <= j < tensors.len(),
        tensors[i].name == tensors[j].name,
    ensures
        i == j,
{
    law_texts_are_ordered(tensors[i].name, tensors[j].name);
}

/// A tensor that is found is one of the tensors.
pub(crate) proof fn lemma_named(tensors: Seq<TensorView>, name: Seq<char>) -> (i: int)
    requires
        tensor_named(tensors, name) is Some,
    ensures
        0 <= i < tensors.len(),
        tensors[i].name == name,
        tensor_named(tensors, name) == Some(tensors[i]),
    decreases tensors.len(),
{
    if tensors.last().name == name {
        tensors.len() - 1
    } else {
        let i = lemma_named(tensors.drop_last(), name);
        assert(tensors.drop_last()[i] == tensors[i]);
        i
    }
}

/// Each of the tensors is found by its name.
pub(crate) proof fn lemma_found(tensors: Seq<TensorView>, i: int)
    requires
        names_ordered(tensors),
        0 <= i < tensors.len(),
    ensures
        tensor_named(tensors, tensors[i].name) == Some(tensors[i]),
{
    if tensor_named(tensors, tensors[i].name) is None {
        lemma_not_named(tensors, tensors[i].name);
    } else {
        let j = lemma_named(tensors, tensors[i].name);
        lemma_ordered_names_differ(tensors, i, j);
    }
}

/// One more tensor leaves the order and all others as they are.
pub proof fn law_a_tensor_more(tensors: Seq<TensorView>, t: TensorView, name: Seq<char>)
    requires
        names_ordered(tensors),
        tensor_named(tensors, t.name) is None,
    ensures
        names_ordered(with_tensor(tensors, t)),
        all_sized(tensors) && sized(t) ==> all_sized(with_tensor(tensors, t)),
        with_tensor(tensors, t).len() == tensors.len() + 1,
        tensor_named(with_tensor(tensors, t), name) == (if name == t.name {
            Some(t)
        } else {
            tensor_named(tensors, name)
        }),
{
    let p = place_of(tensors, t.name);
    let next = with_tensor(tensors, t);
    lemma_place(tensors, t.name);
    lemma_not_named(tensors, t.name);
    assert forall|i: int, j: int| 0 <= i < j < next.len() implies comes_before(
        (#[trigger] next[i]).name,
        (#[trigger] next[j]).name,
    ) by {
        if i == p {
            let o = tensors[j - 1];
            assert(next[j] == o);
            law_texts_are_ordered(t.name, o.name);
        } else if j == p {
            assert(next[i] == tensors[i]);
        } else {
            let a = if i < p {
                i
            } else {
                i - 1
            };
            let b = if j < p {
                j
            } else {
                j - 1
            };
            assert(next[i] == tensors[a] && next[j] == tensors[b]);
        }
    }
    if all_sized(tensors) && sized(t) {
        assert forall|i: int| 0 <= i < next.len() implies sized(#[trigger] next[i]) by {
            if i < p {
                assert(next[i] == tensors[i]);
            } else if i > p {
                assert(next[i] == tensors[i - 1]);
            }
        }
    }
    if name == t.name {
        lemma_found(next, p);
    } else if tensor_named(tensors, name) is Some {
        let i = lemma_named(tensors, name);
        let j = if i < p {
            i
        } else {
            i + 1
        };
        assert(next[j] == tensors[i]);
        lemma_found(next, j);
    } else if tensor_named(next, name) is Some {
        let j = lemma_named(next, name);
        let i = if j < p {
            j
        } else {
            j - 1
        };
        assert(next[j] == tensors[i]);
        lemma_not_named(tensors, name);
    }
}

/// Puts a tensor in its place.
pub(crate) fn insert_tensor(tensors: &mut Vec<TensorInfo>, t: TensorInfo)
    ensures
        tensors_view(final(tensors)@) == with_tensor(tensors_view(old(tensors)@), t@),
{
    let mut i: usize = tensors.len();
    let ghost all = tensors_view(tensors@);
    let ghost view = t@;
    assert(all.take(all.len() as int) =~= all);
    while i > 0 && !precedes(tensors[i - 1].name.as_str(), t.name.as_str())
        invariant
            i <= tensors.len(),
            *tensors == *old(tensors),
            all == tensors_view(tensors@),
            place_of(all, t@.name) == place_of(all.take(i as int), t@.name),
        decreases i,
    {
        assert(all.take(i as int).drop_last() =~= all.take(i - 1));
        assert(all.take(i as int).last() == tensors[i - 1]@);
        i -= 1;
    }
    proof {
        if i > 0 {
            assert(all.take(i as int).last() == tensors[i - 1]@);
        }
    }
    tensors.insert(i, t);
    assert(tensors_view(tensors@) =~= all.insert(i as int, view));
}

fn place_all(listed: &Vec<Listed>, data_start: u64, alignment: u64, file_len: u64, shard: usize) -> (r:
    Result<Vec<TensorInfo>, GgufError>)
    requires
        alignment > 0,
    ensures
        match r {
            Ok(v) => all_placed(
                listed@.map_values(|t: Listed| t@),
                0,
                data_start,
                alignment,
                file_len as int,
                shard as int,
                Seq::empty(),
            ) == Ok::<Seq<TensorView>, ErrorView>(tensors_view(v@)),
            Err(e) => all_placed(
                listed@.map_values(|t: Listed| t@),
                0,
                data_start,
                alignment,
                file_len as int,
                shard as int,
                Seq::empty(),
            ) == Err::<Seq<TensorView>, ErrorView>(e@),
        },
{
    let ghost list = listed@.map_values(|t: Listed| t@);
    let ghost goal = all_placed(
        list,
        0,
        data_start,
        alignment,
        file_len as int,
        shard as int,
        Seq::empty(),
    );
    let mut out: Vec<TensorInfo> = Vec::new();
    assert(tensors_view(out@) =~= Seq::empty());
    let mut i: usize = 0;
    while i < listed.len()
        invariant
            alignment > 0,
            i <= listed.len(),
            goal == all_placed(
                list,
                i as int,
                data_start,
                alignment,
                file_len as int,
                shard as int,
                tensors_view(out@),
            ),
            goal == all_placed(
                list,
                0,
                data_start,
                alignment,
                file_len as int,
                shard as int,
                Seq::empty(),
            ),
            list == listed@.map_values(|t: Listed| t@),
        decreases listed.len() - i,
    {
        assert(listed[i as int]@ == list[i as int]);
        match place(&listed[i], data_start, alignment, file_len, shard) {
            Err(e) => {
                return Err(e);
            },
            Ok(info) => {
                if find_tensor(&out, info.name.as_str()).is_some() {
                    return Err(tensor_error(GgufFault::Duplicate, &info.name));
                }
                insert_tensor(&mut out, info);
            },
        }
        i += 1;
    }
    Ok(out)
}

/// A model file that was read.
pub struct ParsedGguf {
    pub metadata: Vec<(String, MetadataValue)>,
    pub tensors: Vec<TensorInfo>,
    pub data_start: u64,
    pub alignment: u64,
}

impl View for ParsedGguf {
    type V = FileView;

    open spec fn view(&self) -> FileView {
        FileView {
            metadata: entries_view(self.metadata@),
            tensors: tensors_view(self.tensors@),
            data_start: self.data_start,
            alignment: self.alignment,
        }
    }
}

/// Reads the header of a model file of `file` bytes from `b`, the bytes that it begins with: as many
/// as the header takes, or more.
pub fn parse_gguf_file(b: &[u8], file: u64, shard: usize) -> (r: Result<ParsedGguf, GgufError>)
    requires
        b.len() <= MAX_POSITION,
        file <= MAX_POSITION,
    ensures
        match r {
            Ok(f) => file_spec(b@, file as int, shard as int) == Ok::<FileView, ErrorView>(f@)
                && f@.wf(),
            Err(e) => file_spec(b@, file as int, shard as int) == Err::<FileView, ErrorView>(e@),
        },
{
    proof {
        lemma_bases();
        lemma_le_bound(b@, 0, 4);
        lemma_le_bound(b@, 4, 4);
        lemma_le_bound(b@, 8, 8);
        lemma_le_bound(b@, 16, 8);
    }
    let (magic, p) = match read_number(b, 0, 4) {
        Ok(x) => x,
        Err(e) => {
            return Err(plain_error(e));
        },
    };
    if magic != GGUF_MAGIC as u64 {
        return Err(plain_error(GgufFault::NotGguf));
    }
    let (version, q) = match read_number(b, p, 4) {
        Ok(x) => x,
        Err(e) => {
            return Err(plain_error(e));
        },
    };
    if version != 3 {
        return Err(plain_error(GgufFault::Version(version as u32)));
    }
    let (tensor_count, r) = match read_number(b, q, 8) {
        Ok(x) => x,
        Err(e) => {
            return Err(plain_error(e));
        },
    };
    let (kv_count, s) = match read_number(b, r, 8) {
        Ok(x) => x,
        Err(e) => {
            return Err(plain_error(e));
        },
    };
    if tensor_count > MAX_COUNT || kv_count > MAX_COUNT {
        return Err(plain_error(GgufFault::Counts));
    }
    match parse_body(b, file, s, tensor_count, kv_count, shard) {
        Err(e) => Err(e),
        Ok(f) => {
            proof {
                law_tensors_lie_in_the_file(b@, file as int, shard as int);
            }
            Ok(f)
        },
    }
}

fn parse_body(
    b: &[u8],
    file: u64,
    p: u64,
    tensor_count: u64,
    kv_count: u64,
    shard: usize,
) -> (r: Result<ParsedGguf, GgufError>)
    requires
        p <= MAX_POSITION,
        b.len() <= MAX_POSITION,
        file <= MAX_POSITION,
    ensures
        ({
            let want = body_spec(
                b@,
                file as int,
                p as int,
                tensor_count as nat,
                kv_count as nat,
                shard as int,
            );
            match r {
                Ok(f) => want == Ok::<FileView, ErrorView>(f@),
                Err(e) => want == Err::<FileView, ErrorView>(e@),
            }
        }),
{
    let (metadata, q) = match read_entries(b, p, kv_count) {
        Ok(x) => x,
        Err(e) => {
            return Err(plain_error(e));
        },
    };
    let alignment: u64 = number_for(&metadata, "general.alignment", DEFAULT_ALIGNMENT);
    if alignment == 0 || alignment > MAX_ALIGNMENT || !power_of_two(alignment) {
        return Err(plain_error(GgufFault::Alignment(alignment)));
    }
    let (listed, header_end) = match read_all_listed(b, q, tensor_count) {
        Ok(x) => x,
        Err(e) => {
            return Err(e);
        },
    };
    let data_start: u64 = match align_up(header_end, alignment) {
        Ok(x) => x,
        Err(e) => {
            return Err(plain_error(e));
        },
    };
    if data_start > file {
        return Err(plain_error(GgufFault::DataBeyondEnd));
    }
    match place_all(&listed, data_start, alignment, file, shard) {
        Err(e) => Err(e),
        Ok(tensors) => Ok(ParsedGguf { metadata, tensors, data_start, alignment }),
    }
}

/// Whether all listed tensors have the bytes that their shapes take.
spec fn all_fill(listed: Seq<ListedView>) -> bool {
    forall|i: int|
        0 <= i < listed.len() ==> fills(
            (#[trigger] listed[i]).dims,
            listed[i].dtype,
            listed[i].stored_bytes,
        )
}

proof fn lemma_listed_fill(b: Seq<u8>, p: int, n: nat, done: Seq<ListedView>)
    requires
        all_fill(done),
    ensures
        all_listed_at(b, p, n, done) matches Ok((v, q)) ==> all_fill(v),
    decreases n,
{
    if n > 0 {
        if let Ok((t, q)) = listed_at(b, p) {
            assert(t.dims.len() > 0);
            lemma_listed_fill(b, q, (n - 1) as nat, done.push(t));
        }
    }
}

proof fn lemma_placed_in_order(
    listed: Seq<ListedView>,
    i: int,
    data_start: u64,
    alignment: u64,
    file_len: int,
    shard: int,
    done: Seq<TensorView>,
)
    requires
        0 <= i,
        names_ordered(done),
        all_sized(done),
        all_fill(listed),
        forall|j: int| 0 <= j < done.len() ==> inside(#[trigger] done[j], alignment, data_start, file_len),
    ensures
        all_placed(listed, i, data_start, alignment, file_len, shard, done) matches Ok(ts) ==> {
            &&& names_ordered(ts)
            &&& all_sized(ts)
            &&& forall|j: int| 0 <= j < ts.len() ==> inside(#[trigger] ts[j], alignment, data_start, file_len)
        },
    decreases listed.len() - i,
{
    if i < listed.len() {
        match placed(listed[i], data_start, alignment, file_len, shard) {
            Err(_) => {},
            Ok(t) => {
                if tensor_named(done, t.name) is None {
                    let p = place_of(done, t.name);
                    let next = with_tensor(done, t);
                    lemma_place(done, t.name);
                    assert(fills(listed[i].dims, listed[i].dtype, listed[i].stored_bytes));
                    law_a_tensor_more(done, t, t.name);
                    assert forall|j: int| 0 <= j < next.len() implies inside(
                        #[trigger] next[j],
                        alignment,
                        data_start,
                        file_len,
                    ) by {
                        if j < p {
                            assert(next[j] == done[j]);
                        } else if j > p {
                            assert(next[j] == done[j - 1]);
                        }
                    }
                    lemma_placed_in_order(
                        listed,
                        i + 1,
                        data_start,
                        alignment,
                        file_len,
                        shard,
                        next,
                    );
                }
            },
        }
    }
}

pub(crate) proof fn lemma_not_named(tensors: Seq<TensorView>, name: Seq<char>)
    requires
        tensor_named(tensors, name) is None,
    ensures
        forall|i: int| 0 <= i < tensors.len() ==> (#[trigger] tensors[i]).name != name,
    decreases tensors.len(),
{
    if tensors.len() > 0 {
        lemma_not_named(tensors.drop_last(), name);
        assert forall|i: int| 0 <= i < tensors.len() implies (#[trigger] tensors[i]).name
            != name by {
            if i < tensors.len() - 1 {
                assert(tensors.drop_last()[i] == tensors[i]);
            }
        }
    }
}

/// Whether the bytes of a tensor lie in the data of a file of `file_len` bytes, aligned.
pub open spec fn inside(t: TensorView, alignment: u64, data_start: u64, file_len: int) -> bool {
    &&& data_start <= t.offset
    &&& t.offset + t.stored_bytes <= file_len
    &&& (t.offset - data_start) % alignment as int == 0
}

proof fn lemma_strings_forward(b: Seq<u8>, p: int, n: nat)
    ensures
        strings_skipped(b, p, n) matches Ok(q) ==> q >= p,
    decreases n,
{
    if n > 0 {
        if let Ok((len, q)) = number_at(b, p, 8) {
            if len <= MAX_STRING_BYTES {
                if let Ok(r) = skipped(q, len as int) {
                    lemma_strings_forward(b, r, (n - 1) as nat);
                }
            }
        }
    }
}

proof fn lemma_value_forward(b: Seq<u8>, p: int, ty: u32, keep: bool)
    ensures
        value_at(b, p, ty, keep) matches Ok((v, q)) ==> q >= p,
{
    if ty == 9 {
        if let Ok((elem, q)) = number_at(b, p, 4) {
            if let Ok((n, r)) = number_at(b, q, 8) {
                lemma_strings_forward(b, r, n);
                if width_of(elem as u32) is Some {
                    let w = width_of(elem as u32)->0 as nat;
                    assert(0 <= w * n && 0 <= n * w) by (nonlinear_arith);
                }
            }
        }
    }
}

proof fn lemma_entries_forward(b: Seq<u8>, p: int, n: nat, done: Seq<(Seq<char>, ValueView)>)
    ensures
        entries_at(b, p, n, done) matches Ok((v, q)) ==> q >= p,
    decreases n,
{
    if n > 0 {
        if let Ok((key, q)) = string_at(b, p) {
            if let Ok((ty, r)) = number_at(b, q, 4) {
                lemma_value_forward(b, r, ty as u32, keeps(key));
            }
        }
        if let Ok((kv, q)) = entry_at(b, p) {
            lemma_entries_forward(b, q, (n - 1) as nat, done.push(kv));
        }
    }
}

proof fn lemma_listed_forward(b: Seq<u8>, p: int, n: nat, done: Seq<ListedView>)
    ensures
        all_listed_at(b, p, n, done) matches Ok((v, q)) ==> q >= p,
    decreases n,
{
    if n > 0 {
        if let Ok((t, q)) = listed_at(b, p) {
            lemma_listed_forward(b, q, (n - 1) as nat, done.push(t));
        }
    }
}

/// Every tensor of a file that was read lies inside the file, behind the header and aligned, has the
/// bytes that its shape takes, and stands in the order of names.
pub proof fn law_tensors_lie_in_the_file(b: Seq<u8>, file: int, shard: int)
    requires
        file <= MAX_POSITION,
    ensures
        file_spec(b, file, shard) matches Ok(f) ==> {
            &&& is_power_of_two(f.alignment)
            &&& f.data_start <= file
            &&& f.wf()
            &&& forall|j: int|
                0 <= j < f.tensors.len() ==> inside(
                    #[trigger] f.tensors[j],
                    f.alignment,
                    f.data_start,
                    file,
                )
        },
{
    if let Ok(f) = file_spec(b, file, shard) {
        let tensor_count = le(b, 8, 8);
        let kv_count = le(b, 16, 8);
        let (metadata, q) = entries_at(b, 24, kv_count, Seq::empty())->Ok_0;
        let (listed, header_end) = all_listed_at(b, q, tensor_count, Seq::empty())->Ok_0;
        lemma_entries_forward(b, 24, kv_count, Seq::empty());
        lemma_listed_forward(b, q, tensor_count, Seq::empty());
        lemma_listed_fill(b, q, tensor_count, Seq::empty());
        vstd::arithmetic::div_mod::lemma_div_pos_is_pos(
            header_end + f.alignment - 1,
            f.alignment as int,
        );
        assert(aligned(header_end, f.alignment as int) >= 0) by (nonlinear_arith)
            requires
                (header_end + f.alignment - 1) / (f.alignment as int) >= 0,
                f.alignment > 0,
                aligned(header_end, f.alignment as int) == (header_end + f.alignment - 1) / (
                f.alignment as int) * f.alignment as int,
        ;
        lemma_placed_in_order(
            listed,
            0,
            f.data_start,
            f.alignment,
            file,
            shard,
            Seq::empty(),
        );
    }
}

/// Whether a file begins with some bytes.
pub open spec fn begins(whole: Seq<u8>, b: Seq<u8>) -> bool {
    b.len() <= whole.len() && forall|i: int| 0 <= i < b.len() ==> #[trigger] whole[i] == b[i]
}

proof fn lemma_number_in_whole(whole: Seq<u8>, b: Seq<u8>, p: int, w: nat)
    requires
        begins(whole, b),
        p >= 0,
        p + w <= b.len(),
    ensures
        le(whole, p, w) == le(b, p, w),
{
    assert forall|i: int| 0 <= i < w implies #[trigger] whole[p + i] == b[p + i] by {}
    lemma_le_same(whole, p, b, p, w);
}

proof fn lemma_elements_in_whole(whole: Seq<u8>, b: Seq<u8>, p: int, w: nat, n: nat)
    requires
        begins(whole, b),
        p >= 0,
        n > 0 ==> p + n * w <= b.len(),
    ensures
        forall|i: int| 0 <= i < n ==> #[trigger] element(whole, p, w, i) == element(b, p, w, i),
{
    assert forall|i: int| 0 <= i < n implies #[trigger] element(whole, p, w, i) == element(
        b,
        p,
        w,
        i,
    ) by {
        assert(0 <= i * w && i * w + w <= n * w) by (nonlinear_arith)
            requires
                0 <= i,
                i + 1 <= n,
                0 <= w,
        ;
        lemma_number_in_whole(whole, b, p + i * w, w);
    }
}

proof fn lemma_string_in_whole(whole: Seq<u8>, b: Seq<u8>, p: int)
    requires
        begins(whole, b),
        p >= 0,
        string_at(b, p) is Ok,
    ensures
        string_at(whole, p) == string_at(b, p),
        (string_at(b, p)->Ok_0).1 >= 0,
{
    lemma_number_in_whole(whole, b, p, 8);
    let n = le(b, p, 8);
    assert(whole.subrange(p + 8, p + 8 + n) =~= b.subrange(p + 8, p + 8 + n));
}

proof fn lemma_strings_in_whole(whole: Seq<u8>, b: Seq<u8>, p: int, n: nat)
    requires
        begins(whole, b),
        p >= 0,
        strings_skipped(b, p, n) is Ok,
    ensures
        strings_skipped(whole, p, n) == strings_skipped(b, p, n),
        strings_skipped(b, p, n)->Ok_0 >= 0,
    decreases n,
{
    if n > 0 {
        lemma_number_in_whole(whole, b, p, 8);
        lemma_strings_in_whole(whole, b, p + 8 + le(b, p, 8), (n - 1) as nat);
    }
}

proof fn lemma_array_in_whole(whole: Seq<u8>, b: Seq<u8>, p: int, keep: bool)
    requires
        begins(whole, b),
        p >= 0,
        array_at(b, p, keep) is Ok,
    ensures
        array_at(whole, p, keep) == array_at(b, p, keep),
        (array_at(b, p, keep)->Ok_0).1 >= 0,
{
    lemma_number_in_whole(whole, b, p, 4);
    lemma_number_in_whole(whole, b, p + 4, 8);
    let ty = le(b, p, 4) as u32;
    let n = le(b, p + 4, 8);
    let r = p + 12;
    let number = ty <= 6 || ty == 10 || ty == 11 || ty == 12;
    if keep && n <= MAX_METADATA_ARRAY && number {
        let w = width_of(ty)->0 as nat;
        assert(0 <= n * w) by (nonlinear_arith)
            requires
                0 <= n,
                0 <= w,
        ;
        lemma_elements_in_whole(whole, b, r, w, n);
        assert(wide_elements(whole, r, w, n) =~= wide_elements(b, r, w, n));
        assert(narrow_elements(whole, r, w, n) =~= narrow_elements(b, r, w, n));
        assert(signed_elements(whole, r, w, n) =~= signed_elements(b, r, w, n));
    } else if ty == 8 {
        lemma_strings_in_whole(whole, b, r, n);
    } else {
        let w = width_of(ty)->0 as nat;
        assert(0 <= w * n) by (nonlinear_arith)
            requires
                0 <= n,
                0 <= w,
        ;
    }
}

proof fn lemma_entry_in_whole(whole: Seq<u8>, b: Seq<u8>, p: int)
    requires
        begins(whole, b),
        p >= 0,
        entry_at(b, p) is Ok,
    ensures
        entry_at(whole, p) == entry_at(b, p),
        (entry_at(b, p)->Ok_0).1 >= 0,
{
    lemma_string_in_whole(whole, b, p);
    let (key, q) = string_at(b, p)->Ok_0;
    lemma_number_in_whole(whole, b, q, 4);
    let ty = le(b, q, 4) as u32;
    let r = q + 4;
    if ty == 8 {
        lemma_string_in_whole(whole, b, r);
    } else if ty == 9 {
        lemma_array_in_whole(whole, b, r, keeps(key));
    } else {
        lemma_number_in_whole(whole, b, r, width_of(ty)->0 as nat);
    }
}

proof fn lemma_entries_in_whole(
    whole: Seq<u8>,
    b: Seq<u8>,
    p: int,
    n: nat,
    done: Seq<(Seq<char>, ValueView)>,
)
    requires
        begins(whole, b),
        p >= 0,
        entries_at(b, p, n, done) is Ok,
    ensures
        entries_at(whole, p, n, done) == entries_at(b, p, n, done),
        (entries_at(b, p, n, done)->Ok_0).1 >= 0,
    decreases n,
{
    if n > 0 {
        lemma_entry_in_whole(whole, b, p);
        let (kv, q) = entry_at(b, p)->Ok_0;
        lemma_entries_in_whole(whole, b, q, (n - 1) as nat, done.push(kv));
    }
}

proof fn lemma_listed_in_whole(whole: Seq<u8>, b: Seq<u8>, p: int)
    requires
        begins(whole, b),
        p >= 0,
        listed_at(b, p) is Ok,
    ensures
        listed_at(whole, p) == listed_at(b, p),
        (listed_at(b, p)->Ok_0).1 >= 0,
{
    lemma_string_in_whole(whole, b, p);
    let (name, q) = string_at(b, p)->Ok_0;
    lemma_number_in_whole(whole, b, q, 4);
    let rank = le(b, q, 4);
    let r = q + 4;
    lemma_elements_in_whole(whole, b, r, 8, rank);
    assert(dims_at(whole, r, rank) =~= dims_at(b, r, rank));
    lemma_number_in_whole(whole, b, r + 8 * rank, 4);
    lemma_number_in_whole(whole, b, r + 8 * rank + 4, 8);
}

proof fn lemma_all_listed_in_whole(
    whole: Seq<u8>,
    b: Seq<u8>,
    p: int,
    n: nat,
    done: Seq<ListedView>,
)
    requires
        begins(whole, b),
        p >= 0,
        all_listed_at(b, p, n, done) is Ok,
    ensures
        all_listed_at(whole, p, n, done) == all_listed_at(b, p, n, done),
    decreases n,
{
    if n > 0 {
        lemma_listed_in_whole(whole, b, p);
        let (t, q) = listed_at(b, p)->Ok_0;
        lemma_all_listed_in_whole(whole, b, q, (n - 1) as nat, done.push(t));
    }
}

/// The header decides alone: what is read from the bytes that a file begins with is what would be
/// read from all of it, so no file has to be held to be opened.
pub proof fn law_the_header_suffices(whole: Seq<u8>, b: Seq<u8>, file: int, shard: int)
    requires
        begins(whole, b),
        file_spec(b, file, shard) is Ok,
    ensures
        file_spec(whole, file, shard) == file_spec(b, file, shard),
{
    lemma_number_in_whole(whole, b, 0, 4);
    lemma_number_in_whole(whole, b, 4, 4);
    lemma_number_in_whole(whole, b, 8, 8);
    lemma_number_in_whole(whole, b, 16, 8);
    let tensor_count = le(b, 8, 8);
    let kv_count = le(b, 16, 8);
    lemma_entries_in_whole(whole, b, 24, kv_count, Seq::empty());
    let (metadata, q) = entries_at(b, 24, kv_count, Seq::empty())->Ok_0;
    lemma_all_listed_in_whole(whole, b, q, tensor_count, Seq::empty());
}

} // verus!
