//! Packages of compiled weights: what their records hold, and what is checked of them.

use vstd::prelude::*;
use vstd::string::StringExecFns;

use crate::bytes::{copy_range, le, lemma_bases, read_le, signed};
use crate::gguf::{element, to_signed};
use crate::text::{
    chars_of, decimal, parse_small_signed, push_decimal, small_signed, starts_with,
    starts_with_spec,
};

verus! {

/// What the names of a converted checkpoint start with.
pub open spec fn hf_prefix() -> Seq<char> {
    "model.language_model."@
}

/// One matrix of an expert as it is stored for the device: tiles, scales, shape and format.
#[derive(Clone, Debug)]
pub struct RawExpert {
    pub tiles: Vec<u8>,
    pub scales: Vec<u8>,
    pub rows: usize,
    pub cols: usize,
    pub fmt: i32,
}

/// An expert in a device slot: where its three matrices are in the slot, the address of the slot, the
/// load that fills it, and the matrices as brain floats once they have been unpacked.
pub struct SlotExpert {
    pub slot: i32,
    pub gate_bytes: usize,
    pub up_offset: usize,
    pub up_bytes: usize,
    pub down_offset: usize,
    pub down_bytes: usize,
    pub address: u64,
    pub pending: i64,
    pub unpacked: Option<[Vec<u8>; 3]>,
    pub rows: [usize; 3],
    pub cols: [usize; 3],
}

/// Where the matrices of an expert are, without the slot's ownership.
pub struct SlotRef {
    pub slot: i32,
    pub gate_bytes: usize,
    pub up_offset: usize,
    pub up_bytes: usize,
    pub down_offset: usize,
    pub down_bytes: usize,
    pub address: u64,
    pub rows: [usize; 3],
    pub cols: [usize; 3],
}

impl SlotExpert {
    /// Where the matrices are.
    pub fn ref_view(&self) -> (r: SlotRef)
        ensures
            r == (SlotRef {
                slot: self.slot,
                gate_bytes: self.gate_bytes,
                up_offset: self.up_offset,
                up_bytes: self.up_bytes,
                down_offset: self.down_offset,
                down_bytes: self.down_bytes,
                address: self.address,
                rows: self.rows,
                cols: self.cols,
            }),
    {
        SlotRef {
            slot: self.slot,
            gate_bytes: self.gate_bytes,
            up_offset: self.up_offset,
            up_bytes: self.up_bytes,
            down_offset: self.down_offset,
            down_bytes: self.down_bytes,
            address: self.address,
            rows: self.rows,
            cols: self.cols,
        }
    }

    /// Gives up the slot: which one is to be handed back to the device, if any still is.
    pub fn release(&mut self) -> (r: Option<i32>)
        ensures
            r == (if old(self).slot >= 0 {
                Some(old(self).slot)
            } else {
                None
            }),
            final(self).slot == (if old(self).slot >= 0 {
                -1
            } else {
                old(self).slot as int
            }),
            final(self).gate_bytes == old(self).gate_bytes,
            final(self).up_offset == old(self).up_offset,
            final(self).up_bytes == old(self).up_bytes,
            final(self).down_offset == old(self).down_offset,
            final(self).down_bytes == old(self).down_bytes,
            final(self).address == old(self).address,
            final(self).pending == old(self).pending,
            final(self).unpacked == old(self).unpacked,
            final(self).rows == old(self).rows,
            final(self).cols == old(self).cols,
    {
        if self.slot >= 0 {
            let slot: i32 = self.slot;
            self.slot = -1;
            Some(slot)
        } else {
            None
        }
    }
}

/// A matrix of brain floats: its bytes, and its shape.
pub struct ColiWt {
    pub bytes: Vec<u8>,
    pub o: usize,
    pub i: usize,
}

/// Why a payload is not what was asked for: its length, and the length that was expected.
#[derive(Clone, Copy, Debug, PartialEq, Eq, Structural)]
pub struct PayloadFault {
    pub bytes: usize,
    pub expected: usize,
}

/// The names under which a record is looked for, in order.
pub fn record_names(name: &str) -> (r: (String, String))
    ensures
        r.0@ == hf_prefix() + name@,
        r.1@ == name@,
{
    let mut first: String = String::from_str("model.language_model.");
    first.append(name);
    (first, String::from_str(name))
}

/// Checks the payload of a vector of `want` brain floats.
pub fn vec_payload(payload: Vec<u8>, want: usize) -> (r: Result<Vec<u8>, PayloadFault>)
    requires
        want * 2 <= usize::MAX,
    ensures
        match r {
            Ok(p) => p@ == payload@ && payload.len() == want * 2,
            Err(f) => payload.len() != want * 2 && f == (PayloadFault {
                bytes: payload.len(),
                expected: (want * 2) as usize,
            }),
        },
{
    if payload.len() != want * 2 {
        return Err(PayloadFault { bytes: payload.len(), expected: want * 2 });
    }
    Ok(payload)
}

/// Checks the payload of a matrix of `o` rows of `i` brain floats.
pub fn wt_payload(payload: Vec<u8>, o: usize, i: usize) -> (r: Result<ColiWt, PayloadFault>)
    requires
        o * i * 2 <= usize::MAX,
    ensures
        match r {
            Ok(m) => m.bytes@ == payload@ && m.o == o && m.i == i && payload.len() == o * i * 2,
            Err(f) => payload.len() != o * i * 2 && f == (PayloadFault {
                bytes: payload.len(),
                expected: (o * i * 2) as usize,
            }),
        },
{
    assert(o * i <= usize::MAX);
    let want: usize = o * i * 2;
    if payload.len() != want {
        return Err(PayloadFault { bytes: payload.len(), expected: want });
    }
    Ok(ColiWt { bytes: payload, o, i })
}

/// The eight bytes that the record of an expert starts with.
pub open spec fn expert_magic() -> Seq<u8> {
    seq![0x43u8, 0x4f, 0x4c, 0x49, 0x45, 0x58, 0x50, 0x54]
}

/// What the record of an expert says of one of its matrices.
#[derive(Clone, Copy, Debug, PartialEq, Eq, Structural)]
pub struct MatrixDesc {
    pub role: u16,
    pub math: u16,
    pub scale: u16,
    pub codec: u16,
    pub rows: u64,
    pub cols: u64,
    pub table: u32,
    pub w_off: u64,
    pub w_stored: u64,
    pub w_decoded: u64,
    pub s_off: u64,
    pub s_stored: u64,
}

/// The description of a matrix, its bytes from `d` on.
pub open spec fn desc_at(raw: Seq<u8>, d: int) -> MatrixDesc {
    MatrixDesc {
        role: le(raw, d, 2) as u16,
        math: le(raw, d + 4, 2) as u16,
        scale: le(raw, d + 6, 2) as u16,
        codec: le(raw, d + 8, 2) as u16,
        rows: le(raw, d + 16, 8) as u64,
        cols: le(raw, d + 24, 8) as u64,
        table: le(raw, d + 40, 4) as u32,
        w_off: le(raw, d + 48, 8) as u64,
        w_stored: le(raw, d + 56, 8) as u64,
        w_decoded: le(raw, d + 64, 8) as u64,
        s_off: le(raw, d + 72, 8) as u64,
        s_stored: le(raw, d + 80, 8) as u64,
    }
}

/// Whether the weights that a description names are in the record.
pub open spec fn weights_inside(d: MatrixDesc, len: int) -> bool {
    d.w_off + d.w_stored <= len
}

/// Whether the scales that a description names are in the record.
pub open spec fn scales_inside(d: MatrixDesc, len: int) -> bool {
    d.s_off + d.s_stored <= len
}

/// Where the description of matrix `i` starts.
pub open spec fn desc_place(raw: Seq<u8>, i: int) -> int {
    64 + i * le(raw, 28, 4)
}

/// Whether a record is that of an expert, by its first bytes.
pub open spec fn expert_record(raw: Seq<u8>) -> bool {
    raw.len() >= 32 && raw.take(8) == expert_magic()
}

/// The description of matrix `i`, where the record holds it and the weights that it names.
pub open spec fn matrix_desc(raw: Seq<u8>, i: int) -> Option<MatrixDesc> {
    let d = desc_at(raw, desc_place(raw, i));
    if desc_place(raw, i) + 88 <= raw.len() && weights_inside(d, raw.len() as int) {
        Some(d)
    } else {
        None
    }
}

fn read_desc(raw: &[u8], d: usize) -> (m: MatrixDesc)
    requires
        d + 88 <= raw.len(),
    ensures
        m == desc_at(raw@, d as int),
{
    proof {
        lemma_bases();
    }
    MatrixDesc {
        role: read_le(raw, d, 2) as u16,
        math: read_le(raw, d + 4, 2) as u16,
        scale: read_le(raw, d + 6, 2) as u16,
        codec: read_le(raw, d + 8, 2) as u16,
        rows: read_le(raw, d + 16, 8),
        cols: read_le(raw, d + 24, 8),
        table: read_le(raw, d + 40, 4) as u32,
        w_off: read_le(raw, d + 48, 8),
        w_stored: read_le(raw, d + 56, 8),
        w_decoded: read_le(raw, d + 64, 8),
        s_off: read_le(raw, d + 72, 8),
        s_stored: read_le(raw, d + 80, 8),
    }
}

/// Whether a record is that of an expert.
pub fn is_expert_record(raw: &[u8]) -> (r: bool)
    ensures
        r == expert_record(raw@),
{
    if raw.len() < 32 {
        return false;
    }
    let magic: [u8; 8] = [0x43u8, 0x4f, 0x4c, 0x49, 0x45, 0x58, 0x50, 0x54];
    let mut k: usize = 0;
    while k < 8
        invariant
            k <= 8,
            raw.len() >= 32,
            magic@ == expert_magic(),
            forall|j: int| 0 <= j < k ==> raw@[j] == expert_magic()[j],
        decreases 8 - k,
    {
        if raw[k] != magic[k] {
            assert(raw@.take(8)[k as int] != expert_magic()[k as int]);
            return false;
        }
        k += 1;
    }
    assert(raw@.take(8) =~= expert_magic());
    true
}

/// The description of matrix `i` of an expert, where the record holds it and its weights.
pub fn expert_desc(raw: &[u8], i: usize) -> (r: Option<MatrixDesc>)
    requires
        raw.len() >= 32,
        i < 3,
    ensures
        r == matrix_desc(raw@, i as int),
{
    proof {
        lemma_bases();
    }
    let size: u64 = read_le(raw, 28, 4);
    let len: u64 = raw.len() as u64;
    assert(i * size <= 2 * size && 0 <= i * size) by (nonlinear_arith)
        requires
            0 <= i < 3,
            0 <= size,
    ;
    let at: u64 = 64 + i as u64 * size;
    if at + 88 > len {
        return None;
    }
    let d: MatrixDesc = read_desc(raw, at as usize);
    if d.w_off > len || d.w_stored > len - d.w_off {
        return None;
    }
    Some(d)
}

/// Whether the scales that a description names are in a record of `len` bytes.
pub fn holds_scales(d: &MatrixDesc, len: usize) -> (r: bool)
    ensures
        r == scales_inside(*d, len as int),
{
    let n: u64 = len as u64;
    d.s_off <= n && d.s_stored <= n - d.s_off
}

/// How the weights of a matrix are stored, and so how they become brain floats or tiles.
#[derive(Clone, Copy, Debug, PartialEq, Eq, Structural)]
pub enum MatrixCodec {
    /// Brain floats as they are.
    Brain,
    /// Groups of 4-bit numbers with their scales.
    Int4,
    /// Compressed tiles.
    PackedTiles,
    /// Tiles as they are.
    Tiles,
}

/// Why a matrix cannot be loaded.
#[derive(Clone, Copy, Debug, PartialEq, Eq, Structural)]
pub enum MatrixFault {
    /// The tiles are not as long as announced.
    TileSize,
    /// No format that is known, or none that the device takes as it is.
    Unsupported { math: u16, scale: u16 },
}

/// How a matrix is turned into brain floats. `int4` is the pair of math and scale formats of 4-bit
/// groups, `packed` the number of the codec of compressed tiles.
pub open spec fn matrix_codec(d: MatrixDesc, int4: (u16, u16), packed: u16) -> Result<
    MatrixCodec,
    MatrixFault,
> {
    if d.math == 0x0003 && d.scale == 0 {
        Ok(MatrixCodec::Brain)
    } else if d.math == int4.0 && d.scale == int4.1 {
        Ok(MatrixCodec::Int4)
    } else if d.math == 0x0020 && d.scale == 4 {
        if d.codec == packed {
            Ok(MatrixCodec::PackedTiles)
        } else if d.w_stored != d.w_decoded {
            Err(MatrixFault::TileSize)
        } else {
            Ok(MatrixCodec::Tiles)
        }
    } else {
        Err(MatrixFault::Unsupported { math: d.math, scale: d.scale })
    }
}

/// How a matrix is turned into brain floats.
pub fn expert_matrix(d: &MatrixDesc, int4: (u16, u16), packed: u16) -> (r: Result<
    MatrixCodec,
    MatrixFault,
>)
    ensures
        r == matrix_codec(*d, int4, packed),
{
    if d.math == 0x0003 && d.scale == 0 {
        Ok(MatrixCodec::Brain)
    } else if d.math == int4.0 && d.scale == int4.1 {
        Ok(MatrixCodec::Int4)
    } else if d.math == 0x0020 && d.scale == 4 {
        if d.codec == packed {
            Ok(MatrixCodec::PackedTiles)
        } else if d.w_stored != d.w_decoded {
            Err(MatrixFault::TileSize)
        } else {
            Ok(MatrixCodec::Tiles)
        }
    } else {
        Err(MatrixFault::Unsupported { math: d.math, scale: d.scale })
    }
}

/// Why an expert cannot be loaded.
#[derive(Clone, Copy, Debug, PartialEq, Eq, Structural)]
pub enum ExpertFault {
    /// The record is not that of an expert.
    NotAnExpert,
    /// The record does not hold what is to be read of a matrix.
    Outside { matrix: usize },
    /// A matrix is stored in no way that is known.
    Matrix { matrix: usize, fault: MatrixFault },
}

/// Matrix `i` of an expert and how it becomes brain floats. Its scales are looked at only where they
/// are needed: for groups of 4-bit numbers.
pub open spec fn matrix_of(raw: Seq<u8>, i: int, int4: (u16, u16), packed: u16) -> Result<
    (MatrixDesc, MatrixCodec),
    ExpertFault,
> {
    match matrix_desc(raw, i) {
        None => Err(ExpertFault::Outside { matrix: i as usize }),
        Some(d) => match matrix_codec(d, int4, packed) {
            Err(fault) => Err(ExpertFault::Matrix { matrix: i as usize, fault }),
            Ok(codec) => if codec is Int4 && !scales_inside(d, raw.len() as int) {
                Err(ExpertFault::Outside { matrix: i as usize })
            } else {
                Ok((d, codec))
            },
        },
    }
}

/// Matrix `i` of an expert and how it becomes brain floats.
pub fn expert_matrix_at(raw: &[u8], i: usize, int4: (u16, u16), packed: u16) -> (r: Result<
    (MatrixDesc, MatrixCodec),
    ExpertFault,
>)
    requires
        raw.len() >= 32,
        i < 3,
    ensures
        r == matrix_of(raw@, i as int, int4, packed),
{
    match expert_desc(raw, i) {
        None => Err(ExpertFault::Outside { matrix: i }),
        Some(d) => match expert_matrix(&d, int4, packed) {
            Err(fault) => Err(ExpertFault::Matrix { matrix: i, fault }),
            Ok(codec) => if codec == MatrixCodec::Int4 && !holds_scales(&d, raw.len()) {
                Err(ExpertFault::Outside { matrix: i })
            } else {
                Ok((d, codec))
            },
        },
    }
}

/// The three matrices of an expert and how each becomes brain floats. The first matrix that cannot
/// be loaded is the one that is named.
pub fn expert_matrices(raw: &[u8], int4: (u16, u16), packed: u16) -> (r: Result<
    [(MatrixDesc, MatrixCodec); 3],
    ExpertFault,
>)
    ensures
        match r {
            Ok(m) => expert_record(raw@) && forall|i: int|
                0 <= i < 3 ==> Ok::<(MatrixDesc, MatrixCodec), ExpertFault>(#[trigger] m[i])
                    == matrix_of(raw@, i, int4, packed),
            Err(f) => if !expert_record(raw@) {
                f == ExpertFault::NotAnExpert
            } else {
                exists|i: int|
                    {
                        &&& 0 <= i < 3
                        &&& #[trigger] matrix_of(raw@, i, int4, packed) == Err::<
                            (MatrixDesc, MatrixCodec),
                            ExpertFault,
                        >(f)
                        &&& forall|j: int|
                            0 <= j < i ==> #[trigger] matrix_of(raw@, j, int4, packed) is Ok
                    }
            },
        },
{
    if !is_expert_record(raw) {
        return Err(ExpertFault::NotAnExpert);
    }
    let a: (MatrixDesc, MatrixCodec) = match expert_matrix_at(raw, 0, int4, packed) {
        Ok(m) => m,
        Err(f) => {
            return Err(f);
        },
    };
    let b: (MatrixDesc, MatrixCodec) = match expert_matrix_at(raw, 1, int4, packed) {
        Ok(m) => m,
        Err(f) => {
            assert(matrix_of(raw@, 0, int4, packed) is Ok);
            return Err(f);
        },
    };
    let c: (MatrixDesc, MatrixCodec) = match expert_matrix_at(raw, 2, int4, packed) {
        Ok(m) => m,
        Err(f) => {
            assert(matrix_of(raw@, 0, int4, packed) is Ok);
            assert(matrix_of(raw@, 1, int4, packed) is Ok);
            return Err(f);
        },
    };
    Ok([a, b, c])
}

/// The format number of tiles on the device.
pub const TILE_FORMAT: i32 = 7;

/// One matrix of an expert for the device: the tiles as they are stored, or as `unpacked` gives them
/// where they are compressed.
pub fn expert_tile(raw: &[u8], d: &MatrixDesc, packed: u16, unpacked: Option<Vec<u8>>) -> (r: Result<
    RawExpert,
    MatrixFault,
>)
    requires
        weights_inside(*d, raw.len() as int),
        scales_inside(*d, raw.len() as int),
        d.rows <= usize::MAX,
        d.cols <= usize::MAX,
        d.math == 0x0020 && d.scale == 4 && d.codec == packed ==> unpacked is Some,
    ensures
        match r {
            Ok(m) => {
                &&& d.math == 0x0020 && d.scale == 4
                &&& m.tiles@ == (if d.codec == packed {
                    unpacked->0@
                } else {
                    raw@.subrange(d.w_off as int, d.w_off + d.w_stored)
                })
                &&& m.scales@ == raw@.subrange(d.s_off as int, d.s_off + d.s_stored)
                &&& m.rows == d.rows
                &&& m.cols == d.cols
                &&& m.fmt == TILE_FORMAT
            },
            Err(f) => !(d.math == 0x0020 && d.scale == 4) && f == (MatrixFault::Unsupported {
                math: d.math,
                scale: d.scale,
            }),
        },
{
    if d.math != 0x0020 || d.scale != 4 {
        return Err(MatrixFault::Unsupported { math: d.math, scale: d.scale });
    }
    let scales = copy_range(raw, d.s_off as usize, d.s_stored as usize);
    let tiles: Vec<u8> = if d.codec == packed {
        match unpacked {
            Some(t) => t,
            None => Vec::new(),
        }
    } else {
        copy_range(raw, d.w_off as usize, d.w_stored as usize)
    };
    Ok(
        RawExpert {
            tiles,
            scales,
            rows: d.rows as usize,
            cols: d.cols as usize,
            fmt: TILE_FORMAT,
        },
    )
}

/// The first dot of a text from `i` on.
pub open spec fn first_dot(s: Seq<char>, i: int) -> Option<int>
    decreases s.len() - i,
{
    if i < 0 || i >= s.len() {
        None
    } else if s[i] == '.' {
        Some(i)
    } else {
        first_dot(s, i + 1)
    }
}

/// Whether a text holds another.
pub open spec fn holds_text(s: Seq<char>, p: Seq<char>) -> bool {
    exists|i: int| 0 <= i && i + p.len() <= s.len() && #[trigger] s.subrange(i, i + p.len()) == p
}

/// The layer that a record of the embedding by token pairs belongs to: the number in its name
/// `layers.N.`, where the name also holds `.ple.`.
pub open spec fn ple_layer_of(name: Seq<char>) -> Option<int> {
    let p = "layers."@;
    if !starts_with_spec(name, p) {
        None
    } else {
        let rest = name.skip(p.len() as int);
        match first_dot(rest, 0) {
            None => None,
            Some(dot) => match small_signed(rest.take(dot)) {
                None => None,
                Some(n) => if holds_text(name, ".ple."@) {
                    Some(n)
                } else {
                    None
                },
            },
        }
    }
}

/// The layer of the first record of the embedding by token pairs.
pub open spec fn first_ple_layer(names: Seq<Option<String>>, i: int) -> Option<int>
    decreases names.len() - i,
{
    if i < 0 || i >= names.len() {
        None
    } else {
        match names[i] {
            Some(s) => match ple_layer_of(s@) {
                Some(n) => Some(n),
                None => first_ple_layer(names, i + 1),
            },
            None => first_ple_layer(names, i + 1),
        }
    }
}

fn find_text(s: &Vec<char>, p: &Vec<char>) -> (r: bool)
    ensures
        r == holds_text(s@, p@),
{
    if p.len() > s.len() {
        return false;
    }
    let last: usize = s.len() - p.len();
    let mut i: usize = 0;
    loop
        invariant
            i <= last,
            last == s.len() - p.len(),
            p.len() <= s.len(),
            forall|k: int| 0 <= k < i ==> #[trigger] s@.subrange(k, k + p.len()) != p@,
        decreases last - i,
    {
        let mut j: usize = 0;
        while j < p.len() && s[i + j] == p[j]
            invariant
                j <= p.len(),
                i <= last,
                last == s.len() - p.len(),
                p.len() <= s.len(),
                forall|k: int| 0 <= k < j ==> s@[i + k] == p@[k],
            decreases p.len() - j,
        {
            j += 1;
        }
        if j == p.len() {
            assert(s@.subrange(i as int, i + p.len()) =~= p@);
            return true;
        }
        assert(s@.subrange(i as int, i + p.len())[j as int] != p@[j as int]);
        if i == last {
            return false;
        }
        i += 1;
    }
}

fn layer_of_name(name: &str) -> (r: Option<i32>)
    ensures
        match r {
            Some(n) => ple_layer_of(name@) == Some(n as int),
            None => ple_layer_of(name@) is None,
        },
{
    let v = chars_of(name);
    let p = chars_of("layers.");
    if p.len() > v.len() {
        return None;
    }
    let mut i: usize = 0;
    while i < p.len()
        invariant
            i <= p.len() <= v.len(),
            v@ == name@,
            p@ == "layers."@,
            forall|j: int| 0 <= j < i ==> v[j] == p[j],
        decreases p.len() - i,
    {
        if v[i] != p[i] {
            assert(name@.take(p@.len() as int)[i as int] != p@[i as int]);
            return None;
        }
        i += 1;
    }
    assert(name@.take(p@.len() as int) =~= p@);
    let ghost rest = name@.skip(p@.len() as int);
    let mut number: Vec<char> = Vec::new();
    let mut k: usize = p.len();
    while k < v.len() && v[k] != '.'
        invariant
            p.len() <= k <= v.len(),
            v@ == name@,
            rest == name@.skip(p@.len() as int),
            number@ == rest.take(k - p.len()),
            first_dot(rest, 0) == first_dot(rest, k - p.len()),
        decreases v.len() - k,
    {
        assert(rest[k - p.len()] == v@[k as int]);
        number.push(v[k]);
        k += 1;
        assert(number@ =~= rest.take(k - p.len()));
    }
    if k == v.len() {
        return None;
    }
    assert(rest[k - p.len()] == '.');
    match parse_small_signed(&number) {
        None => None,
        Some(n) => if find_text(&v, &chars_of(".ple.")) {
            Some(n)
        } else {
            None
        },
    }
}

/// The layer of the first record of the embedding by token pairs.
pub fn ple_layer(names: &Vec<Option<String>>) -> (r: Option<i32>)
    ensures
        match r {
            Some(n) => first_ple_layer(names@, 0) == Some(n as int),
            None => first_ple_layer(names@, 0) is None,
        },
{
    let mut i: usize = 0;
    while i < names.len()
        invariant
            i <= names.len(),
            first_ple_layer(names@, 0) == first_ple_layer(names@, i as int),
        decreases names.len() - i,
    {
        if let Some(s) = &names[i] {
            if let Some(n) = layer_of_name(s.as_str()) {
                return Some(n);
            }
        }
        i += 1;
    }
    None
}

/// The signed 64-bit numbers of a payload, where it is a whole number of them.
pub fn i64_tensor(payload: &[u8]) -> (r: Option<Vec<i64>>)
    ensures
        match r {
            Some(v) => payload.len() % 8 == 0 && v@ == Seq::new(
                (payload.len() / 8) as nat,
                |i: int| signed(element(payload@, 0, 8, i), 8) as i64,
            ),
            None => payload.len() % 8 != 0,
        },
{
    if payload.len() % 8 != 0 {
        return None;
    }
    let mut v: Vec<i64> = Vec::new();
    let n: usize = payload.len() / 8;
    let mut i: usize = 0;
    while i < n
        invariant
            i <= n,
            n * 8 == payload.len(),
            v.len() == i,
            forall|j: int|
                0 <= j < i ==> #[trigger] v[j] == signed(element(payload@, 0, 8, j), 8),
        decreases n - i,
    {
        let x: u64 = read_le(payload, i * 8, 8);
        v.push(to_signed(x, 8));
        i += 1;
    }
    assert(v@ =~= Seq::new(n as nat, |i: int| signed(element(payload@, 0, 8, i), 8) as i64));
    Some(v)
}

/// What the index of a package says of a record.
pub struct RecordEntry {
    pub kind: u32,
    pub name: Option<String>,
    pub decoded: u64,
}

/// The kind of the records of tensors.
pub const TENSOR_RECORD: u32 = 1;

/// A number in decimal, with its sign where it is negative.
pub open spec fn signed_decimal(n: int) -> Seq<char> {
    if n < 0 {
        "-"@ + decimal((-n) as nat)
    } else {
        decimal(n as nat)
    }
}

/// The name of a tensor of the embedding by token pairs.
pub open spec fn embedding_name(layer: i32, rest: Seq<char>) -> Seq<char> {
    "layers."@ + signed_decimal(layer as int) + ".ple.ple_embedding."@ + rest
}

/// The name of a tensor of the embedding by token pairs.
pub fn embedding_tensor(layer: i32, rest: &str) -> (r: String)
    ensures
        r@ == embedding_name(layer, rest@),
{
    let mut s: String = String::from_str("layers.");
    if layer < 0 {
        s.append("-");
        push_decimal(&mut s, (0 - layer as i64) as u64);
        assert(s@ =~= "layers."@ + signed_decimal(layer as int));
    } else {
        push_decimal(&mut s, layer as u64);
    }
    s.append(".ple.ple_embedding.");
    s.append(rest);
    s
}

/// Whether a record is a shard of the embedding by token pairs of `layer`.
pub open spec fn is_ngram_shard(rec: RecordEntry, layer: i32) -> bool {
    rec.kind == TENSOR_RECORD && match rec.name {
        Some(n) => starts_with_spec(n@, embedding_name(layer, "ngram_embedding.shard_"@)),
        None => false,
    }
}

/// The places of the shards in the index, in its order.
pub open spec fn ngram_shards(records: Seq<RecordEntry>, layer: i32) -> Seq<int>
    decreases records.len(),
{
    if records.len() == 0 {
        Seq::empty()
    } else {
        let before = ngram_shards(records.drop_last(), layer);
        if is_ngram_shard(records.last(), layer) {
            before.push(records.len() - 1)
        } else {
            before
        }
    }
}

/// Where a row of the embedding by token pairs is: the place of its shard in the index, the offset in
/// the shard's payload, and how long the row is.
#[derive(Clone, Copy, Debug, PartialEq, Eq, Structural)]
pub struct NgramRow {
    pub record: usize,
    pub offset: u64,
    pub bytes: usize,
}

/// Why there is no such row.
#[derive(Clone, Copy, Debug, PartialEq, Eq, Structural)]
pub enum NgramFault {
    /// The package has no shards for the layer.
    NoShards,
    /// The row lies behind the last shard.
    OutOfRange { shards: usize },
}

/// Where row `r` is, each shard holding as many rows of `row_bytes` bytes as the first.
pub open spec fn ngram_row(records: Seq<RecordEntry>, layer: i32, r: u64, row_bytes: usize) -> Result<
    NgramRow,
    NgramFault,
> {
    let shards = ngram_shards(records, layer);
    let per_shard = records[shards[0]].decoded as int / row_bytes as int;
    if shards.len() == 0 {
        Err(NgramFault::NoShards)
    } else if r as int / per_shard < shards.len() {
        Ok(
            NgramRow {
                record: shards[r as int / per_shard] as usize,
                offset: ((r as int % per_shard) * row_bytes) as u64,
                bytes: row_bytes,
            },
        )
    } else {
        Err(NgramFault::OutOfRange { shards: shards.len() as usize })
    }
}

/// The places of the shards of a layer in the index.
fn find_shards(records: &Vec<RecordEntry>, layer: i32) -> (out: Vec<usize>)
    ensures
        out.len() == ngram_shards(records@, layer).len(),
        forall|k: int|
            0 <= k < out.len() ==> #[trigger] out[k] == ngram_shards(records@, layer)[k] && out[k]
                < records.len(),
{
    let prefix: String = embedding_tensor(layer, "ngram_embedding.shard_");
    let mut out: Vec<usize> = Vec::new();
    let mut i: usize = 0;
    while i < records.len()
        invariant
            i <= records.len(),
            prefix@ == embedding_name(layer, "ngram_embedding.shard_"@),
            out.len() == ngram_shards(records@.take(i as int), layer).len(),
            forall|k: int|
                0 <= k < out.len() ==> #[trigger] out[k] == ngram_shards(
                    records@.take(i as int),
                    layer,
                )[k] && out[k] < i,
        decreases records.len() - i,
    {
        let rec: &RecordEntry = &records[i];
        assert(records@.take(i + 1).drop_last() =~= records@.take(i as int));
        assert(records@.take(i + 1).last() == *rec);
        if rec.kind == TENSOR_RECORD {
            if let Some(n) = &rec.name {
                if starts_with(n.as_str(), prefix.as_str()) {
                    out.push(i);
                }
            }
        }
        i += 1;
    }
    assert(records@.take(records.len() as int) =~= records@);
    out
}

/// Where row `r` of the embedding by token pairs of a layer is.
pub fn ple_ngram_row_f8(records: &Vec<RecordEntry>, layer: i32, r: u64, row_bytes: usize) -> (at: Result<
    NgramRow,
    NgramFault,
>)
    requires
        ngram_shards(records@, layer).len() > 0 ==> 0 < row_bytes <= records[ngram_shards(
            records@,
            layer,
        )[0]].decoded,
    ensures
        at == ngram_row(records@, layer, r, row_bytes),
        at matches Ok(row) ==> row.offset + row_bytes <= records[ngram_shards(
            records@,
            layer,
        )[0]].decoded,
{
    let shards: Vec<usize> = find_shards(records, layer);
    if shards.len() == 0 {
        return Err(NgramFault::NoShards);
    }
    let bytes: u64 = row_bytes as u64;
    let first: u64 = records[shards[0]].decoded;
    let per_shard: u64 = first / bytes;
    proof {
        vstd::arithmetic::div_mod::lemma_fundamental_div_mod(first as int, bytes as int);
        assert(per_shard >= 1) by (nonlinear_arith)
            requires
                first >= bytes,
                bytes > 0,
                per_shard == first / bytes,
        ;
    }
    let shard: u64 = r / per_shard;
    if shard >= shards.len() as u64 {
        return Err(NgramFault::OutOfRange { shards: shards.len() });
    }
    let within: u64 = r % per_shard;
    proof {
        assert(within * bytes + bytes <= per_shard * bytes && 0 <= within * bytes)
            by (nonlinear_arith)
            requires
                0 <= within < per_shard,
                bytes > 0,
        ;
        assert(per_shard * bytes <= first) by (nonlinear_arith)
            requires
                first == bytes * per_shard + first % bytes,
                first % bytes >= 0,
        ;
    }
    Ok(NgramRow { record: shards[shard as usize], offset: within * bytes, bytes: row_bytes })
}

/// Where a descriptor has its numbers: pairs of bytes for what the matrix is and how it is stored, eight
/// bytes each for its shape and for where its weights and scales are.
pub proof fn law_where_a_descriptor_has_its_numbers(raw: Seq<u8>, d: int)
    ensures
        ({
            let m = desc_at(raw, d);
            &&& m.role == raw[d] + 256 * raw[d + 1]
            &&& m.math == raw[d + 4] + 256 * raw[d + 5]
            &&& m.scale == raw[d + 6] + 256 * raw[d + 7]
            &&& m.codec == raw[d + 8] + 256 * raw[d + 9]
            &&& m.table == raw[d + 40] + 256 * raw[d + 41] + 65536 * raw[d + 42] + 16777216 * raw[d + 43]
            &&& m.rows == le(raw.subrange(d + 16, d + 24), 0, 8) || d < 0 || d + 88 > raw.len()
            &&& m.cols == le(raw.subrange(d + 24, d + 32), 0, 8) || d < 0 || d + 88 > raw.len()
            &&& m.w_off == le(raw.subrange(d + 48, d + 56), 0, 8) || d < 0 || d + 88 > raw.len()
            &&& m.w_stored == le(raw.subrange(d + 56, d + 64), 0, 8) || d < 0 || d + 88 > raw.len()
            &&& m.w_decoded == le(raw.subrange(d + 64, d + 72), 0, 8) || d < 0 || d + 88 > raw.len()
            &&& m.s_off == le(raw.subrange(d + 72, d + 80), 0, 8) || d < 0 || d + 88 > raw.len()
            &&& m.s_stored == le(raw.subrange(d + 80, d + 88), 0, 8) || d < 0 || d + 88 > raw.len()
        }),
{
    lemma_bases();
    reveal_with_fuel(le, 5);
    assert(le(raw, d, 2) == raw[d] + 256 * raw[d + 1]);
    assert(le(raw, d + 4, 2) == raw[d + 4] + 256 * raw[d + 5]);
    assert(le(raw, d + 6, 2) == raw[d + 6] + 256 * raw[d + 7]);
    assert(le(raw, d + 8, 2) == raw[d + 8] + 256 * raw[d + 9]);
    assert(le(raw, d + 40, 4) == raw[d + 40] + 256 * raw[d + 41] + 65536 * raw[d + 42] + 16777216
        * raw[d + 43]);
    if d >= 0 && d + 88 <= raw.len() {
        lemma_eight_bytes(raw, d + 16);
        lemma_eight_bytes(raw, d + 24);
        lemma_eight_bytes(raw, d + 48);
        lemma_eight_bytes(raw, d + 56);
        lemma_eight_bytes(raw, d + 64);
        lemma_eight_bytes(raw, d + 72);
        lemma_eight_bytes(raw, d + 80);
    }
}

proof fn lemma_eight_bytes(raw: Seq<u8>, p: int)
    requires
        0 <= p,
        p + 8 <= raw.len(),
    ensures
        le(raw, p, 8) == le(raw.subrange(p, p + 8), 0, 8),
        le(raw, p, 8) <= u64::MAX,
{
    let part = raw.subrange(p, p + 8);
    assert forall|i: int| 0 <= i < 8 implies #[trigger] raw[p + i] == part[0 + i] by {}
    crate::bytes::lemma_le_same(raw, p, part, 0, 8);
    crate::bytes::lemma_le_bound(raw, p, 8);
    lemma_bases();
}

/// The descriptors of an expert stand one behind the other from the sixty-fourth byte on, as far apart as
/// its header says.
pub proof fn law_descriptors_stand_evenly(raw: Seq<u8>, i: int)
    ensures
        desc_place(raw, 0) == 64,
        desc_place(raw, i + 1) - desc_place(raw, i) == le(raw, 28, 4),
        matrix_desc(raw, i) is Some ==> desc_place(raw, i) + 88 <= raw.len() && (matrix_desc(
            raw,
            i,
        )->0).w_off + (matrix_desc(raw, i)->0).w_stored <= raw.len(),
{
    let s = le(raw, 28, 4) as int;
    assert((i + 1) * s == i * s + s) by (nonlinear_arith);
    assert(0 * s == 0);
}

/// How a matrix is stored is told by its numbers alone: brain floats, codes, tiles, or tiles that are
/// packed; plain tiles are as long as they decode to.
pub proof fn law_how_a_matrix_is_stored(d: MatrixDesc, int4: (u16, u16), packed: u16)
    requires
        !(int4.0 == 3 && int4.1 == 0),
        !(int4.0 == 0x20 && int4.1 == 4),
    ensures
        matrix_codec(d, int4, packed) == Ok::<MatrixCodec, MatrixFault>(MatrixCodec::Brain) <==> d.math
            == 3 && d.scale == 0,
        matrix_codec(d, int4, packed) == Ok::<MatrixCodec, MatrixFault>(MatrixCodec::Int4) <==> d.math
            == int4.0 && d.scale == int4.1,
        matrix_codec(d, int4, packed) == Ok::<MatrixCodec, MatrixFault>(MatrixCodec::PackedTiles)
            <==> d.math == 0x20 && d.scale == 4 && d.codec == packed,
        matrix_codec(d, int4, packed) == Ok::<MatrixCodec, MatrixFault>(MatrixCodec::Tiles) <==> d.math
            == 0x20 && d.scale == 4 && d.codec != packed && d.w_stored == d.w_decoded,
{
}

/// The rows of the table stand one behind the other, through all of its shards: where a row is found, the
/// rows of the shards before it and those before it in its own are as many as its number.
pub proof fn law_rows_of_the_table_stand_one_behind_the_other(
    records: Seq<RecordEntry>,
    layer: i32,
    r: u64,
    row_bytes: usize,
    per: int,
)
    requires
        row_bytes > 0,
        per >= 1,
        ngram_shards(records, layer).len() > 0,
        records[ngram_shards(records, layer)[0]].decoded == per * row_bytes,
    ensures
        ({
            let shards = ngram_shards(records, layer);
            match ngram_row(records, layer, r, row_bytes) {
                Ok(row) => exists|k: int, j: int|
                    {
                        &&& 0 <= k < shards.len() && 0 <= j < per
                        &&& #[trigger] (k * per) + j == r
                        &&& row.record == #[trigger] shards[k] as usize
                        &&& row.offset == (#[trigger] (j * row_bytes)) as u64
                        &&& row.bytes == row_bytes
                    },
                Err(f) => r >= shards.len() * per,
            }
        }),
{
    let shards = ngram_shards(records, layer);
    let w = row_bytes as int;
    vstd::arithmetic::div_mod::lemma_div_multiples_vanish(per, w);
    assert(w * per == per * w) by (nonlinear_arith);
    assert(records[shards[0]].decoded as int / w == per);
    let (k, j) = (r as int / per, r as int % per);
    vstd::arithmetic::div_mod::lemma_fundamental_div_mod(r as int, per);
    vstd::arithmetic::div_mod::lemma_div_pos_is_pos(r as int, per);
    assert(per * k == k * per) by (nonlinear_arith);
    if k < shards.len() {
        assert((k * per) + j == r);
        assert(0 <= k < shards.len() && 0 <= j < per);
        let row = ngram_row(records, layer, r, row_bytes)->Ok_0;
        assert(row.record == shards[k] as usize && row.offset == (j * row_bytes) as u64);
    } else {
        assert(k * per >= shards.len() * per) by (nonlinear_arith)
            requires
                k >= shards.len(),
                per >= 1,
        ;
    }
}

/// The shards of the table are the records that are called so, in the order of the package.
pub proof fn law_shards_are_listed_in_order(records: Seq<RecordEntry>, layer: i32, i: int)
    requires
        0 <= i < records.len(),
    ensures
        ngram_shards(records, layer).contains(i) <==> is_ngram_shard(records[i], layer),
        forall|a: int| 0 <= a < ngram_shards(records, layer).len() ==> 0 <= #[trigger] ngram_shards(
            records,
            layer,
        )[a] < records.len(),
        forall|a: int, b: int|
            0 <= a < b < ngram_shards(records, layer).len() ==> #[trigger] ngram_shards(
                records,
                layer,
            )[a] < #[trigger] ngram_shards(records, layer)[b],
    decreases records.len(),
{
    let short = records.drop_last();
    let n = records.len() - 1;
    let (old, all) = (ngram_shards(short, layer), ngram_shards(records, layer));
    if short.len() > 0 {
        law_shards_are_listed_in_order(short, layer, if i < n {
            i
        } else {
            0
        });
    } else {
        assert(old =~= Seq::empty());
    }
    if i < n {
        assert(short[i] == records[i]);
        if old.contains(i) {
            let a = choose|a: int| 0 <= a < old.len() && old[a] == i;
            assert(all[a] == i);
        }
        if all.contains(i) {
            let a = choose|a: int| 0 <= a < all.len() && all[a] == i;
            assert(old[a] == i);
        }
    } else {
        if is_ngram_shard(records[i], layer) {
            assert(all[all.len() - 1] == i);
        } else if all.contains(i) {
            let a = choose|a: int| 0 <= a < all.len() && all[a] == i;
            assert(old[a] == i);
        }
    }
}

/// An expert begins with eight letters.
pub proof fn law_an_expert_begins_with_its_letters()
    ensures
        expert_magic().len() == 8,
        expert_magic()[0] as char == 'C' && expert_magic()[1] as char == 'O',
        expert_magic()[2] as char == 'L' && expert_magic()[3] as char == 'I',
        expert_magic()[4] as char == 'E' && expert_magic()[5] as char == 'X',
        expert_magic()[6] as char == 'P' && expert_magic()[7] as char == 'T',
{
}

/// A matrix is taken where it is described, stored in a way that is known, and its codes have their scales
/// within the record.
pub proof fn law_which_matrices_are_taken(raw: Seq<u8>, i: int, int4: (u16, u16), packed: u16)
    ensures
        matrix_of(raw, i, int4, packed) is Ok <==> matrix_desc(raw, i) is Some && matrix_codec(
            matrix_desc(raw, i)->0,
            int4,
            packed,
        ) is Ok && (matrix_codec(matrix_desc(raw, i)->0, int4, packed)->Ok_0 is Int4 ==> (matrix_desc(
            raw,
            i,
        )->0).s_off + (matrix_desc(raw, i)->0).s_stored <= raw.len()),
        matrix_of(raw, i, int4, packed) matches Ok((d, codec)) ==> matrix_desc(raw, i) == Some(d)
            && matrix_codec(d, int4, packed) == Ok::<MatrixCodec, MatrixFault>(codec),
{
}

/// A number with a sign reads back, and a text holds what was put into it.
pub proof fn law_signed_numbers_and_parts_of_texts(n: i32, a: Seq<char>, p: Seq<char>, b: Seq<char>)
    ensures
        small_signed(signed_decimal(n as int)) == Some(n as int),
        holds_text(a + p + b, p),
        a.len() < p.len() ==> !holds_text(a, p),
{
    reveal_strlit("-");
    if n < 0 {
        crate::text::law_a_signed_number_reads_back((-n) as nat);
        assert("-"@ =~= seq!['-']);
    } else {
        crate::text::law_a_signed_number_reads_back(n as nat);
    }
    let s = a + p + b;
    let i = a.len() as int;
    assert(s.subrange(i, i + p.len()) =~= p);
}

/// A record is an expert's where it begins with the letters and has the thirty-two bytes of a header.
pub proof fn law_which_records_are_experts(raw: Seq<u8>)
    ensures
        expert_record(raw) <==> raw.len() >= 32 && forall|i: int|
            0 <= i < 8 ==> #[trigger] raw[i] == expert_magic()[i],
{
    if raw.len() >= 32 {
        if forall|i: int| 0 <= i < 8 ==> #[trigger] raw[i] == expert_magic()[i] {
            assert(raw.take(8) =~= expert_magic());
        }
        if raw.take(8) == expert_magic() {
            assert forall|i: int| 0 <= i < 8 implies #[trigger] raw[i] == expert_magic()[i] by {
                assert(raw.take(8)[i] == raw[i]);
            }
        }
    }
}

} // verus!
