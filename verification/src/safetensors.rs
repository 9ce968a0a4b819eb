//! Files of named tensors of single-precision numbers behind a JSON header.
//!
//! A file begins with the length of its header in eight bytes, least significant
//! first, and the header. The header maps names to shapes and to ranges of the
//! bytes behind it.

use vstd::prelude::*;
use vstd::string::*;

use crate::bytes::{le, lemma_le_same, read_le};
use crate::gguf::{begins, checked_product, multiply};
use crate::json::{
    as_array_spec, as_text_spec, as_u64_spec, json_parsed, member, read_json, Json, JsonView,
};
use crate::text::{chars_of, decimal, push_decimal, same_text};

verus! {

/// The most bytes of n-gram rows that are held in memory.
pub const MAX_RESIDENT_PLE_NGRAM_BYTES: usize = 67_108_864;

/// Whether a text ends with another.
pub open spec fn ends_in(s: Seq<char>, end: Seq<char>) -> bool {
    s.len() >= end.len() && s.skip(s.len() - end.len()) == end
}

/// Whether `s` ends with `end`.
pub fn ends_with(s: &str, end: &str) -> (r: bool)
    ensures
        r == ends_in(s@, end@),
{
    let a: Vec<char> = chars_of(s);
    let b: Vec<char> = chars_of(end);
    if a.len() < b.len() {
        return false;
    }
    let from: usize = a.len() - b.len();
    let mut i: usize = 0;
    while i < b.len()
        invariant
            a@ == s@,
            b@ == end@,
            i <= b.len(),
            from + b.len() == a.len(),
            forall|j: int| 0 <= j < i ==> a@[from + j] == #[trigger] b@[j],
        decreases b.len() - i,
    {
        if a[from + i] != b[i] {
            proof {
                assert(s@.skip(from as int)[i as int] == a@[from + i]);
            }
            return false;
        }
        i = i + 1;
    }
    assert(s@.skip(from as int) =~= end@);
    true
}

/// Whether a tensor holds the rows of the n-gram table.
pub open spec fn names_ngram_rows(name: Seq<char>) -> bool {
    ends_in(name, "ple_embedding.ngram_embedding.weight"@) || ends_in(
        name,
        "ple.ngram_embedding.weight"@,
    )
}

/// Whether a tensor holds the rows of the n-gram table.
pub fn is_ple_ngram_weight(name: &str) -> (r: bool)
    ensures
        r == names_ngram_rows(name@),
{
    ends_with(name, "ple_embedding.ngram_embedding.weight") || ends_with(
        name,
        "ple.ngram_embedding.weight",
    )
}

/// What is wrong with a file or a tensor of it.
#[derive(Debug)]
pub enum StFault {
    /// The file is too short for the length of its header.
    Short,
    HeaderOverflow,
    HeaderPastEnd { start: u64, file: u64 },
    NotJson,
    NotAnObject,
    MissingDtype,
    MissingShape,
    InvalidShape,
    MissingOffsets,
    InvalidOffsets,
    InvalidStart,
    InvalidEnd,
    OutsideTheFile,
    /// The elements have another type.
    NotSingle { dtype: String },
    NoTensor,
    Mismatch { shape: Vec<u64>, len: usize, expect: Vec<u64> },
    /// Rows that are to stay on disk.
    TooLargeToHold { len: usize },
    /// The bytes of the tensor have not been read.
    NotRead,
}

/// What a fault says.
pub enum StFaultView {
    Short,
    HeaderOverflow,
    HeaderPastEnd { start: u64, file: u64 },
    NotJson,
    NotAnObject,
    MissingDtype,
    MissingShape,
    InvalidShape,
    MissingOffsets,
    InvalidOffsets,
    InvalidStart,
    InvalidEnd,
    OutsideTheFile,
    NotSingle { dtype: Seq<char> },
    NoTensor,
    Mismatch { shape: Seq<u64>, len: usize, expect: Seq<u64> },
    TooLargeToHold { len: usize },
    NotRead,
}

impl View for StFault {
    type V = StFaultView;

    open spec fn view(&self) -> StFaultView {
        match self {
            StFault::Short => StFaultView::Short,
            StFault::HeaderOverflow => StFaultView::HeaderOverflow,
            StFault::HeaderPastEnd { start, file } => StFaultView::HeaderPastEnd {
                start: *start,
                file: *file,
            },
            StFault::NotJson => StFaultView::NotJson,
            StFault::NotAnObject => StFaultView::NotAnObject,
            StFault::MissingDtype => StFaultView::MissingDtype,
            StFault::MissingShape => StFaultView::MissingShape,
            StFault::InvalidShape => StFaultView::InvalidShape,
            StFault::MissingOffsets => StFaultView::MissingOffsets,
            StFault::InvalidOffsets => StFaultView::InvalidOffsets,
            StFault::InvalidStart => StFaultView::InvalidStart,
            StFault::InvalidEnd => StFaultView::InvalidEnd,
            StFault::OutsideTheFile => StFaultView::OutsideTheFile,
            StFault::NotSingle { dtype } => StFaultView::NotSingle { dtype: dtype@ },
            StFault::NoTensor => StFaultView::NoTensor,
            StFault::Mismatch { shape, len, expect } => StFaultView::Mismatch {
                shape: shape@,
                len: *len,
                expect: expect@,
            },
            StFault::TooLargeToHold { len } => StFaultView::TooLargeToHold { len: *len },
            StFault::NotRead => StFaultView::NotRead,
        }
    }
}

/// A fault and the tensor it is about; no name where it is about the file.
#[derive(Debug)]
pub struct StError {
    pub fault: StFault,
    pub tensor: String,
}

/// What an error says.
pub struct StErrorView {
    pub fault: StFaultView,
    pub tensor: Seq<char>,
}

impl View for StError {
    type V = StErrorView;

    open spec fn view(&self) -> StErrorView {
        StErrorView { fault: self.fault@, tensor: self.tensor@ }
    }
}

/// Numbers in brackets, with commas between them.
pub open spec fn list_text(v: Seq<u64>) -> Seq<char> {
    "["@ + listed(v) + "]"@
}

/// Numbers with commas between them.
pub open spec fn listed(v: Seq<u64>) -> Seq<char>
    decreases v.len(),
{
    if v.len() == 0 {
        Seq::empty()
    } else if v.len() == 1 {
        decimal(v[0] as nat)
    } else {
        listed(v.drop_last()) + ", "@ + decimal(v.last() as nat)
    }
}

/// Writes numbers in brackets.
fn push_list(out: &mut String, v: &Vec<u64>)
    ensures
        final(out)@ == old(out)@ + list_text(v@),
{
    let ghost start = out@;
    out.append("[");
    let mut i: usize = 0;
    assert(v@.take(0) =~= Seq::<u64>::empty());
    assert(out@ =~= start + "["@ + listed(v@.take(0)));
    while i < v.len()
        invariant
            i <= v.len(),
            out@ == start + "["@ + listed(v@.take(i as int)),
        decreases v.len() - i,
    {
        let ghost before = out@;
        proof {
            assert(v@.take(i + 1).drop_last() =~= v@.take(i as int));
        }
        if i > 0 {
            out.append(", ");
        }
        push_decimal(out, v[i]);
        i = i + 1;
        assert(out@ =~= start + "["@ + listed(v@.take(i as int)));
    }
    assert(v@.take(v@.len() as int) =~= v@);
    out.append("]");
    assert(out@ =~= start + list_text(v@));
}

/// The text of an error.
pub open spec fn error_text(e: StErrorView) -> Seq<char> {
    match e.fault {
        StFaultView::Short => "failed to fill whole buffer"@,
        StFaultView::HeaderOverflow => "safetensors header length overflow"@,
        StFaultView::HeaderPastEnd { start, file } => "safetensors header extends past EOF: "@
            + decimal(start as nat) + " > "@ + decimal(file as nat),
        StFaultView::NotJson => "safetensors header is not JSON"@,
        StFaultView::NotAnObject => "safetensors header is not an object"@,
        StFaultView::MissingDtype => e.tensor + ": missing dtype"@,
        StFaultView::MissingShape => e.tensor + ": missing shape"@,
        StFaultView::InvalidShape => e.tensor + ": invalid shape"@,
        StFaultView::MissingOffsets => e.tensor + ": missing data_offsets"@,
        StFaultView::InvalidOffsets => e.tensor + ": invalid data_offsets"@,
        StFaultView::InvalidStart => e.tensor + ": invalid start offset"@,
        StFaultView::InvalidEnd => e.tensor + ": invalid end offset"@,
        StFaultView::OutsideTheFile => e.tensor
            + ": tensor range is outside the safetensors file"@,
        StFaultView::NotSingle { dtype } => e.tensor + ": only F32 supported, got "@ + dtype,
        StFaultView::NoTensor => "missing tensor "@ + e.tensor,
        StFaultView::Mismatch { shape, len, expect } => e.tensor + ": shape "@ + list_text(shape)
            + " len "@ + decimal(len as nat) + " != expected "@ + list_text(expect),
        StFaultView::TooLargeToHold { len } => e.tensor + ": refusing to materialize "@ + decimal(
            len as nat,
        )
            + " bytes of PLE n-gram weights; compile/use a .coli package so n-gram rows stay on NVMe and are range-read on demand"@,
        StFaultView::NotRead => e.tensor + ": failed to fill whole buffer"@,
    }
}

impl StError {
    /// The text of the error.
    pub fn message(&self) -> (r: String)
        ensures
            r@ == error_text(self@),
    {
        let mut out: String = String::from_str("");
        proof {
            reveal_strlit("");
        }
        assert(out@ =~= Seq::<char>::empty());
        match &self.fault {
            StFault::Short => {
                out.append("failed to fill whole buffer");
            },
            StFault::HeaderOverflow => {
                out.append("safetensors header length overflow");
            },
            StFault::HeaderPastEnd { start, file } => {
                out.append("safetensors header extends past EOF: ");
                push_decimal(&mut out, *start);
                out.append(" > ");
                push_decimal(&mut out, *file);
            },
            StFault::NotJson => {
                out.append("safetensors header is not JSON");
            },
            StFault::NotAnObject => {
                out.append("safetensors header is not an object");
            },
            StFault::NoTensor => {
                out.append("missing tensor ");
                out.append(self.tensor.as_str());
            },
            StFault::MissingDtype => {
                out.append(self.tensor.as_str());
                out.append(": missing dtype");
            },
            StFault::MissingShape => {
                out.append(self.tensor.as_str());
                out.append(": missing shape");
            },
            StFault::InvalidShape => {
                out.append(self.tensor.as_str());
                out.append(": invalid shape");
            },
            StFault::MissingOffsets => {
                out.append(self.tensor.as_str());
                out.append(": missing data_offsets");
            },
            StFault::InvalidOffsets => {
                out.append(self.tensor.as_str());
                out.append(": invalid data_offsets");
            },
            StFault::InvalidStart => {
                out.append(self.tensor.as_str());
                out.append(": invalid start offset");
            },
            StFault::InvalidEnd => {
                out.append(self.tensor.as_str());
                out.append(": invalid end offset");
            },
            StFault::OutsideTheFile => {
                out.append(self.tensor.as_str());
                out.append(": tensor range is outside the safetensors file");
            },
            StFault::NotSingle { dtype } => {
                out.append(self.tensor.as_str());
                out.append(": only F32 supported, got ");
                out.append(dtype.as_str());
            },
            StFault::Mismatch { shape, len, expect } => {
                out.append(self.tensor.as_str());
                out.append(": shape ");
                push_list(&mut out, shape);
                out.append(" len ");
                push_decimal(&mut out, *len as u64);
                out.append(" != expected ");
                push_list(&mut out, expect);
            },
            StFault::TooLargeToHold { len } => {
                out.append(self.tensor.as_str());
                out.append(": refusing to materialize ");
                push_decimal(&mut out, *len as u64);
                out.append(
                    " bytes of PLE n-gram weights; compile/use a .coli package so n-gram rows stay on NVMe and are range-read on demand",
                );
            },
            StFault::NotRead => {
                out.append(self.tensor.as_str());
                out.append(": failed to fill whole buffer");
            },
        }
        assert(out@ =~= error_text(self@));
        out
    }
}

/// A tensor of a file: its shape, and where its bytes are.
#[derive(Debug)]
pub struct StTensor {
    pub name: String,
    pub shape: Vec<u64>,
    pub offset: usize,
    pub len: usize,
}

/// What a tensor is.
pub struct StTensorView {
    pub name: Seq<char>,
    pub shape: Seq<u64>,
    pub offset: int,
    pub len: int,
}

impl View for StTensor {
    type V = StTensorView;

    open spec fn view(&self) -> StTensorView {
        StTensorView {
            name: self.name@,
            shape: self.shape@,
            offset: self.offset as int,
            len: self.len as int,
        }
    }
}

/// A file of tensors: what its header lists, and the bytes of those tensors that have been read. The
/// file itself is never held.
pub struct StFile {
    pub tensors: Vec<StTensor>,
    pub parts: Vec<Option<Vec<u8>>>,
}

/// A fault of the file as a whole.
pub open spec fn of_file(fault: StFaultView) -> StErrorView {
    StErrorView { fault, tensor: Seq::empty() }
}

/// A fault of a tensor.
pub open spec fn of_entry(fault: StFaultView, name: Seq<char>) -> StErrorView {
    StErrorView { fault, tensor: name }
}

/// The numbers of a list, or nothing where one of its members is none.
pub open spec fn numbers(a: Seq<JsonView>) -> Option<Seq<u64>>
    decreases a.len(),
{
    if a.len() == 0 {
        Some(Seq::empty())
    } else {
        match (numbers(a.drop_last()), as_u64_spec(Some(a.last()))) {
            (Some(v), Some(n)) => Some(v.push(n)),
            _ => None,
        }
    }
}

/// The tensor that an entry of the header describes.
pub open spec fn entry_spec(name: Seq<char>, v: JsonView, start: int, file: int) -> Result<
    StTensorView,
    StErrorView,
> {
    let dtype = as_text_spec(member(v, "dtype"@));
    let shape = as_array_spec(member(v, "shape"@));
    let offsets = as_array_spec(member(v, "data_offsets"@));
    if dtype is None {
        Err(of_entry(StFaultView::MissingDtype, name))
    } else if shape is None {
        Err(of_entry(StFaultView::MissingShape, name))
    } else if numbers(shape->0) is None {
        Err(of_entry(StFaultView::InvalidShape, name))
    } else if offsets is None {
        Err(of_entry(StFaultView::MissingOffsets, name))
    } else if (offsets->0).len() != 2 {
        Err(of_entry(StFaultView::InvalidOffsets, name))
    } else if as_u64_spec(Some((offsets->0)[0])) is None {
        Err(of_entry(StFaultView::InvalidStart, name))
    } else if as_u64_spec(Some((offsets->0)[1])) is None {
        Err(of_entry(StFaultView::InvalidEnd, name))
    } else {
        let begin = as_u64_spec(Some((offsets->0)[0]))->0;
        let end = as_u64_spec(Some((offsets->0)[1]))->0;
        if end < begin || start + end > file {
            Err(of_entry(StFaultView::OutsideTheFile, name))
        } else if dtype->0 != "F32"@ {
            Err(of_entry(StFaultView::NotSingle { dtype: dtype->0 }, name))
        } else {
            Ok(
                StTensorView {
                    name,
                    shape: numbers(shape->0)->0,
                    offset: start + begin,
                    len: end - begin,
                },
            )
        }
    }
}

/// The tensors that the entries of the header describe, behind those done.
pub open spec fn entries_spec(
    o: Seq<(Seq<char>, JsonView)>,
    start: int,
    file: int,
    done: Seq<StTensorView>,
) -> Result<Seq<StTensorView>, StErrorView>
    decreases o.len(),
{
    if o.len() == 0 {
        Ok(done)
    } else if o[0].0 == "__metadata__"@ {
        entries_spec(o.drop_first(), start, file, done)
    } else {
        match entry_spec(o[0].0, o[0].1, start, file) {
            Ok(t) => entries_spec(o.drop_first(), start, file, done.push(t)),
            Err(e) => Err(e),
        }
    }
}

/// The tensors of a file of `file` bytes that begins with `b`, which holds the header where the file
/// does.
pub open spec fn file_tensors(b: Seq<u8>, file: int) -> Result<Seq<StTensorView>, StErrorView> {
    let n = le(b, 0, 8) as int;
    if b.len() < 8 {
        Err(of_file(StFaultView::Short))
    } else if 8 + n > u64::MAX {
        Err(of_file(StFaultView::HeaderOverflow))
    } else if 8 + n > file {
        Err(of_file(StFaultView::HeaderPastEnd { start: (8 + n) as u64, file: file as u64 }))
    } else if 8 + n > b.len() {
        Err(of_file(StFaultView::Short))
    } else {
        match json_parsed(b.subrange(8, 8 + n)) {
            None => Err(of_file(StFaultView::NotJson)),
            Some(JsonView::Object(o)) => entries_spec(o, 8 + n, file, Seq::empty()),
            Some(_) => Err(of_file(StFaultView::NotAnObject)),
        }
    }
}

/// How many bytes a file begins with up to the end of its header, by its first eight.
pub fn header_end(first: &[u8]) -> (r: Option<u64>)
    ensures
        r == (if first@.len() >= 8 && 8 + le(first@, 0, 8) <= u64::MAX {
            Some((8 + le(first@, 0, 8)) as u64)
        } else {
            None
        }),
{
    if first.len() < 8 {
        return None;
    }
    let n: u64 = read_le(first, 0, 8);
    n.checked_add(8)
}

/// The views of tensors.
pub open spec fn tensor_views(v: Seq<StTensor>) -> Seq<StTensorView> {
    v.map_values(|t: StTensor| t@)
}

/// The place of the tensor of a name, the first where there are several.
pub open spec fn place_of(v: Seq<StTensorView>, name: Seq<char>) -> Option<int>
    decreases v.len(),
{
    if v.len() == 0 {
        None
    } else {
        match place_of(v.drop_last(), name) {
            Some(i) => Some(i),
            None => if v.last().name == name {
                Some(v.len() - 1)
            } else {
                None
            },
        }
    }
}

proof fn lemma_place(v: Seq<StTensorView>, name: Seq<char>)
    ensures
        place_of(v, name) matches Some(i) ==> 0 <= i < v.len() && v[i].name == name,
    decreases v.len(),
{
    if v.len() > 0 {
        lemma_place(v.drop_last(), name);
    }
}

proof fn lemma_place_stays(v: Seq<StTensorView>, name: Seq<char>, n: int)
    requires
        0 <= n <= v.len(),
        place_of(v.take(n), name) is Some,
    ensures
        place_of(v, name) == place_of(v.take(n), name),
    decreases v.len(),
{
    if n < v.len() {
        assert(v.drop_last().take(n) =~= v.take(n));
        lemma_place_stays(v.drop_last(), name, n);
    } else {
        assert(v.take(n) =~= v);
    }
}

/// The numbers of a list.
pub fn read_numbers(a: &Vec<Json>) -> (r: Option<Vec<u64>>)
    ensures
        match r {
            Some(v) => numbers(Seq::new(a@.len(), |i: int| a@[i]@)) == Some(v@),
            None => numbers(Seq::new(a@.len(), |i: int| a@[i]@)) is None,
        },
{
    let ghost all = Seq::new(a@.len(), |i: int| a@[i]@);
    let mut v: Vec<u64> = Vec::new();
    let mut i: usize = 0;
    assert(all.take(0) =~= Seq::<JsonView>::empty());
    while i < a.len()
        invariant
            i <= a.len(),
            all == Seq::new(a@.len(), |i: int| a@[i]@),
            numbers(all.take(i as int)) == Some(v@),
        decreases a.len() - i,
    {
        proof {
            assert(all.take(i + 1).drop_last() =~= all.take(i as int));
        }
        match a[i].as_u64() {
            Some(n) => {
                v.push(n);
            },
            None => {
                proof {
                    lemma_no_numbers(all, i + 1);
                }
                return None;
            },
        }
        i = i + 1;
    }
    assert(all.take(i as int) =~= all);
    Some(v)
}

/// A list with a part that is no list of numbers is none.
proof fn lemma_no_numbers(a: Seq<JsonView>, n: int)
    requires
        0 <= n <= a.len(),
        numbers(a.take(n)) is None,
    ensures
        numbers(a) is None,
    decreases a.len(),
{
    if n < a.len() {
        assert(a.drop_last().take(n) =~= a.take(n));
        lemma_no_numbers(a.drop_last(), n);
    } else {
        assert(a.take(n) =~= a);
    }
}

fn file_error(fault: StFault) -> (e: StError)
    ensures
        e@ == of_file(fault@),
{
    let tensor: String = String::new();
    assert(tensor@ =~= Seq::<char>::empty());
    StError { fault, tensor }
}

fn entry_error(fault: StFault, name: &str) -> (e: StError)
    ensures
        e@ == of_entry(fault@, name@),
{
    StError { fault, tensor: String::from_str(name) }
}

/// Reads an entry of the header.
fn read_entry(name: &str, v: &Json, start: usize, file: usize) -> (r: Result<StTensor, StError>)
    requires
        start <= file,
    ensures
        match r {
            Ok(t) => entry_spec(name@, v@, start as int, file as int) == Ok::<StTensorView, StErrorView>(
                t@,
            ) && start <= t.offset && t.offset + t.len <= file,
            Err(e) => entry_spec(name@, v@, start as int, file as int) == Err::<
                StTensorView,
                StErrorView,
            >(e@),
        },
{
    match v.get_str("dtype") {
        None => Err(entry_error(StFault::MissingDtype, name)),
        Some(dtype) => match v.get_array("shape") {
            None => Err(entry_error(StFault::MissingShape, name)),
            Some(shape) => match read_numbers(shape) {
                None => Err(entry_error(StFault::InvalidShape, name)),
                Some(shape) => match v.get_array("data_offsets") {
                    None => Err(entry_error(StFault::MissingOffsets, name)),
                    Some(offsets) => {
                        if offsets.len() != 2 {
                            return Err(entry_error(StFault::InvalidOffsets, name));
                        }
                        match (offsets[0].as_u64(), offsets[1].as_u64()) {
                            (None, _) => Err(entry_error(StFault::InvalidStart, name)),
                            (_, None) => Err(entry_error(StFault::InvalidEnd, name)),
                            (Some(begin), Some(end)) => {
                                if end < begin || end > (file - start) as u64 {
                                    return Err(entry_error(StFault::OutsideTheFile, name));
                                }
                                if !same_text(dtype, "F32") {
                                    return Err(
                                        entry_error(
                                            StFault::NotSingle { dtype: String::from_str(dtype) },
                                            name,
                                        ),
                                    );
                                }
                                let t = StTensor {
                                    name: String::from_str(name),
                                    shape,
                                    offset: start + begin as usize,
                                    len: (end - begin) as usize,
                                };
                                Ok(t)
                            },
                        }
                    },
                },
            },
        },
    }
}

/// The elements of a tensor's bytes, as patterns of singles.
pub open spec fn singles(b: Seq<u8>) -> Seq<u32> {
    Seq::new((b.len() / 4) as nat, |k: int| le(b, 4 * k, 4) as u32)
}

/// The place of the tensor that a file lists for a name and a shape, or why there is none that may
/// be read.
pub open spec fn range_spec(tensors: Seq<StTensorView>, name: Seq<char>, expect: Seq<u64>) -> Result<
    int,
    StErrorView,
> {
    match place_of(tensors, name) {
        None => Err(of_entry(StFaultView::NoTensor, name)),
        Some(k) => {
            let t = tensors[k];
            if checked_product(expect) is None || checked_product(t.shape) != checked_product(
                expect,
            ) || t.len != 4 * checked_product(expect)->0 {
                Err(
                    of_entry(
                        StFaultView::Mismatch { shape: t.shape, len: t.len as usize, expect },
                        name,
                    ),
                )
            } else if names_ngram_rows(name) && t.len > MAX_RESIDENT_PLE_NGRAM_BYTES {
                Err(of_entry(StFaultView::TooLargeToHold { len: t.len as usize }, name))
            } else {
                Ok(k)
            }
        },
    }
}

/// What a file gives for a name and a shape, once `data` has been read: the bytes of some of its
/// tensors, place by place.
pub open spec fn load_spec(
    data: Seq<Option<Seq<u8>>>,
    tensors: Seq<StTensorView>,
    name: Seq<char>,
    expect: Seq<u64>,
) -> Result<Seq<u32>, StErrorView> {
    match range_spec(tensors, name, expect) {
        Err(e) => Err(e),
        Ok(k) => match data[k] {
            None => Err(of_entry(StFaultView::NotRead, name)),
            Some(b) => if b.len() == tensors[k].len {
                Ok(singles(b))
            } else {
                Err(of_entry(StFaultView::NotRead, name))
            },
        },
    }
}

/// The bytes of a tensor, where they have been read.
pub open spec fn part_view(p: Option<Vec<u8>>) -> Option<Seq<u8>> {
    match p {
        Some(b) => Some(b@),
        None => None,
    }
}

impl StFile {
    /// Every tensor has a place for its bytes.
    pub open spec fn wf(self) -> bool {
        self.parts@.len() == self.tensors@.len()
    }

    /// The bytes that have been read, place by place.
    pub open spec fn held(self) -> Seq<Option<Seq<u8>>> {
        self.parts@.map_values(|p: Option<Vec<u8>>| part_view(p))
    }

    /// The tensors of the file.
    pub open spec fn listed(self) -> Seq<StTensorView> {
        tensor_views(self.tensors@)
    }

    /// Reads the header of a file of `file` bytes from `head`, the bytes that it begins with up to the
    /// end of the header. No tensor it names reaches out of the file, and none has been read.
    pub fn open(head: &[u8], file: usize) -> (r: Result<StFile, StError>)
        ensures
            match r {
                Ok(f) => {
                    &&& f.wf()
                    &&& file_tensors(head@, file as int) == Ok::<Seq<StTensorView>, StErrorView>(
                        f.listed(),
                    )
                    &&& forall|k: int|
                        0 <= k < f.tensors@.len() ==> (#[trigger] f.tensors@[k]).offset
                            + f.tensors@[k].len <= file && f.parts@[k] is None
                },
                Err(e) => file_tensors(head@, file as int) == Err::<
                    Seq<StTensorView>,
                    StErrorView,
                >(e@),
            },
    {
        assert(head.len() == head@.len());
        if head.len() < 8 {
            return Err(file_error(StFault::Short));
        }
        let n: u64 = read_le(head, 0, 8);
        if n > 0xffff_ffff_ffff_fff7 {
            return Err(file_error(StFault::HeaderOverflow));
        }
        let start64: u64 = 8 + n;
        if start64 > file as u64 {
            return Err(file_error(StFault::HeaderPastEnd { start: start64, file: file as u64 }));
        }
        if start64 > head.len() as u64 {
            return Err(file_error(StFault::Short));
        }
        let start: usize = start64 as usize;
        let header: Vec<u8> = crate::bytes::copy_range(head, 8, start - 8);
        match read_json(header.as_slice()) {
            None => Err(file_error(StFault::NotJson)),
            Some(Json::Object(o)) => {
                let ghost view = Json::Object(o)@->Object_0;
                let ghost goal = file_tensors(head@, file as int);
                assert(view.skip(0) =~= view);
                let mut tensors: Vec<StTensor> = Vec::new();
                let mut parts: Vec<Option<Vec<u8>>> = Vec::new();
                assert(tensor_views(tensors@) =~= Seq::empty());
                let mut i: usize = 0;
                while i < o.len()
                    invariant
                        i <= o.len(),
                        start <= file,
                        view == Json::Object(o)@->Object_0,
                        goal == file_tensors(head@, file as int),
                        goal == entries_spec(
                            view.skip(i as int),
                            start as int,
                            file as int,
                            tensor_views(tensors@),
                        ),
                        parts@.len() == tensors@.len(),
                        forall|k: int|
                            0 <= k < tensors@.len() ==> (#[trigger] tensors@[k]).offset
                                + tensors@[k].len <= file && parts@[k] is None,
                    decreases o.len() - i,
                {
                    let ghost rest = view.skip(i as int);
                    proof {
                        assert(view.len() == o@.len());
                        assert(rest[0] == (o@[i as int].0@, o@[i as int].1@));
                        assert(rest.drop_first() =~= view.skip(i + 1));
                    }
                    let name: &str = o[i].0.as_str();
                    if !same_text(name, "__metadata__") {
                        let ghost before = tensors@;
                        match read_entry(name, &o[i].1, start, file) {
                            Ok(t) => {
                                let ghost tv = t@;
                                tensors.push(t);
                                parts.push(None);
                                assert forall|k: int| 0 <= k < tensors@.len() implies (
                                #[trigger] tensors@[k]).offset + tensors@[k].len <= file
                                    && parts@[k] is None by {
                                    if k < before.len() {
                                        assert(tensors@[k] == before[k]);
                                    }
                                }
                                assert(tensor_views(tensors@) =~= tensor_views(before).push(tv));
                            },
                            Err(e) => {
                                return Err(e);
                            },
                        }
                    }
                    i = i + 1;
                }
                proof {
                    assert(view.len() == o@.len());
                }
                Ok(StFile { tensors, parts })
            },
            Some(_) => Err(file_error(StFault::NotAnObject)),
        }
    }

    /// The place of the tensor of a name.
    fn find(&self, name: &str) -> (r: Option<usize>)
        ensures
            match r {
                Some(i) => i < self.tensors@.len() && place_of(self.listed(), name@) == Some(
                    i as int,
                ),
                None => place_of(self.listed(), name@) is None,
            },
    {
        let ghost all = self.listed();
        let mut i: usize = 0;
        assert(all.take(0) =~= Seq::<StTensorView>::empty());
        while i < self.tensors.len()
            invariant
                i <= self.tensors.len(),
                all == self.listed(),
                place_of(all.take(i as int), name@) is None,
            decreases self.tensors.len() - i,
        {
            proof {
                assert(all.take(i + 1).drop_last() =~= all.take(i as int));
                assert(all.take(i + 1).last() == self.tensors@[i as int]@);
            }
            if same_text(self.tensors[i].name.as_str(), name) {
                proof {
                    lemma_place_stays(all, name@, i + 1);
                }
                return Some(i);
            }
            i = i + 1;
        }
        assert(all.take(i as int) =~= all);
        None
    }

    /// The place of the tensor for a name and a shape.
    fn place(&self, name: &str, expect: &Vec<u64>) -> (r: Result<usize, StError>)
        ensures
            match r {
                Ok(k) => k < self.tensors@.len() && range_spec(self.listed(), name@, expect@)
                    == Ok::<int, StErrorView>(k as int),
                Err(e) => range_spec(self.listed(), name@, expect@) == Err::<int, StErrorView>(e@),
            },
    {
        match self.find(name) {
            None => Err(entry_error(StFault::NoTensor, name)),
            Some(at) => {
                let t: &StTensor = &self.tensors[at];
                proof {
                    assert(expect@.skip(0) =~= expect@);
                    assert(t.shape@.skip(0) =~= t.shape@);
                    assert(self.listed()[at as int] == t@);
                }
                let fits: bool = match (multiply(expect, 0), multiply(&t.shape, 0)) {
                    (Some(want), Some(have)) => have == want && t.len % 4 == 0 && (t.len / 4) as u64
                        == want,
                    _ => false,
                };
                if !fits {
                    let fault: StFault = StFault::Mismatch {
                        shape: t.shape.clone(),
                        len: t.len,
                        expect: expect.clone(),
                    };
                    return Err(entry_error(fault, name));
                }
                if is_ple_ngram_weight(name) && t.len > MAX_RESIDENT_PLE_NGRAM_BYTES {
                    return Err(entry_error(StFault::TooLargeToHold { len: t.len }, name));
                }
                Ok(at)
            },
        }
    }

    /// Where the bytes of a tensor are in the file, and how many. The shape asked for has to hold as
    /// many elements as the file has, and n-gram rows may only be read where they are few.
    pub fn range(&self, name: &str, expect: &Vec<u64>) -> (r: Result<(usize, usize), StError>)
        ensures
            match r {
                Ok((offset, len)) => range_spec(self.listed(), name@, expect@) matches Ok(k)
                    && offset == self.listed()[k].offset && len == self.listed()[k].len,
                Err(e) => range_spec(self.listed(), name@, expect@) == Err::<int, StErrorView>(e@),
            },
    {
        match self.place(name, expect) {
            Err(e) => Err(e),
            Ok(k) => {
                let t: &StTensor = &self.tensors[k];
                assert(self.listed()[k as int] == t@);
                Ok((t.offset, t.len))
            },
        }
    }

    /// Takes the bytes that were read for a tensor, where the file has one of that name.
    pub fn put(&mut self, name: &str, raw: Vec<u8>)
        requires
            old(self).wf(),
        ensures
            final(self).wf(),
            final(self).listed() == old(self).listed(),
            final(self).held() == (match place_of(old(self).listed(), name@) {
                Some(k) => old(self).held().update(k, Some(raw@)),
                None => old(self).held(),
            }),
    {
        if let Some(k) = self.find(name) {
            let ghost bytes = raw@;
            self.parts[k] = Some(raw);
            assert(self.held() =~= old(self).held().update(k as int, Some(bytes)));
        }
    }

    /// The elements of a tensor whose bytes have been read, as patterns of singles.
    pub fn f32_bits(&self, name: &str, expect: &Vec<u64>) -> (r: Result<Vec<u32>, StError>)
        requires
            self.wf(),
        ensures
            match r {
                Ok(v) => load_spec(self.held(), self.listed(), name@, expect@) == Ok::<
                    Seq<u32>,
                    StErrorView,
                >(v@) && checked_product(expect@) == Some(v@.len() as u64),
                Err(e) => load_spec(self.held(), self.listed(), name@, expect@) == Err::<
                    Seq<u32>,
                    StErrorView,
                >(e@),
            },
    {
        let at: usize = match self.place(name, expect) {
            Err(e) => {
                return Err(e);
            },
            Ok(at) => at,
        };
        assert(self.held()[at as int] == part_view(self.parts@[at as int]));
        assert(self.listed()[at as int] == self.tensors@[at as int]@);
        match &self.parts[at] {
            None => Err(entry_error(StFault::NotRead, name)),
            Some(b) => {
                if b.len() != self.tensors[at].len {
                    return Err(entry_error(StFault::NotRead, name));
                }
                let n: usize = b.len() / 4;
                let mut v: Vec<u32> = Vec::new();
                let mut k: usize = 0;
                while k < n
                    invariant
                        k <= n,
                        n == b.len() / 4,
                        v@.len() == k,
                        forall|j: int|
                            0 <= j < k ==> #[trigger] v@[j] == le(b@, 4 * j, 4) as u32,
                    decreases n - k,
                {
                    proof {
                        crate::bytes::lemma_bases();
                    }
                    v.push(read_le(b.as_slice(), 4 * k, 4) as u32);
                    k = k + 1;
                }
                assert(v@ =~= singles(b@));
                Ok(v)
            },
        }
    }
}

/// A tensor that may be read gives, once its bytes are there, as many elements as were asked for,
/// each of them four bytes of the tensor in their order.
pub proof fn law_bytes_that_were_read_come_back(
    st: StFile,
    name: Seq<char>,
    expect: Seq<u64>,
    raw: Seq<u8>,
    j: int,
)
    requires
        st.wf(),
        range_spec(st.listed(), name, expect) is Ok,
        raw.len() == st.listed()[range_spec(st.listed(), name, expect)->Ok_0].len,
        0 <= j < raw.len() / 4,
    ensures
        ({
            let k = range_spec(st.listed(), name, expect)->Ok_0;
            let got = load_spec(st.held().update(k, Some(raw)), st.listed(), name, expect);
            &&& got matches Ok(v) && v.len() == checked_product(expect)->0 && v[j] == le(
                raw,
                4 * j,
                4,
            ) as u32
        }),
{
    lemma_place(st.listed(), name);
}

/// The header decides alone: what is read from the bytes that a file begins with is what would be
/// read from all of it.
pub proof fn law_the_header_lists_the_tensors(whole: Seq<u8>, b: Seq<u8>, file: int)
    requires
        begins(whole, b),
        file_tensors(b, file) is Ok,
    ensures
        file_tensors(whole, file) == file_tensors(b, file),
{
    assert forall|i: int| 0 <= i < 8 implies #[trigger] whole[0 + i] == b[0 + i] by {}
    lemma_le_same(whole, 0, b, 0, 8);
    let n = le(b, 0, 8) as int;
    assert(whole.subrange(8, 8 + n) =~= b.subrange(8, 8 + n));
}

/// What an entry of the header says: a tensor of singles begins as far behind the header as its first
/// offset says and ends where its second does, within the file; its shape is the list of its numbers.
pub proof fn law_an_entry_says_where_its_tensor_is(name: Seq<char>, v: JsonView, start: int, file: int)
    requires
        entry_spec(name, v, start, file) is Ok,
    ensures
        ({
            let t = entry_spec(name, v, start, file)->Ok_0;
            let at = as_array_spec(member(v, "data_offsets"@));
            &&& t.name == name
            &&& at is Some && (at->0).len() == 2
            &&& as_u64_spec(Some((at->0)[0])) is Some && t.offset == start + as_u64_spec(
                Some((at->0)[0]),
            )->0
            &&& as_u64_spec(Some((at->0)[1])) is Some && t.offset + t.len == start + as_u64_spec(
                Some((at->0)[1]),
            )->0
            &&& t.len >= 0 && t.offset + t.len <= file
            &&& as_text_spec(member(v, "dtype"@)) == Some("F32"@)
            &&& as_array_spec(member(v, "shape"@)) is Some && numbers(
                as_array_spec(member(v, "shape"@))->0,
            ) == Some(t.shape)
        }),
{
}

/// A list of numbers is read whole and in order, or not at all.
pub proof fn law_numbers_are_read_in_order(a: Seq<JsonView>, i: int)
    requires
        0 <= i < a.len(),
    ensures
        numbers(a) is Some ==> (numbers(a)->0).len() == a.len() && as_u64_spec(Some(a[i])) == Some(
            (numbers(a)->0)[i],
        ),
        as_u64_spec(Some(a[i])) is None ==> numbers(a) is None,
    decreases a.len(),
{
    let short = a.drop_last();
    if i < short.len() {
        law_numbers_are_read_in_order(short, i);
        assert(short[i] == a[i]);
    }
    lemma_numbers_len(short);
}

proof fn lemma_numbers_len(a: Seq<JsonView>)
    ensures
        numbers(a) is Some ==> (numbers(a)->0).len() == a.len(),
    decreases a.len(),
{
    if a.len() > 0 {
        lemma_numbers_len(a.drop_last());
    }
}

/// A tensor is found under its name, the first of that name; it may be read only where it has as many
/// elements of four bytes as are asked for, and the table of n-grams only up to a gibibyte.
pub proof fn law_only_what_fits_may_be_read(tensors: Seq<StTensorView>, name: Seq<char>, expect: Seq<u64>)
    requires
        range_spec(tensors, name, expect) is Ok,
    ensures
        ({
            let k = range_spec(tensors, name, expect)->Ok_0;
            &&& 0 <= k < tensors.len()
            &&& tensors[k].name == name
            &&& forall|i: int| 0 <= i < k ==> (#[trigger] tensors[i]).name != name
            &&& checked_product(expect) is Some && tensors[k].len == 4 * checked_product(expect)->0
            &&& checked_product(tensors[k].shape) == checked_product(expect)
        }),
{
    lemma_first_place(tensors, name);
}

proof fn lemma_first_place(v: Seq<StTensorView>, name: Seq<char>)
    ensures
        match place_of(v, name) {
            Some(k) => 0 <= k < v.len() && v[k].name == name && forall|i: int|
                0 <= i < k ==> (#[trigger] v[i]).name != name,
            None => forall|i: int| 0 <= i < v.len() ==> (#[trigger] v[i]).name != name,
        },
    decreases v.len(),
{
    if v.len() > 0 {
        let short = v.drop_last();
        lemma_first_place(short, name);
        assert forall|i: int| 0 <= i < short.len() implies #[trigger] v[i] == short[i] by {}
    }
}

/// The elements of a tensor are its bytes, four for each, the lowest first.
pub proof fn law_singles_are_four_bytes_each(b: Seq<u8>, k: int)
    requires
        0 <= k < b.len() / 4,
    ensures
        singles(b).len() == b.len() / 4,
        singles(b)[k] == b[4 * k] + 256 * b[4 * k + 1] + 65536 * b[4 * k + 2] + 16777216 * b[4 * k + 3],
{
    crate::bytes::lemma_bases();
    reveal_with_fuel(le, 5);
    let p = 4 * k;
    assert(le(b, p, 4) == b[p] + 256 * b[p + 1] + 65536 * b[p + 2] + 16777216 * b[p + 3]);
}

/// A tensor of singles is taken wherever its entry says all that is needed of it and it ends within the
/// file, at its very end too.
pub proof fn law_which_entries_are_taken(name: Seq<char>, v: JsonView, start: int, file: int)
    ensures
        ({
            let (shape, at) = (
                as_array_spec(member(v, "shape"@)),
                as_array_spec(member(v, "data_offsets"@)),
            );
            entry_spec(name, v, start, file) is Ok <==> {
                &&& as_text_spec(member(v, "dtype"@)) == Some("F32"@)
                &&& shape is Some && numbers(shape->0) is Some
                &&& at is Some && (at->0).len() == 2
                &&& as_u64_spec(Some((at->0)[0])) is Some && as_u64_spec(Some((at->0)[1])) is Some
                &&& as_u64_spec(Some((at->0)[0]))->0 <= as_u64_spec(Some((at->0)[1]))->0
                &&& start + as_u64_spec(Some((at->0)[1]))->0 <= file
            }
        }),
{
}

/// A tensor that is there with as many elements as are asked for may be read, but for a table of n-grams of
/// more than sixty-four mebibytes.
pub proof fn law_which_tensors_may_be_read(tensors: Seq<StTensorView>, name: Seq<char>, expect: Seq<u64>, k: int)
    requires
        0 <= k < tensors.len(),
        tensors[k].name == name,
        forall|i: int| 0 <= i < k ==> (#[trigger] tensors[i]).name != name,
        checked_product(expect) is Some,
        checked_product(tensors[k].shape) == checked_product(expect),
        tensors[k].len == 4 * checked_product(expect)->0,
    ensures
        !names_ngram_rows(name) || tensors[k].len <= 64 * 1024 * 1024 ==> range_spec(tensors, name, expect)
            == Ok::<int, StErrorView>(k),
        names_ngram_rows(name) && tensors[k].len > 64 * 1024 * 1024 ==> range_spec(tensors, name, expect)
            is Err,
{
    lemma_first_place(tensors, name);
    let p = place_of(tensors, name);
    if p is Some && p->0 != k {
        assert(tensors[p->0].name == name);
        assert(tensors[k].name == name);
    }
}

/// A file begins with the length of its header in eight bytes, and a text ends in what was put behind it.
pub proof fn law_what_stands_in_front(b: Seq<u8>, file: int, s: Seq<char>, end: Seq<char>)
    ensures
        file_tensors(b, file) is Ok ==> b.len() >= 8 + le(b, 0, 8) && file >= 8 + le(b, 0, 8),
        file_tensors(b, file) is Ok ==> json_parsed(b.subrange(8, 8 + le(b, 0, 8) as int)) is Some,
        ends_in(s + end, end),
        s.len() < end.len() ==> !ends_in(s, end),
{
    assert((s + end).skip((s + end).len() - end.len()) =~= end);
}

} // verus!
