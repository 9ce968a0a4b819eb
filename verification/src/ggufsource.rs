//! A model that is stored in one or several GGUF files: which tensors it has, and which bytes of
//! which file hold them.

use vstd::prelude::*;
use vstd::slice::slice_subrange;
use vstd::string::StringExecFns;

use crate::ggml::{decode_row, row_check, term_spec, IqTables, RowFault, Term};
use crate::gguf::{
    all_sized, checked_product, entries_view, find_tensor, find_value, insert_tensor,
    law_a_tensor_more, lemma_checked_product, lemma_found, lemma_named, lemma_not_named, lookup,
    meta_u64, multiply, names_ordered, number_for, number_under, product, sized, tensor_named,
    tensors_view, value_u64, with_tensor, FileView, GgufFault, MetadataValue, ParsedGguf,
    TensorInfo, TensorView, ValueView,
};
use crate::text::{chars_of, comes_before, padded, push_padded, same_text};

verus! {

/// The largest number of files of one model.
pub const MAX_SPLITS: u64 = 1024;

/// What is wrong with the files of a model.
#[derive(Clone, Copy, Debug, PartialEq, Eq, Structural)]
pub enum OpenFault {
    /// The first file is of another architecture.
    Architecture,
    /// No files, or too many.
    SplitCount(u64),
    /// The first file says that it is another one.
    NotFirst(u64),
    /// A file says that it is another one, or one of another number of files.
    ShardNumber { no: u64, count: u64 },
    /// A file is of another architecture than the first.
    ShardArchitecture,
    /// Two files hold a tensor of one name.
    Duplicate,
    /// The first file announces another number of tensors.
    TensorCount { announced: u64, found: u64 },
    /// A file that is not the first one of a split model.
    NotFirstName,
}

/// What is wrong with the files of a model, and the architecture or the tensor that it is about.
#[derive(Debug)]
pub struct OpenError {
    pub fault: OpenFault,
    pub about: Option<String>,
}

/// An `OpenError` as a value.
pub struct OpenErrorView {
    pub fault: OpenFault,
    pub about: Option<Seq<char>>,
}

impl View for OpenError {
    type V = OpenErrorView;

    open spec fn view(&self) -> OpenErrorView {
        OpenErrorView {
            fault: self.fault,
            about: match self.about {
                Some(s) => Some(s@),
                None => None,
            },
        }
    }
}

/// A fault with nothing more to say.
pub open spec fn bare(fault: OpenFault) -> OpenErrorView {
    OpenErrorView { fault, about: None }
}

/// A fault about an architecture or a tensor.
pub open spec fn about(fault: OpenFault, what: Seq<char>) -> OpenErrorView {
    OpenErrorView { fault, about: Some(what) }
}

fn bare_error(fault: OpenFault) -> (e: OpenError)
    ensures
        e@ == bare(fault),
{
    OpenError { fault, about: None }
}

fn about_error(fault: OpenFault, what: &str) -> (e: OpenError)
    ensures
        e@ == about(fault, what@),
{
    OpenError { fault, about: Some(String::from_str(what)) }
}

/// The end of the file name of shard `no` (from one) of `count`.
pub open spec fn split_suffix(no: nat, count: nat) -> Seq<char> {
    "-"@ + padded(no, 5) + "-of-"@ + padded(count, 5) + ".gguf"@
}

fn suffix(no: u64, count: u64) -> (s: String)
    ensures
        s@ == split_suffix(no as nat, count as nat),
{
    let mut s: String = String::from_str("-");
    push_padded(&mut s, no, 5);
    s.append("-of-");
    push_padded(&mut s, count, 5);
    s.append(".gguf");
    s
}

/// Whether a text ends with another.
pub open spec fn ends_with(s: Seq<char>, end: Seq<char>) -> bool {
    end.len() <= s.len() && s.skip(s.len() - end.len()) == end
}

/// The file name of shard `index` (from zero) of `count`, from that of the first.
pub open spec fn sibling_name(name: Seq<char>, index: nat, count: nat) -> Option<Seq<char>> {
    let first = split_suffix(1, count);
    if ends_with(name, first) {
        Some(name.take(name.len() - first.len()) + split_suffix(index + 1, count))
    } else {
        None
    }
}

/// The file name of shard `index` of `count`, from that of the first.
pub fn split_sibling_path(name: &str, index: usize, count: usize) -> (r: Result<String, OpenError>)
    requires
        index < u64::MAX,
    ensures
        match r {
            Ok(s) => sibling_name(name@, index as nat, count as nat) == Some(s@),
            Err(e) => sibling_name(name@, index as nat, count as nat) is None && e@ == about(
                OpenFault::NotFirstName,
                split_suffix(1, count as nat),
            ),
        },
{
    let first = suffix(1, count as u64);
    let v = chars_of(name);
    let w = chars_of(first.as_str());
    if w.len() > v.len() {
        return Err(about_error(OpenFault::NotFirstName, first.as_str()));
    }
    let cut: usize = v.len() - w.len();
    let mut i: usize = 0;
    while i < w.len()
        invariant
            i <= w.len() <= v.len(),
            cut == v.len() - w.len(),
            v@ == name@,
            w@ == first@,
            first@ == split_suffix(1, count as nat),
            forall|j: int| 0 <= j < i ==> v[cut + j] == w[j],
        decreases w.len() - i,
    {
        if v[cut + i] != w[i] {
            assert(name@.skip(cut as int)[i as int] != first@[i as int]);
            return Err(about_error(OpenFault::NotFirstName, first.as_str()));
        }
        i += 1;
    }
    assert(name@.skip(cut as int) =~= first@);
    let mut out: String = String::from_str(name.substring_char(0, cut));
    let tail = suffix(index as u64 + 1, count as u64);
    out.append(tail.as_str());
    assert(out@ =~= name@.take(cut as int) + split_suffix((index + 1) as nat, count as nat));
    Ok(out)
}

/// The first shard of a split model is its own sibling number zero.
pub proof fn law_first_sibling_is_itself(name: Seq<char>, count: nat)
    ensures
        sibling_name(name, 0, count) matches Some(s) ==> s == name,
{
    let first = split_suffix(1, count);
    if ends_with(name, first) {
        assert(name.take(name.len() - first.len()) + first =~= name);
    }
}

/// The architecture that a file names, or nothing.
pub open spec fn architecture(f: FileView) -> Seq<char> {
    match lookup(f.metadata, "general.architecture"@) {
        Some(ValueView::String(s)) => s,
        _ => Seq::empty(),
    }
}

fn architecture_of(f: &ParsedGguf) -> (s: String)
    ensures
        s@ == architecture(f@),
{
    match find_value(&f.metadata, "general.architecture") {
        Some(MetadataValue::String(s)) => s.clone(),
        _ => String::new(),
    }
}

/// A model of one or several files, as a value.
pub struct SourceView {
    pub shards: int,
    pub split_count: u64,
    pub metadata: Seq<(Seq<char>, ValueView)>,
    pub tensors: Seq<TensorView>,
    pub data_start: u64,
    pub alignment: u64,
}

impl SourceView {
    /// The tensors are in the order of their names and have the bytes that their shapes take.
    pub open spec fn wf(self) -> bool {
        names_ordered(self.tensors) && all_sized(self.tensors)
    }

    /// The model after its first file.
    pub open spec fn opened(f: FileView) -> Result<SourceView, OpenErrorView> {
        let split_count = number_under(f.metadata, "split.count"@, 1);
        let no = number_under(f.metadata, "split.no"@, 0);
        if architecture(f) != "qwen4exp"@ {
            Err(about(OpenFault::Architecture, architecture(f)))
        } else if split_count == 0 || split_count > MAX_SPLITS {
            Err(bare(OpenFault::SplitCount(split_count)))
        } else if split_count > 1 && no != 0 {
            Err(bare(OpenFault::NotFirst(no)))
        } else {
            Ok(
                SourceView {
                    shards: 1,
                    split_count,
                    metadata: f.metadata,
                    tensors: f.tensors,
                    data_start: f.data_start,
                    alignment: f.alignment,
                },
            )
        }
    }

    /// The model after one more file.
    pub open spec fn joined(self, f: FileView) -> Result<SourceView, OpenErrorView> {
        let count = number_under(f.metadata, "split.count"@, 1);
        let no = number_under(f.metadata, "split.no"@, u64::MAX);
        if count != self.split_count || no != self.shards {
            Err(bare(OpenFault::ShardNumber { no, count }))
        } else if architecture(f).len() > 0 && architecture(f) != "qwen4exp"@ {
            Err(about(OpenFault::ShardArchitecture, architecture(f)))
        } else {
            match merged(self.tensors, f.tensors, 0) {
                Err(e) => Err(e),
                Ok(tensors) => Ok(SourceView { shards: self.shards + 1, tensors, ..self }),
            }
        }
    }

    /// Whether the model has as many tensors as its first file announces.
    pub open spec fn complete(self) -> Result<(), OpenErrorView> {
        match lookup(self.metadata, "split.tensors.count"@) {
            Some(v) => match value_u64(v) {
                Some(n) => if n != self.tensors.len() {
                    Err(
                        bare(
                            OpenFault::TensorCount {
                                announced: n,
                                found: self.tensors.len() as u64,
                            },
                        ),
                    )
                } else {
                    Ok(())
                },
                None => Ok(()),
            },
            None => Ok(()),
        }
    }
}

/// The tensors of a model with those of one more file from `i` on.
pub open spec fn merged(done: Seq<TensorView>, more: Seq<TensorView>, i: int) -> Result<
    Seq<TensorView>,
    OpenErrorView,
>
    decreases more.len() - i,
{
    if i < 0 || i >= more.len() {
        Ok(done)
    } else if tensor_named(done, more[i].name) is Some {
        Err(about(OpenFault::Duplicate, more[i].name))
    } else {
        merged(with_tensor(done, more[i]), more, i + 1)
    }
}

/// The first tensor is found, or one of the others.
proof fn lemma_first_named(tensors: Seq<TensorView>, i: int, name: Seq<char>)
    requires
        names_ordered(tensors),
        0 <= i < tensors.len(),
    ensures
        tensor_named(tensors.skip(i), name) == (if name == tensors[i].name {
            Some(tensors[i])
        } else {
            tensor_named(tensors.skip(i + 1), name)
        }),
{
    let (a, b) = (tensors.skip(i), tensors.skip(i + 1));
    assert forall|j: int, k: int| 0 <= j < k < a.len() implies comes_before(
        (#[trigger] a[j]).name,
        (#[trigger] a[k]).name,
    ) by {
        assert(a[j] == tensors[i + j] && a[k] == tensors[i + k]);
    }
    assert(a[0] == tensors[i]);
    if name == tensors[i].name {
        lemma_found(a, 0);
    } else if tensor_named(b, name) is Some {
        let j = lemma_named(b, name);
        assert(a[j + 1] == b[j]);
        lemma_found(a, j + 1);
    } else if tensor_named(a, name) is Some {
        let j = lemma_named(a, name);
        assert(b[j - 1] == a[j]);
        lemma_not_named(b, name);
    }
}

/// Merging keeps every tensor and the order.
proof fn lemma_merged(done: Seq<TensorView>, more: Seq<TensorView>, i: int, name: Seq<char>)
    requires
        0 <= i <= more.len(),
        names_ordered(done),
        all_sized(done),
        names_ordered(more),
        all_sized(more),
    ensures
        merged(done, more, i) matches Ok(ts) ==> {
            &&& names_ordered(ts)
            &&& all_sized(ts)
            &&& ts.len() == done.len() + more.len() - i
            &&& tensor_named(ts, name) == (match tensor_named(done, name) {
                Some(t) => Some(t),
                None => tensor_named(more.skip(i), name),
            })
        },
    decreases more.len() - i,
{
    if i < more.len() {
        if tensor_named(done, more[i].name) is None {
            law_a_tensor_more(done, more[i], name);
            lemma_merged(with_tensor(done, more[i]), more, i + 1, name);
            lemma_first_named(more, i, name);
        }
    }
}

/// A model takes over every tensor of a file that joins it, each with its file and offset, and loses
/// none that it had.
pub proof fn law_join_keeps_every_tensor(s: SourceView, f: FileView, name: Seq<char>)
    requires
        s.wf(),
        f.wf(),
    ensures
        s.joined(f) matches Ok(t) ==> {
            &&& t.wf()
            &&& t.shards == s.shards + 1
            &&& t.tensors.len() == s.tensors.len() + f.tensors.len()
            &&& tensor_named(t.tensors, name) == (match tensor_named(s.tensors, name) {
                Some(x) => Some(x),
                None => tensor_named(f.tensors, name),
            })
        },
{
    lemma_merged(s.tensors, f.tensors, 0, name);
    assert(f.tensors.skip(0) =~= f.tensors);
}

/// Bytes of one of the files of a model.
#[derive(Clone, Copy, Debug, PartialEq, Eq, Structural)]
pub struct ReadAt {
    pub shard: usize,
    pub offset: u64,
    pub bytes: usize,
}

/// Why the bytes of a tensor cannot be given.
#[derive(Clone, Copy, Debug, PartialEq, Eq, Structural)]
pub enum ReadFault {
    /// No tensor of that name.
    Missing,
    /// More bytes than memory can hold.
    TooLarge,
    /// A tensor without dimensions.
    NoDimensions,
    /// A row that is no whole number of blocks.
    Layout(GgufFault),
    /// More rows than can be counted.
    RowOverflow,
    /// A row behind the last.
    Row { row: usize, rows: u64 },
    /// A range that cannot be counted.
    RangeOverflow,
    /// A range behind the end of the tensor.
    Range { offset: u64, end: u64, stored: u64 },
    /// An expert behind the last.
    Expert { expert: usize, experts: u64 },
    /// Experts of unequal size.
    Uneven,
}

/// A model that is stored in one or several files.
pub struct GgufSource {
    pub shards: usize,
    pub split_count: u64,
    pub metadata: Vec<(String, MetadataValue)>,
    pub tensors: Vec<TensorInfo>,
    pub data_start: u64,
    pub alignment: u64,
}

impl View for GgufSource {
    type V = SourceView;

    open spec fn view(&self) -> SourceView {
        SourceView {
            shards: self.shards as int,
            split_count: self.split_count,
            metadata: entries_view(self.metadata@),
            tensors: tensors_view(self.tensors@),
            data_start: self.data_start,
            alignment: self.alignment,
        }
    }
}

/// The bytes from `offset` on of a tensor.
pub open spec fn range_spec(t: TensorView, offset: int, bytes: int) -> Result<ReadAt, ReadFault> {
    let end = offset + bytes;
    if end > u64::MAX {
        Err(ReadFault::RangeOverflow)
    } else if end > t.stored_bytes {
        Err(
            ReadFault::Range { offset: offset as u64, end: end as u64, stored: t.stored_bytes },
        )
    } else {
        Ok(
            ReadAt {
                shard: t.shard as usize,
                offset: (t.offset + offset) as u64,
                bytes: bytes as usize,
            },
        )
    }
}

/// The bytes of one row of a tensor.
pub open spec fn row_bytes_spec(t: TensorView) -> Result<usize, ReadFault> {
    if t.dims.len() == 0 {
        Err(ReadFault::NoDimensions)
    } else {
        match t.dtype.stored(t.dims[0] as int) {
            Err(e) => Err(ReadFault::Layout(e)),
            Ok(n) => if n > usize::MAX {
                Err(ReadFault::TooLarge)
            } else {
                Ok(n as usize)
            },
        }
    }
}

/// Where row `row` of a tensor is.
pub open spec fn row_spec(t: TensorView, row: usize) -> Result<ReadAt, ReadFault> {
    match row_bytes_spec(t) {
        Err(e) => Err(e),
        Ok(bytes) => match checked_product(t.dims.skip(1)) {
            None => Err(ReadFault::RowOverflow),
            Some(rows) => if row >= rows {
                Err(ReadFault::Row { row, rows })
            } else {
                range_spec(t, row * bytes, bytes as int)
            },
        },
    }
}

/// Where expert `expert` of a tensor is: an equal part for each index of its last dimension.
pub open spec fn expert_spec(t: TensorView, expert: usize) -> Result<ReadAt, ReadFault> {
    if t.dims.len() == 0 {
        Err(ReadFault::NoDimensions)
    } else {
        let experts = t.dims.last();
        if expert >= experts {
            Err(ReadFault::Expert { expert, experts })
        } else if t.stored_bytes % experts != 0 {
            Err(ReadFault::Uneven)
        } else {
            let stride = t.stored_bytes / experts;
            if stride > usize::MAX {
                Err(ReadFault::TooLarge)
            } else {
                range_spec(t, stride * expert, stride as int)
            }
        }
    }
}

fn tensor_range(t: &TensorInfo, offset: u64, bytes: usize) -> (r: Result<ReadAt, ReadFault>)
    requires
        t.offset + t.stored_bytes <= u64::MAX,
    ensures
        r == range_spec(t@, offset as int, bytes as int),
{
    let end: u64 = match offset.checked_add(bytes as u64) {
        Some(x) => x,
        None => {
            return Err(ReadFault::RangeOverflow);
        },
    };
    if end > t.stored_bytes {
        return Err(ReadFault::Range { offset, end, stored: t.stored_bytes });
    }
    Ok(ReadAt { shard: t.shard, offset: t.offset + offset, bytes })
}

impl GgufSource {
    /// What the tensors keep to, and how many files there are.
    pub open spec fn wf(self) -> bool {
        &&& self@.wf()
        &&& 1 <= self.shards <= self.split_count <= MAX_SPLITS
    }

    /// Begins a model with its first file.
    pub fn open(first: ParsedGguf) -> (r: Result<GgufSource, OpenError>)
        requires
            first@.wf(),
        ensures
            match r {
                Ok(s) => SourceView::opened(first@) == Ok::<SourceView, OpenErrorView>(s@)
                    && s.wf(),
                Err(e) => SourceView::opened(first@) == Err::<SourceView, OpenErrorView>(e@),
            },
    {
        let arch = architecture_of(&first);
        if !same_text(arch.as_str(), "qwen4exp") {
            return Err(about_error(OpenFault::Architecture, arch.as_str()));
        }
        let split_count: u64 = number_for(&first.metadata, "split.count", 1);
        if split_count == 0 || split_count > MAX_SPLITS {
            return Err(bare_error(OpenFault::SplitCount(split_count)));
        }
        let no: u64 = number_for(&first.metadata, "split.no", 0);
        if split_count > 1 && no != 0 {
            return Err(bare_error(OpenFault::NotFirst(no)));
        }
        Ok(
            GgufSource {
                shards: 1,
                split_count,
                metadata: first.metadata,
                tensors: first.tensors,
                data_start: first.data_start,
                alignment: first.alignment,
            },
        )
    }

    /// Adds the next file of the model. A model that a file could not join is not to be used.
    pub fn join(&mut self, f: ParsedGguf) -> (r: Result<(), OpenError>)
        requires
            old(self).wf(),
            old(self).shards < old(self).split_count,
            f@.wf(),
        ensures
            match r {
                Ok(_) => old(self)@.joined(f@) == Ok::<SourceView, OpenErrorView>(final(self)@)
                    && final(self).wf(),
                Err(e) => old(self)@.joined(f@) == Err::<SourceView, OpenErrorView>(e@),
            },
    {
        let count: u64 = number_for(&f.metadata, "split.count", 1);
        let no: u64 = number_for(&f.metadata, "split.no", u64::MAX);
        if count != self.split_count || no != self.shards as u64 {
            return Err(bare_error(OpenFault::ShardNumber { no, count }));
        }
        let arch = architecture_of(&f);
        if !arch.as_str().is_empty() && !same_text(arch.as_str(), "qwen4exp") {
            return Err(about_error(OpenFault::ShardArchitecture, arch.as_str()));
        }
        let ghost more = tensors_view(f.tensors@);
        let ghost goal = merged(old(self)@.tensors, more, 0);
        let mut i: usize = 0;
        while i < f.tensors.len()
            invariant
                i <= f.tensors.len(),
                more == tensors_view(f.tensors@),
                more == f@.tensors,
                goal == merged(old(self)@.tensors, more, 0),
                goal == merged(tensors_view(self.tensors@), more, i as int),
                old(self)@.joined(f@) == (match goal {
                    Err(e) => Err(e),
                    Ok(tensors) => Ok(
                        SourceView { shards: old(self).shards + 1, tensors, ..old(self)@ },
                    ),
                }),
                self.shards == old(self).shards,
                self.split_count == old(self).split_count,
                self.metadata == old(self).metadata,
                self.data_start == old(self).data_start,
                self.alignment == old(self).alignment,
            decreases f.tensors.len() - i,
        {
            let t: &TensorInfo = &f.tensors[i];
            assert(t@ == more[i as int]);
            if find_tensor(&self.tensors, t.name.as_str()).is_some() {
                return Err(about_error(OpenFault::Duplicate, t.name.as_str()));
            }
            let dims: Vec<u64> = t.dims.clone();
            assert(dims@ =~= t.dims@);
            insert_tensor(
                &mut self.tensors,
                TensorInfo {
                    name: t.name.clone(),
                    dims,
                    dtype: t.dtype,
                    shard: t.shard,
                    offset: t.offset,
                    stored_bytes: t.stored_bytes,
                },
            );
            i += 1;
        }
        self.shards = self.shards + 1;
        proof {
            law_join_keeps_every_tensor(old(self)@, f@, Seq::empty());
        }
        Ok(())
    }

    /// The name of the file that joins the model next, its first file having the name `name`; none
    /// once all have joined.
    pub fn next_file(&self, name: &str) -> (r: Result<Option<String>, OpenError>)
        requires
            self.wf(),
        ensures
            match r {
                Ok(None) => self.shards >= self.split_count,
                Ok(Some(s)) => self.shards < self.split_count && sibling_name(
                    name@,
                    self.shards as nat,
                    self.split_count as nat,
                ) == Some(s@),
                Err(e) => self.shards < self.split_count && sibling_name(
                    name@,
                    self.shards as nat,
                    self.split_count as nat,
                ) is None && e@ == about(
                    OpenFault::NotFirstName,
                    split_suffix(1, self.split_count as nat),
                ),
            },
    {
        if self.shards as u64 >= self.split_count {
            return Ok(None);
        }
        match split_sibling_path(name, self.shards, self.split_count as usize) {
            Ok(s) => Ok(Some(s)),
            Err(e) => Err(e),
        }
    }

    /// Checks the number of tensors, once all files have joined.
    pub fn check_complete(&self) -> (r: Result<(), OpenError>)
        ensures
            match r {
                Ok(_) => self@.complete() == Ok::<(), OpenErrorView>(()),
                Err(e) => self@.complete() == Err::<(), OpenErrorView>(e@),
            },
    {
        if let Some(v) = find_value(&self.metadata, "split.tensors.count") {
            if let Some(n) = meta_u64(v) {
                if n != self.tensors.len() as u64 {
                    return Err(
                        bare_error(
                            OpenFault::TensorCount {
                                announced: n,
                                found: self.tensors.len() as u64,
                            },
                        ),
                    );
                }
            }
        }
        Ok(())
    }

    /// The number of files that have joined.
    pub fn shard_count(&self) -> (n: usize)
        ensures
            n == self.shards,
    {
        self.shards
    }

    /// Where the data of the first file starts.
    pub fn data_start(&self) -> (n: u64)
        ensures
            n == self.data_start,
    {
        self.data_start
    }

    /// The alignment of the first file.
    pub fn alignment(&self) -> (n: u64)
        ensures
            n == self.alignment,
    {
        self.alignment
    }

    /// The tensors of the model.
    pub fn tensors(&self) -> (v: &Vec<TensorInfo>)
        ensures
            *v == self.tensors,
    {
        &self.tensors
    }

    /// The tensor of a name.
    pub fn tensor(&self, name: &str) -> (r: Option<&TensorInfo>)
        ensures
            match r {
                Some(t) => tensor_named(self@.tensors, name@) == Some(t@),
                None => tensor_named(self@.tensors, name@) is None,
            },
            self.wf() ==> (r matches Some(t) ==> sized(t@)),
    {
        let r: Option<&TensorInfo> = find_tensor(&self.tensors, name);
        proof {
            if r is Some {
                let i = lemma_named(self@.tensors, name@);
                assert(self.wf() ==> sized(self@.tensors[i]));
            }
        }
        r
    }

    /// Whether there is a tensor of a name.
    pub fn has_tensor(&self, name: &str) -> (r: bool)
        ensures
            r == (tensor_named(self@.tensors, name@) is Some),
    {
        self.tensor(name).is_some()
    }

    /// The metadata value under a key.
    pub fn metadata(&self, key: &str) -> (r: Option<&MetadataValue>)
        ensures
            match r {
                Some(v) => lookup(self@.metadata, key@) == Some(v@),
                None => lookup(self@.metadata, key@) is None,
            },
    {
        find_value(&self.metadata, key)
    }

    /// The value under a key as an unsigned number.
    pub fn u64(&self, key: &str) -> (r: Option<u64>)
        ensures
            r == (match lookup(self@.metadata, key@) {
                Some(v) => value_u64(v),
                None => None,
            }),
    {
        match self.metadata(key) {
            Some(v) => meta_u64(v),
            None => None,
        }
    }

    /// The value under a key as a signed number.
    pub fn i64(&self, key: &str) -> (r: Option<i64>)
        ensures
            r == (match lookup(self@.metadata, key@) {
                Some(ValueView::I64(n)) => Some(n),
                Some(ValueView::U64(n)) => if n <= i64::MAX {
                    Some(n as i64)
                } else {
                    None
                },
                _ => None,
            }),
    {
        match self.metadata(key) {
            Some(MetadataValue::I64(n)) => Some(*n),
            Some(MetadataValue::U64(n)) => if *n <= i64::MAX as u64 {
                Some(*n as i64)
            } else {
                None
            },
            _ => None,
        }
    }

    /// The value under a key where it is a number of any kind, for the caller to take as a
    /// floating-point number.
    pub fn float(&self, key: &str) -> (r: Option<&MetadataValue>)
        ensures
            match r {
                Some(v) => lookup(self@.metadata, key@) == Some(v@) && (v@ is F32 || v@ is F64
                    || v@ is U64 || v@ is I64),
                None => match lookup(self@.metadata, key@) {
                    Some(v) => !(v is F32 || v is F64 || v is U64 || v is I64),
                    None => true,
                },
            },
    {
        match self.metadata(key) {
            Some(v) => match v {
                MetadataValue::F32(_) => Some(v),
                MetadataValue::F64(_) => Some(v),
                MetadataValue::U64(_) => Some(v),
                MetadataValue::I64(_) => Some(v),
                _ => None,
            },
            None => None,
        }
    }

    /// The string under a key.
    pub fn string(&self, key: &str) -> (r: Option<&str>)
        ensures
            match r {
                Some(s) => lookup(self@.metadata, key@) == Some(ValueView::String(s@)),
                None => !(lookup(self@.metadata, key@) matches Some(ValueView::String(_))),
            },
    {
        match self.metadata(key) {
            Some(MetadataValue::String(s)) => Some(s.as_str()),
            _ => None,
        }
    }

    /// The array under a key as signed numbers, where each fits.
    pub fn i64_array(&self, key: &str) -> (r: Option<Vec<i64>>)
        ensures
            match r {
                Some(v) => match lookup(self@.metadata, key@) {
                    Some(ValueView::I64Array(a)) => v@ == a,
                    Some(ValueView::U64Array(a)) => v@.len() == a.len() && forall|i: int|
                        0 <= i < a.len() ==> #[trigger] v@[i] == a[i] as int,
                    _ => false,
                },
                None => match lookup(self@.metadata, key@) {
                    Some(ValueView::I64Array(a)) => false,
                    Some(ValueView::U64Array(a)) => exists|i: int|
                        0 <= i < a.len() && #[trigger] a[i] > i64::MAX,
                    _ => true,
                },
            },
    {
        match self.metadata(key) {
            Some(MetadataValue::I64Array(a)) => {
                let v: Vec<i64> = a.clone();
                assert(v@ =~= a@);
                Some(v)
            },
            Some(MetadataValue::U64Array(a)) => {
                let mut v: Vec<i64> = Vec::new();
                let mut i: usize = 0;
                while i < a.len()
                    invariant
                        i <= a.len(),
                        v.len() == i,
                        lookup(self@.metadata, key@) == Some(ValueView::U64Array(a@)),
                        forall|j: int| 0 <= j < i ==> #[trigger] v@[j] == a@[j] as int,
                    decreases a.len() - i,
                {
                    if a[i] > i64::MAX as u64 {
                        let ghost all = lookup(self@.metadata, key@)->0->U64Array_0;
                        assert(all[i as int] > i64::MAX);
                        return None;
                    }
                    v.push(a[i] as i64);
                    i += 1;
                }
                Some(v)
            },
            _ => None,
        }
    }

    /// The array under a key as unsigned numbers, where each fits.
    pub fn u64_array(&self, key: &str) -> (r: Option<Vec<u64>>)
        ensures
            match r {
                Some(v) => match lookup(self@.metadata, key@) {
                    Some(ValueView::U64Array(a)) => v@ == a,
                    Some(ValueView::I64Array(a)) => v@.len() == a.len() && forall|i: int|
                        0 <= i < a.len() ==> #[trigger] v@[i] == a[i] as int,
                    _ => false,
                },
                None => match lookup(self@.metadata, key@) {
                    Some(ValueView::U64Array(a)) => false,
                    Some(ValueView::I64Array(a)) => exists|i: int|
                        0 <= i < a.len() && #[trigger] a[i] < 0,
                    _ => true,
                },
            },
    {
        match self.metadata(key) {
            Some(MetadataValue::U64Array(a)) => {
                let v: Vec<u64> = a.clone();
                assert(v@ =~= a@);
                Some(v)
            },
            Some(MetadataValue::I64Array(a)) => {
                let mut v: Vec<u64> = Vec::new();
                let mut i: usize = 0;
                while i < a.len()
                    invariant
                        i <= a.len(),
                        v.len() == i,
                        lookup(self@.metadata, key@) == Some(ValueView::I64Array(a@)),
                        forall|j: int| 0 <= j < i ==> #[trigger] v@[j] == a@[j] as int,
                    decreases a.len() - i,
                {
                    if a[i] < 0 {
                        let ghost all = lookup(self@.metadata, key@)->0->I64Array_0;
                        assert(all[i as int] < 0);
                        return None;
                    }
                    v.push(a[i] as u64);
                    i += 1;
                }
                Some(v)
            },
            _ => None,
        }
    }

    /// Where a tensor is.
    pub fn read_tensor(&self, name: &str) -> (r: Result<ReadAt, ReadFault>)
        ensures
            r == (match tensor_named(self@.tensors, name@) {
                None => Err(ReadFault::Missing),
                Some(t) => if t.stored_bytes > usize::MAX {
                    Err(ReadFault::TooLarge)
                } else {
                    Ok(
                        ReadAt {
                            shard: t.shard as usize,
                            offset: t.offset,
                            bytes: t.stored_bytes as usize,
                        },
                    )
                },
            }),
    {
        match self.tensor(name) {
            None => Err(ReadFault::Missing),
            Some(t) => if t.stored_bytes > usize::MAX as u64 {
                Err(ReadFault::TooLarge)
            } else {
                Ok(
                    ReadAt {
                        shard: t.shard,
                        offset: t.offset,
                        bytes: t.stored_bytes as usize,
                    },
                )
            },
        }
    }

    /// The bytes of one row of a tensor.
    pub fn row_stored_bytes(&self, name: &str) -> (r: Result<usize, ReadFault>)
        ensures
            r == (match tensor_named(self@.tensors, name@) {
                None => Err(ReadFault::Missing),
                Some(t) => row_bytes_spec(t),
            }),
    {
        let t: &TensorInfo = match self.tensor(name) {
            None => {
                return Err(ReadFault::Missing);
            },
            Some(t) => t,
        };
        if t.dims.len() == 0 {
            return Err(ReadFault::NoDimensions);
        }
        match t.dtype.stored_bytes(t.dims[0]) {
            Err(e) => Err(ReadFault::Layout(e)),
            Ok(n) => if n > usize::MAX as u64 {
                Err(ReadFault::TooLarge)
            } else {
                Ok(n as usize)
            },
        }
    }

    /// Where one row of a tensor is.
    pub fn read_row(&self, name: &str, row: usize) -> (r: Result<ReadAt, ReadFault>)
        requires
            self.wf(),
        ensures
            r == (match tensor_named(self@.tensors, name@) {
                None => Err(ReadFault::Missing),
                Some(t) => row_spec(t, row),
            }),
    {
        let t: &TensorInfo = match self.tensor(name) {
            None => {
                return Err(ReadFault::Missing);
            },
            Some(t) => t,
        };
        let bytes: usize = match self.row_stored_bytes(name) {
            Err(e) => {
                return Err(e);
            },
            Ok(n) => n,
        };
        let rows: u64 = match multiply(&t.dims, 1) {
            None => {
                return Err(ReadFault::RowOverflow);
            },
            Some(n) => n,
        };
        if row as u64 >= rows {
            return Err(ReadFault::Row { row, rows });
        }
        proof {
            law_rows_partition(t@, row);
        }
        tensor_range(t, row as u64 * bytes as u64, bytes)
    }

    /// Where a range of a tensor is.
    pub fn read_tensor_range(&self, name: &str, offset: u64, bytes: usize) -> (r: Result<
        ReadAt,
        ReadFault,
    >)
        requires
            self.wf(),
        ensures
            r == (match tensor_named(self@.tensors, name@) {
                None => Err(ReadFault::Missing),
                Some(t) => range_spec(t, offset as int, bytes as int),
            }),
    {
        match self.tensor(name) {
            None => Err(ReadFault::Missing),
            Some(t) => tensor_range(t, offset, bytes),
        }
    }

    /// A range of the first file.
    pub fn read_absolute(&self, offset: u64, bytes: usize) -> (r: ReadAt)
        ensures
            r == (ReadAt { shard: 0, offset, bytes }),
    {
        ReadAt { shard: 0, offset, bytes }
    }

    /// Where one expert of a tensor is.
    pub fn read_expert_slice(&self, name: &str, expert: usize) -> (r: Result<ReadAt, ReadFault>)
        requires
            self.wf(),
        ensures
            r == (match tensor_named(self@.tensors, name@) {
                None => Err(ReadFault::Missing),
                Some(t) => expert_spec(t, expert),
            }),
    {
        let t: &TensorInfo = match self.tensor(name) {
            None => {
                return Err(ReadFault::Missing);
            },
            Some(t) => t,
        };
        if t.dims.len() == 0 {
            return Err(ReadFault::NoDimensions);
        }
        let experts: u64 = t.dims[t.dims.len() - 1];
        if expert as u64 >= experts {
            return Err(ReadFault::Expert { expert, experts });
        }
        if t.stored_bytes % experts != 0 {
            return Err(ReadFault::Uneven);
        }
        let stride: u64 = t.stored_bytes / experts;
        if stride > usize::MAX as u64 {
            return Err(ReadFault::TooLarge);
        }
        proof {
            lemma_expert_room(stride as int, experts as int, expert as int, t.stored_bytes as int);
        }
        tensor_range(t, stride * expert as u64, stride as usize)
    }
}

proof fn lemma_expert_room(stride: int, experts: int, expert: int, stored: int)
    requires
        0 <= expert < experts,
        0 <= stored,
        stride == stored / experts,
        stored % experts == 0,
    ensures
        0 <= stride * expert,
        stride * expert + stride <= stored,
{
    vstd::arithmetic::div_mod::lemma_fundamental_div_mod(stored, experts);
    vstd::arithmetic::div_mod::lemma_div_pos_is_pos(stored, experts);
    assert(stride * expert + stride <= stride * experts) by (nonlinear_arith)
        requires
            expert + 1 <= experts,
            0 <= stride,
    ;
    assert(0 <= stride * expert) by (nonlinear_arith)
        requires
            0 <= expert,
            0 <= stride,
    ;
    assert(stride * experts == experts * stride) by (nonlinear_arith);
}

/// The first of the dimensions is a factor like the others.
proof fn lemma_product_first(dims: Seq<u64>)
    requires
        dims.len() > 0,
    ensures
        product(dims) == dims[0] * product(dims.skip(1)),
    decreases dims.len(),
{
    let rest = dims.drop_last();
    if dims.len() == 1 {
        assert(dims.skip(1) =~= Seq::<u64>::empty());
        assert(rest =~= Seq::<u64>::empty());
        assert(product(rest) == 1 && product(dims.skip(1)) == 1);
        assert(product(dims) == 1 * dims[0]);
    } else {
        lemma_product_first(rest);
        assert(dims.skip(1).drop_last() =~= rest.skip(1));
        assert(dims.skip(1).last() == dims.last());
        let (a, b, c) = (dims[0] as int, product(rest.skip(1)), dims.last() as int);
        assert((a * b) * c == a * (b * c)) by (nonlinear_arith);
        assert(rest[0] == dims[0]);
        assert(product(rest) == a * b);
        assert(product(dims) == product(rest) * c);
        assert(product(dims.skip(1)) == b * c);
    }
}

/// The rows of one tensor do not overlap, lie in the tensor and together cover it.
pub proof fn law_rows_partition(t: TensorView, row: usize)
    requires
        sized(t),
        row_bytes_spec(t) is Ok,
        checked_product(t.dims.skip(1)) is Some,
        row < checked_product(t.dims.skip(1))->0,
    ensures
        ({
            let bytes = row_bytes_spec(t)->Ok_0 as int;
            let rows = checked_product(t.dims.skip(1))->0 as int;
            &&& row_spec(t, row) == Ok::<ReadAt, ReadFault>(
                ReadAt {
                    shard: t.shard as usize,
                    offset: (t.offset + row * bytes) as u64,
                    bytes: bytes as usize,
                },
            )
            &&& rows * bytes == t.stored_bytes
            &&& 0 <= row * bytes
            &&& row * bytes + bytes <= t.stored_bytes
        }),
{
    let bytes = row_bytes_spec(t)->Ok_0 as int;
    let rows = checked_product(t.dims.skip(1))->0 as int;
    let (d, block, size) = (t.dims[0] as int, t.dtype.block_len() as int, t.dtype.block_bytes() as int);
    let k = d / block;
    lemma_checked_product(t.dims);
    lemma_checked_product(t.dims.skip(1));
    lemma_product_first(t.dims);
    vstd::arithmetic::div_mod::lemma_fundamental_div_mod(d, block);
    assert(d * rows == (k * rows) * block) by (nonlinear_arith)
        requires
            d == block * k + 0,
    ;
    vstd::arithmetic::div_mod::lemma_div_multiples_vanish(k * rows, block);
    assert((k * rows) * block == block * (k * rows)) by (nonlinear_arith);
    assert(rows * (k * size) == (k * rows) * size) by (nonlinear_arith);
    assert(row * bytes + bytes <= rows * bytes && 0 <= row * bytes) by (nonlinear_arith)
        requires
            0 <= row,
            row + 1 <= rows,
            0 <= bytes,
    ;
}

/// The slices of the experts of one tensor do not overlap, lie in the tensor and together cover it.
pub proof fn law_expert_slices_partition(t: TensorView, expert: usize)
    requires
        t.dims.len() > 0,
        expert < t.dims.last(),
        t.stored_bytes % t.dims.last() == 0,
        t.stored_bytes / t.dims.last() <= usize::MAX,
        t.offset + t.stored_bytes <= u64::MAX,
    ensures
        ({
            let stride = (t.stored_bytes / t.dims.last()) as int;
            &&& expert_spec(t, expert) == Ok::<ReadAt, ReadFault>(
                ReadAt {
                    shard: t.shard as usize,
                    offset: (t.offset + stride * expert) as u64,
                    bytes: stride as usize,
                },
            )
            &&& stride * t.dims.last() == t.stored_bytes
            &&& 0 <= stride * expert
            &&& stride * expert + stride <= t.stored_bytes
        }),
{
    let experts = t.dims.last() as int;
    let stride = (t.stored_bytes / t.dims.last()) as int;
    lemma_expert_room(stride, experts, expert as int, t.stored_bytes as int);
    vstd::arithmetic::div_mod::lemma_fundamental_div_mod(t.stored_bytes as int, experts);
    assert(stride * experts == experts * stride) by (nonlinear_arith);
}

/// The bytes of a file that a range names.
pub open spec fn range_of(file: Seq<u8>, at: ReadAt) -> Seq<u8> {
    file.subrange(at.offset as int, at.offset + at.bytes)
}

/// The slices of the first `n` experts of a tensor, joined.
pub open spec fn joined_slices(file: Seq<u8>, t: TensorView, n: nat) -> Seq<u8>
    decreases n,
{
    if n == 0 {
        Seq::empty()
    } else {
        joined_slices(file, t, (n - 1) as nat) + range_of(
            file,
            expert_spec(t, (n - 1) as usize)->Ok_0,
        )
    }
}

proof fn lemma_joined_slices(file: Seq<u8>, t: TensorView, n: nat)
    requires
        t.dims.len() > 0,
        n <= t.dims.last() <= usize::MAX,
        t.stored_bytes % t.dims.last() == 0,
        t.stored_bytes / t.dims.last() <= usize::MAX,
        t.offset + t.stored_bytes <= file.len(),
        t.offset + t.stored_bytes <= u64::MAX,
        t.dims.last() > 0,
    ensures
        ({
            let stride = (t.stored_bytes / t.dims.last()) as int;
            &&& 0 <= stride * n <= t.stored_bytes
            &&& joined_slices(file, t, n) == file.subrange(t.offset as int, t.offset + stride * n)
        }),
    decreases n,
{
    let stride = (t.stored_bytes / t.dims.last()) as int;
    if n == 0 {
        assert(stride * n == 0) by (nonlinear_arith)
            requires
                n == 0,
        ;
        assert(joined_slices(file, t, n) =~= file.subrange(t.offset as int, t.offset as int));
    } else {
        let m = (n - 1) as nat;
        lemma_joined_slices(file, t, m);
        law_expert_slices_partition(t, m as usize);
        assert(stride * n == stride * m + stride) by (nonlinear_arith)
            requires
                n == m + 1,
        ;
        let at = expert_spec(t, m as usize)->Ok_0;
        assert(at.offset == t.offset + stride * m && at.bytes == stride);
        assert(joined_slices(file, t, n) =~= file.subrange(t.offset as int, t.offset + stride * n));
    }
}

/// The slices of all experts of a tensor, joined in order, are the tensor byte for byte, each is as
/// long as the others, and there is no slice of an expert that the tensor does not have.
pub proof fn law_expert_slices_join_to_the_tensor(file: Seq<u8>, t: TensorView, expert: usize)
    requires
        t.dims.len() > 0,
        0 < t.dims.last() <= usize::MAX,
        t.stored_bytes % t.dims.last() == 0,
        t.stored_bytes / t.dims.last() <= usize::MAX,
        t.offset + t.stored_bytes <= file.len(),
        t.offset + t.stored_bytes <= u64::MAX,
    ensures
        joined_slices(file, t, t.dims.last() as nat) == file.subrange(
            t.offset as int,
            t.offset + t.stored_bytes,
        ),
        expert_spec(t, expert) is Ok <==> expert < t.dims.last(),
        expert < t.dims.last() ==> range_of(file, expert_spec(t, expert)->Ok_0).len()
            == t.stored_bytes / t.dims.last(),
{
    lemma_joined_slices(file, t, t.dims.last() as nat);
    if expert < t.dims.last() {
        law_expert_slices_partition(t, expert);
    } else {
        law_expert_slices_partition(t, 0);
    }
}

/// The bytes of a file that a range names, where the file has them.
pub fn slice<'a>(file: &'a [u8], offset: u64, bytes: usize) -> (r: Option<&'a [u8]>)
    ensures
        match r {
            Some(s) => offset + bytes <= file@.len() && s@ == file@.subrange(
                offset as int,
                offset + bytes,
            ),
            None => offset + bytes > file@.len(),
        },
{
    let len: usize = file.len();
    if offset > len as u64 || bytes > len - offset as usize {
        return None;
    }
    Some(slice_subrange(file, offset as usize, offset as usize + bytes))
}

/// What a tensor holds in files that may not be at hand.
pub open spec fn mapped(t: TensorView, maps: Seq<Option<Vec<u8>>>) -> Option<Seq<u8>> {
    if 0 <= t.shard < maps.len() && maps[t.shard] is Some && t.offset + t.stored_bytes
        <= (maps[t.shard]->0)@.len() {
        Some((maps[t.shard]->0)@.subrange(t.offset as int, t.offset + t.stored_bytes))
    } else {
        None
    }
}

/// Why a row cannot be decoded.
#[derive(Clone, Copy, Debug, PartialEq, Eq, Structural)]
pub enum RowReadFault {
    /// It cannot be found.
    Read(ReadFault),
    /// The file it is in is not there, or too short.
    File(ReadAt),
    /// It is no row of its tensor.
    Decode(RowFault),
}

/// The bytes that `at` names.
pub open spec fn bytes_at(files: Seq<Vec<u8>>, at: ReadAt) -> Option<Seq<u8>> {
    if at.shard < files.len() && at.offset + at.bytes <= files[at.shard as int]@.len() {
        Some(files[at.shard as int]@.subrange(at.offset as int, at.offset + at.bytes))
    } else {
        None
    }
}

/// What row `row` of a tensor decodes to.
pub open spec fn decoded(t: TensorView, row: usize, files: Seq<Vec<u8>>, tables: IqTables) -> Result<
    Seq<Term>,
    RowReadFault,
> {
    match row_spec(t, row) {
        Err(e) => Err(RowReadFault::Read(e)),
        Ok(at) => match bytes_at(files, at) {
            None => Err(RowReadFault::File(at)),
            Some(b) => match row_check(t.dtype, b.len() as int, t.dims[0] as int) {
                Err(e) => Err(RowReadFault::Decode(e)),
                Ok(_) => Ok(
                    Seq::new(t.dims[0] as nat, |e: int| term_spec(t.dtype, b, e, tables)),
                ),
            },
        },
    }
}

impl GgufSource {
    /// The bytes of a tensor, where its file is at hand and long enough.
    pub fn mapped_tensor<'a>(&self, maps: &'a Vec<Option<Vec<u8>>>, name: &str) -> (r: Option<
        &'a [u8],
    >)
        ensures
            match r {
                Some(s) => match tensor_named(self@.tensors, name@) {
                    Some(t) => mapped(t, maps@) == Some(s@),
                    None => false,
                },
                None => match tensor_named(self@.tensors, name@) {
                    Some(t) => mapped(t, maps@) is None,
                    None => true,
                },
            },
    {
        let t: &TensorInfo = match self.tensor(name) {
            None => {
                return None;
            },
            Some(t) => t,
        };
        if t.shard >= maps.len() {
            return None;
        }
        match &maps[t.shard] {
            None => None,
            Some(m) => {
                let len: usize = m.len();
                if t.stored_bytes > len as u64 {
                    return None;
                }
                slice(m.as_slice(), t.offset, t.stored_bytes as usize)
            },
        }
    }

    /// Decodes a row of a tensor, `files` holding the files of the model.
    pub fn read_row_f32(&self, files: &Vec<Vec<u8>>, name: &str, row: usize, tables: &IqTables) -> (r:
        Result<Vec<Term>, RowReadFault>)
        requires
            self.wf(),
            tables.wf(),
            tensor_named(self@.tensors, name@) matches Some(t) ==> t.dims[0] <= usize::MAX,
        ensures
            match r {
                Ok(v) => match tensor_named(self@.tensors, name@) {
                    Some(t) => decoded(t, row, files@, *tables) == Ok::<Seq<Term>, RowReadFault>(
                        v@,
                    ),
                    None => false,
                },
                Err(e) => match tensor_named(self@.tensors, name@) {
                    Some(t) => decoded(t, row, files@, *tables) == Err::<Seq<Term>, RowReadFault>(
                        e,
                    ),
                    None => e == RowReadFault::Read(ReadFault::Missing),
                },
            },
    {
        let t: &TensorInfo = match self.tensor(name) {
            None => {
                return Err(RowReadFault::Read(ReadFault::Missing));
            },
            Some(t) => t,
        };
        let at: ReadAt = match self.read_row(name, row) {
            Err(e) => {
                return Err(RowReadFault::Read(e));
            },
            Ok(at) => at,
        };
        if at.shard >= files.len() {
            return Err(RowReadFault::File(at));
        }
        match slice(files[at.shard].as_slice(), at.offset, at.bytes) {
            None => Err(RowReadFault::File(at)),
            Some(b) => match decode_row(t.dtype, b, t.dims[0] as usize, tables) {
                Err(e) => Err(RowReadFault::Decode(e)),
                Ok(v) => Ok(v),
            },
        }
    }
}

/// The files of a model are numbered from one on, in five digits each, and named alike but for that.
pub proof fn law_files_of_a_model_are_named_alike(stem: Seq<char>, index: nat, count: nat)
    ensures
        sibling_name(
            stem + ("-"@ + padded(1, 5) + "-of-"@ + padded(count, 5) + ".gguf"@),
            index,
            count,
        ) == Some(stem + ("-"@ + padded(index + 1, 5) + "-of-"@ + padded(count, 5) + ".gguf"@)),
{
    let end = "-"@ + padded(1, 5) + "-of-"@ + padded(count, 5) + ".gguf"@;
    let name = stem + end;
    assert(name.skip(name.len() - end.len()) =~= end);
    assert(name.take(name.len() - end.len()) =~= stem);
}

/// A first file opens where it says it is of this kind of model and the first of its files; a further one
/// joins where it says it is the next of as many.
pub proof fn law_which_files_belong_together(f: FileView, s: SourceView)
    ensures
        SourceView::opened(f) is Ok ==> lookup(f.metadata, "general.architecture"@) == Some(
            ValueView::String("qwen4exp"@),
        ),
        SourceView::opened(f) matches Ok(t) ==> {
            &&& t.shards == 1
            &&& 1 <= t.split_count <= 1024
            &&& t.split_count == number_under(f.metadata, "split.count"@, 1)
            &&& t.split_count > 1 ==> number_under(f.metadata, "split.no"@, 0) == 0
            &&& t.tensors == f.tensors && t.metadata == f.metadata
            &&& t.data_start == f.data_start && t.alignment == f.alignment
        },
        s.joined(f) matches Ok(t) ==> {
            &&& number_under(f.metadata, "split.count"@, 1) == s.split_count
            &&& number_under(f.metadata, "split.no"@, u64::MAX) == s.shards
            &&& lookup(f.metadata, "general.architecture"@) matches Some(ValueView::String(a)) ==> a.len()
                == 0 || a == "qwen4exp"@
            &&& t.metadata == s.metadata && t.split_count == s.split_count
            &&& t.data_start == s.data_start && t.alignment == s.alignment
        },
        s.complete() is Ok <==> (match lookup(s.metadata, "split.tensors.count"@) {
            Some(ValueView::U64(n)) => n == s.tensors.len(),
            Some(ValueView::I64(n)) => n < 0 || n == s.tensors.len(),
            _ => true,
        }),
{
    reveal_strlit("qwen4exp");
    assert("qwen4exp"@.len() == 8);
}

/// A part of a tensor is read where the tensor is, as far behind its beginning as is said, and never from
/// beyond its end.
pub proof fn law_parts_are_read_inside_the_tensor(t: TensorView, offset: int, bytes: int)
    requires
        0 <= offset,
        0 <= bytes <= usize::MAX,
        0 <= t.shard <= usize::MAX,
        t.offset + t.stored_bytes <= u64::MAX,
    ensures
        range_spec(t, offset, bytes) is Ok <==> offset + bytes <= t.stored_bytes,
        range_spec(t, offset, bytes) matches Ok(r) ==> r.shard == t.shard && r.bytes == bytes && r.offset
            - t.offset == offset,
{
}

} // verus!
