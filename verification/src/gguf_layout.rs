//! How a file of tensors is laid out: where its numbers, texts and lists stand, and what they mean.

use vstd::prelude::*;

use crate::bytes::{le, signed};
use crate::gguf::{
    aligned, all_listed_at, all_placed, array_at, entries_at, file_spec, keeps, listed_at, lookup,
    number_at, string_at, strings_skipped, value_at, value_u64, with_tensor, GgmlType,
    GgufFault, ListedView, TensorView, ValueView,
};

verus! {

/// The number that a type goes by in a file.
pub open spec fn type_number(t: GgmlType) -> u32 {
    match t {
        GgmlType::F32 => 0,
        GgmlType::F16 => 1,
        GgmlType::Q5_0 => 6,
        GgmlType::Q8_0 => 8,
        GgmlType::Q4K => 12,
        GgmlType::Q5K => 13,
        GgmlType::Q6K => 14,
        GgmlType::Iq2Xxs => 16,
        GgmlType::Iq2Xs => 17,
        GgmlType::Iq3Xxs => 18,
        GgmlType::Iq4Nl => 20,
        GgmlType::Iq3S => 21,
        GgmlType::Iq2S => 22,
        GgmlType::Iq4Xs => 23,
        GgmlType::Bf16 => 30,
        GgmlType::Q2_0 => 42,
    }
}

/// A number names a type if and only if the type goes by it.
pub proof fn law_types_go_by_their_numbers(t: GgmlType, id: u32)
    ensures
        GgmlType::of_id(id) == Some(t) <==> id == type_number(t),
{
}

/// What a block is made of adds up: the scales of the block and of its groups, and the bits of its
/// elements.
pub proof fn law_the_parts_of_a_block_add_up(t: GgmlType, blocks: int)
    requires
        0 <= blocks,
        blocks * 256 <= usize::MAX,
    ensures
        t is F32 ==> t.stored(blocks) == Ok::<u64, GgufFault>((blocks * 4) as u64),
        t is F16 || t is Bf16 ==> t.stored(blocks) == Ok::<u64, GgufFault>((blocks * 2) as u64),
        t is Q8_0 ==> t.stored(blocks * 32) == Ok::<u64, GgufFault>((blocks * (2 + 32)) as u64),
        t is Q5_0 ==> t.stored(blocks * 32) == Ok::<u64, GgufFault>((blocks * (2 + 4 + 16)) as u64),
        t is Iq4Nl ==> t.stored(blocks * 32) == Ok::<u64, GgufFault>((blocks * (2 + 16)) as u64),
        t is Q2_0 ==> t.stored(blocks * 64) == Ok::<u64, GgufFault>((blocks * (2 + 16)) as u64),
        t is Q4K ==> t.stored(blocks * 256) == Ok::<u64, GgufFault>((blocks * (2 + 2 + 12 + 128)) as u64),
        t is Q5K ==> t.stored(blocks * 256) == Ok::<u64, GgufFault>(
            (blocks * (2 + 2 + 12 + 32 + 128)) as u64,
        ),
        t is Q6K ==> t.stored(blocks * 256) == Ok::<u64, GgufFault>((blocks * (128 + 64 + 16 + 2)) as u64),
        t is Iq2Xxs ==> t.stored(blocks * 256) == Ok::<u64, GgufFault>((blocks * (2 + 64)) as u64),
        t is Iq2Xs ==> t.stored(blocks * 256) == Ok::<u64, GgufFault>((blocks * (2 + 64 + 8)) as u64),
        t is Iq2S ==> t.stored(blocks * 256) == Ok::<u64, GgufFault>(
            (blocks * (2 + 32 + 32 + 8 + 8)) as u64,
        ),
        t is Iq3Xxs ==> t.stored(blocks * 256) == Ok::<u64, GgufFault>((blocks * (2 + 64 + 32)) as u64),
        t is Iq3S ==> t.stored(blocks * 256) == Ok::<u64, GgufFault>(
            (blocks * (2 + 64 + 8 + 32 + 4)) as u64,
        ),
        t is Iq4Xs ==> t.stored(blocks * 256) == Ok::<u64, GgufFault>((blocks * (2 + 2 + 4 + 128)) as u64),
{
}

/// Only whole blocks are stored.
pub proof fn law_only_whole_blocks_are_stored(t: GgmlType, elements: int)
    requires
        0 <= elements,
    ensures
        t.stored(elements) is Ok ==> elements % t.block_len() == 0,
        t.stored(elements) matches Ok(n) ==> n * t.block_len() == elements * t.block_bytes(),
{
    let (l, w) = (t.block_len(), t.block_bytes());
    if elements % l == 0 {
        let k = elements / l;
        vstd::arithmetic::div_mod::lemma_fundamental_div_mod(elements, l);
        assert(elements == l * k);
        assert((k * w) * l == (l * k) * w) by (nonlinear_arith);
    }
}

/// A place is moved up to the next multiple, and not beyond.
pub proof fn law_up_to_the_next_multiple(value: int, alignment: int)
    requires
        alignment > 0,
    ensures
        value <= aligned(value, alignment) < value + alignment,
        aligned(value, alignment) % alignment == 0,
{
    let n = value + alignment - 1;
    vstd::arithmetic::div_mod::lemma_fundamental_div_mod(n, alignment);
    let q = n / alignment;
    assert(q * alignment == alignment * q) by (nonlinear_arith);
    vstd::arithmetic::div_mod::lemma_mod_multiples_basic(q, alignment);
}

/// A text is its length in eight bytes and then that many bytes.
pub proof fn law_a_text_follows_its_length(b: Seq<u8>, p: int)
    requires
        0 <= p,
        string_at(b, p) is Ok,
    ensures
        ({
            let (s, q) = string_at(b, p)->Ok_0;
            let n = le(b, p, 8);
            &&& q == p + 8 + n
            &&& q <= b.len()
            &&& vstd::utf8::valid_utf8(b.subrange(p + 8, q))
            &&& s == vstd::utf8::decode_utf8(b.subrange(p + 8, q))
        }),
{
}

/// Where a listed tensor has its parts: its name, how many dimensions it has, these, its type, and where
/// its bytes begin.
pub proof fn law_where_a_listed_tensor_has_its_parts(b: Seq<u8>, p: int, i: int)
    requires
        0 <= p,
        listed_at(b, p) is Ok,
    ensures
        ({
            let (t, end) = listed_at(b, p)->Ok_0;
            let q = p + 8 + le(b, p, 8);
            let rank = le(b, q, 4);
            &&& t.name == vstd::utf8::decode_utf8(b.subrange(p + 8, q))
            &&& 1 <= rank <= 8
            &&& t.dims.len() == rank
            &&& 0 <= i < rank ==> t.dims[i] == le(b, q + 4 + 8 * i, 8) as u64
            &&& type_number(t.dtype) == le(b, q + 4 + 8 * rank, 4) as u32
            &&& t.relative_offset == le(b, q + 8 + 8 * rank, 8) as u64
            &&& end == q + 16 + 8 * rank
            &&& end <= b.len()
        }),
{
    let q = p + 8 + le(b, p, 8);
    let rank = le(b, q, 4);
    assert(i * 8 == 8 * i);
    law_types_go_by_their_numbers(
        listed_at(b, p)->Ok_0.0.dtype,
        le(b, q + 4 + 8 * rank, 4) as u32,
    );
}

/// How many bytes a number of a metadata type has, and whether it has a sign; texts and lists are none.
pub open spec fn number_type(ty: u32, width: nat, with_sign: bool) -> bool {
    ||| ty == 0 && width == 1 && !with_sign
    ||| ty == 1 && width == 1 && with_sign
    ||| ty == 2 && width == 2 && !with_sign
    ||| ty == 3 && width == 2 && with_sign
    ||| ty == 4 && width == 4 && !with_sign
    ||| ty == 5 && width == 4 && with_sign
    ||| ty == 10 && width == 8 && !with_sign
    ||| ty == 11 && width == 8 && with_sign
}

/// A whole number is the bytes that stand for it, with its sign where its type has one.
pub proof fn law_whole_numbers_are_their_bytes(
    b: Seq<u8>,
    p: int,
    ty: u32,
    keep: bool,
    width: nat,
    with_sign: bool,
)
    requires
        number_type(ty, width, with_sign),
    ensures
        p + width > b.len() ==> value_at(b, p, ty, keep) == Err::<(ValueView, int), GgufFault>(
            GgufFault::Eof,
        ),
        p + width <= b.len() && !with_sign ==> value_at(b, p, ty, keep) == Ok::<
            (ValueView, int),
            GgufFault,
        >((ValueView::U64(le(b, p, width) as u64), p + width)),
        p + width <= b.len() && with_sign ==> value_at(b, p, ty, keep) == Ok::<
            (ValueView, int),
            GgufFault,
        >((ValueView::I64(signed(le(b, p, width), width) as i64), p + width)),
{
}

/// Numbers with a point are kept as their bytes, four or eight; a truth is any byte but zero.
pub proof fn law_other_values_are_their_bytes(b: Seq<u8>, p: int, keep: bool)
    requires
        p + 8 <= b.len(),
    ensures
        value_at(b, p, 6, keep) == Ok::<(ValueView, int), GgufFault>(
            (ValueView::F32(le(b, p, 4) as u32), p + 4),
        ),
        value_at(b, p, 12, keep) == Ok::<(ValueView, int), GgufFault>(
            (ValueView::F64(le(b, p, 8) as u64), p + 8),
        ),
        value_at(b, p, 7, keep) == Ok::<(ValueView, int), GgufFault>((ValueView::Bool(b[p] != 0), p + 1)),
        value_at(b, p, 8, keep) is Ok ==> string_at(b, p) is Ok,
        value_at(b, p, 8, keep) matches Ok((v, q)) ==> string_at(b, p) matches Ok((s, r)) && v
            == ValueView::String(s) && q == r,
{
    reveal_with_fuel(le, 2);
}

/// What the place `i` of a list holds.
pub open spec fn item(v: ValueView, i: int) -> ValueView {
    match v {
        ValueView::U64Array(a) => ValueView::U64(a[i]),
        ValueView::I64Array(a) => ValueView::I64(a[i]),
        ValueView::F32Array(a) => ValueView::F32(a[i]),
        ValueView::F64Array(a) => ValueView::F64(a[i]),
        _ => v,
    }
}

/// How many items a list has.
pub open spec fn item_count(v: ValueView) -> nat {
    match v {
        ValueView::U64Array(a) => a.len(),
        ValueView::I64Array(a) => a.len(),
        ValueView::F32Array(a) => a.len(),
        ValueView::F64Array(a) => a.len(),
        ValueView::IgnoredArray(n) => n as nat,
        _ => 0,
    }
}

/// A list is the type of its items, how many there are, and the items one behind the other, each read as
/// a value of that type is.
pub proof fn law_lists_hold_values(b: Seq<u8>, p: int, i: int, width: int)
    requires
        0 <= p,
        value_at(b, p, 9, true) is Ok,
        !(value_at(b, p, 9, true)->Ok_0.0 is IgnoredArray),
        0 <= i < le(b, p + 4, 8),
        ({
            let ty = le(b, p, 4) as u32;
            ||| number_type(ty, width as nat, true)
            ||| number_type(ty, width as nat, false)
            ||| ty == 6 && width == 4
            ||| ty == 12 && width == 8
        }),
        width >= 0,
    ensures
        ({
            let (v, end) = value_at(b, p, 9, true)->Ok_0;
            let n = le(b, p + 4, 8);
            &&& item_count(v) == n
            &&& end == p + 12 + n * width
            &&& value_at(b, p + 12 + i * width, le(b, p, 4) as u32, true) == Ok::<
                (ValueView, int),
                GgufFault,
            >((item(v, i), p + 12 + i * width + width))
        }),
{
    let n = le(b, p + 4, 8) as int;
    assert((i + 1) * width <= n * width) by (nonlinear_arith)
        requires
            i + 1 <= n,
            width >= 0,
    ;
    assert((i + 1) * width == i * width + width) by (nonlinear_arith);
}

/// A list of numbers that is passed over ends where it would end if it were kept.
pub proof fn law_a_list_ends_where_it_ends(b: Seq<u8>, p: int)
    requires
        value_at(b, p, 9, true) is Ok,
        !(value_at(b, p, 9, true)->Ok_0.0 is IgnoredArray),
        value_at(b, p, 9, true)->Ok_0.1 <= 0x7fff_ffff_ffff_ffff,
        value_at(b, p, 9, false) is Ok,
    ensures
        value_at(b, p, 9, false)->Ok_0.1 == value_at(b, p, 9, true)->Ok_0.1,
        item_count(value_at(b, p, 9, false)->Ok_0.0) == item_count(value_at(b, p, 9, true)->Ok_0.0),
{
    let ty = le(b, p, 4) as u32;
    let n = le(b, p + 4, 8) as int;
    let w = crate::gguf::width_of(ty)->0 as int;
    assert(n * w == w * n) by (nonlinear_arith);
}

/// Passing over a list of texts passes over one after the other.
pub proof fn law_texts_are_passed_one_by_one(b: Seq<u8>, p: int, n: nat)
    requires
        string_at(b, p) is Ok,
        string_at(b, p)->Ok_0.1 <= 0x7fff_ffff_ffff_ffff,
    ensures
        strings_skipped(b, p, 0) == Ok::<int, GgufFault>(p),
        strings_skipped(b, p, n + 1) == strings_skipped(b, string_at(b, p)->Ok_0.1, n),
{
}

/// Of several entries of a key the last counts.
pub proof fn law_the_last_entry_of_a_key_counts(
    entries: Seq<(Seq<char>, ValueView)>,
    key: Seq<char>,
    value: ValueView,
    other: Seq<char>,
)
    ensures
        lookup(entries.push((key, value)), key) == Some(value),
        other != key ==> lookup(entries.push((key, value)), other) == lookup(entries, other),
        lookup(Seq::empty(), key) is None,
{
    let all = entries.push((key, value));
    assert(all.drop_last() =~= entries);
    assert(all.last() == (key, value));
}

proof fn lemma_passed(b: Seq<u8>, p: int, n: nat)
    ensures
        strings_skipped(b, p, n) matches Ok(q) ==> p <= q,
    decreases n,
{
    if n > 0 {
        match number_at(b, p, 8) {
            Err(e) => {},
            Ok((len, q)) => {
                lemma_passed(b, q + len, (n - 1) as nat);
            },
        }
    }
}

proof fn lemma_entry(b: Seq<u8>, p: int)
    ensures
        crate::gguf::entry_at(b, p) matches Ok((kv, q)) ==> p <= q,
{
    match string_at(b, p) {
        Err(e) => {},
        Ok((key, q)) => {
            let ty = le(b, q, 4) as u32;
            let r = q + 4;
            let n = le(b, r + 4, 8);
            lemma_passed(b, r + 12, n);
            lemma_list(b, r, keeps(key));
        },
    }
}

proof fn lemma_list(b: Seq<u8>, p: int, keep: bool)
    ensures
        array_at(b, p, keep) matches Ok((v, q)) ==> p <= q,
{
    let ty = le(b, p, 4) as u32;
    let n = le(b, p + 4, 8);
    lemma_passed(b, p + 12, n);
    match crate::gguf::width_of(ty) {
        None => {},
        Some(w) => {
            assert(w * n >= 0 && n * w >= 0) by (nonlinear_arith)
                requires
                    n >= 0,
                    w >= 0,
            ;
        },
    }
}

proof fn lemma_entries(b: Seq<u8>, p: int, n: nat, done: Seq<(Seq<char>, ValueView)>)
    ensures
        entries_at(b, p, n, done) matches Ok((v, q)) ==> v.len() == done.len() + n && p <= q,
    decreases n,
{
    if n > 0 {
        match crate::gguf::entry_at(b, p) {
            Err(e) => {},
            Ok((kv, q)) => {
                lemma_entry(b, p);
                lemma_entries(b, q, (n - 1) as nat, done.push(kv));
            },
        }
    }
}

proof fn lemma_listed(b: Seq<u8>, p: int, n: nat, done: Seq<ListedView>)
    ensures
        all_listed_at(b, p, n, done) matches Ok((v, q)) ==> v.len() == done.len() + n && p <= q,
    decreases n,
{
    if n > 0 {
        match listed_at(b, p) {
            Err(e) => {},
            Ok((t, q)) => {
                lemma_listed(b, q, (n - 1) as nat, done.push(t));
            },
        }
    }
}

proof fn lemma_placed(
    listed: Seq<ListedView>,
    i: int,
    start: u64,
    alignment: u64,
    file: int,
    shard: int,
    done: Seq<TensorView>,
)
    requires
        0 <= i <= listed.len(),
    ensures
        all_placed(listed, i, start, alignment, file, shard, done) matches Ok(v) ==> v.len() == done.len()
            + listed.len() - i,
    decreases listed.len() - i,
{
    if i < listed.len() {
        match crate::gguf::placed(listed[i], start, alignment, file, shard) {
            Err(e) => {},
            Ok(t) => {
                lemma_place_bound(done, t.name);
                lemma_placed(listed, i + 1, start, alignment, file, shard, with_tensor(done, t));
            },
        }
    }
}

proof fn lemma_place_bound(tensors: Seq<TensorView>, name: Seq<char>)
    ensures
        0 <= crate::gguf::place_of(tensors, name) <= tensors.len(),
    decreases tensors.len(),
{
    if tensors.len() > 0 {
        lemma_place_bound(tensors.drop_last(), name);
    }
}

/// What a file begins with: the four letters, the version, how many tensors there are and how many
/// entries; all of these are read, and the bytes of the tensors begin at a multiple of the alignment.
pub proof fn law_what_a_file_begins_with(b: Seq<u8>, file: int, shard: int)
    requires
        file_spec(b, file, shard) is Ok,
        file <= 0x7fff_ffff_ffff_ffff,
    ensures
        ({
            let f = file_spec(b, file, shard)->Ok_0;
            &&& b.len() >= 24
            &&& b[0] as char == 'G' && b[1] as char == 'G' && b[2] as char == 'U' && b[3] as char == 'F'
            &&& le(b, 4, 4) == 3
            &&& f.tensors.len() == le(b, 8, 8)
            &&& f.metadata.len() == le(b, 16, 8)
            &&& f.alignment > 0
            &&& f.data_start as int % f.alignment as int == 0
            &&& f.data_start <= file
        }),
{
    let (tensors, entries) = (le(b, 8, 8), le(b, 16, 8));
    lemma_entries(b, 24, entries, Seq::empty());
    let (metadata, q) = entries_at(b, 24, entries, Seq::empty())->Ok_0;
    lemma_listed(b, q, tensors, Seq::empty());
    let (listed, end) = all_listed_at(b, q, tensors, Seq::empty())->Ok_0;
    let f = file_spec(b, file, shard)->Ok_0;
    lemma_placed(listed, 0, f.data_start, f.alignment, file, shard, Seq::empty());
    law_up_to_the_next_multiple(end, f.alignment as int);
    lemma_letters(b);
}

proof fn lemma_letters(b: Seq<u8>)
    ensures
        le(b, 0, 4) == 0x4655_4747 ==> b[0] == 0x47 && b[1] == 0x47 && b[2] == 0x55 && b[3] == 0x46,
{
    reveal_with_fuel(le, 5);
    assert(le(b, 3, 1) == b[3]);
    assert(le(b, 2, 2) == b[2] + 256 * b[3]);
    assert(le(b, 1, 3) == b[1] + 256 * le(b, 2, 2));
    assert(le(b, 0, 4) == b[0] + 256 * le(b, 1, 3));
}

/// Which lists are kept: those of the model's own keys; and how large a value is where a number is wanted.
pub proof fn law_what_is_kept_of_the_metadata(rest: Seq<char>, n: u64, m: i64)
    ensures
        keeps("qwen4exp."@ + rest),
        keeps("general.alignment"@),
        value_u64(ValueView::U64(n)) == Some(n),
        m >= 0 ==> value_u64(ValueView::I64(m)) == Some(m as u64),
        m < 0 ==> value_u64(ValueView::I64(m)) is None,
{
    assert(("qwen4exp."@ + rest).take("qwen4exp."@.len() as int) =~= "qwen4exp."@);
}

} // verus!
