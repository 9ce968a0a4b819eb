//! Little-endian numbers in byte sequences.

use vstd::prelude::*;

verus! {

/// 256 to the power of `w`.
pub open spec fn base(w: nat) -> nat
    decreases w,
{
    if w == 0 {
        1
    } else {
        256 * base((w - 1) as nat)
    }
}

/// The number that the `w` bytes from `p` on write, least significant byte first.
pub open spec fn le(b: Seq<u8>, p: int, w: nat) -> nat
    decreases w,
{
    if w == 0 {
        0
    } else {
        (b[p] + 256 * le(b, p + 1, (w - 1) as nat)) as nat
    }
}

/// The `w` bytes of a number, least significant byte first.
pub open spec fn le_bytes(v: nat, w: nat) -> Seq<u8>
    decreases w,
{
    if w == 0 {
        Seq::empty()
    } else {
        seq![(v % 256) as u8] + le_bytes(v / 256, (w - 1) as nat)
    }
}

/// The signed number of `w` bytes whose two's complement is `v`.
pub open spec fn signed(v: nat, w: nat) -> int {
    if 2 * v >= base(w) {
        v - base(w)
    } else {
        v as int
    }
}

/// A number of `w` bytes is below 256 to the `w`.
pub proof fn lemma_le_bound(b: Seq<u8>, p: int, w: nat)
    ensures
        le(b, p, w) < base(w),
    decreases w,
{
    if w > 0 {
        lemma_le_bound(b, p + 1, (w - 1) as nat);
    }
}

/// The sizes of the numbers that occur.
pub proof fn lemma_bases()
    ensures
        base(1) == 0x100,
        base(2) == 0x1_0000,
        base(4) == 0x1_0000_0000,
        base(8) == 0x1_0000_0000_0000_0000,
{
    reveal_with_fuel(base, 9);
}

/// A wider number is no smaller a bound.
proof fn lemma_base_grows(w: nat, v: nat)
    requires
        w <= v,
    ensures
        base(w) <= base(v),
    decreases v,
{
    if w < v {
        lemma_base_grows(w, (v - 1) as nat);
    }
}

/// The bytes of a number have its width.
pub proof fn lemma_le_bytes_len(v: nat, w: nat)
    ensures
        le_bytes(v, w).len() == w,
    decreases w,
{
    if w > 0 {
        lemma_le_bytes_len(v / 256, (w - 1) as nat);
    }
}

/// Equal bytes write equal numbers.
pub proof fn lemma_le_same(b: Seq<u8>, p: int, c: Seq<u8>, q: int, w: nat)
    requires
        forall|i: int| 0 <= i < w ==> #[trigger] b[p + i] == c[q + i],
    ensures
        le(b, p, w) == le(c, q, w),
    decreases w,
{
    if w > 0 {
        assert(b[p + 0] == c[q + 0]);
        assert forall|i: int| 0 <= i < w - 1 implies #[trigger] b[(p + 1) + i] == c[(q + 1) + i] by {
            assert(b[p + (i + 1)] == c[q + (i + 1)]);
        }
        lemma_le_same(b, p + 1, c, q + 1, (w - 1) as nat);
    }
}

/// Reading the bytes of a number gives the number back.
pub proof fn law_le_round_trip(v: nat, w: nat)
    requires
        v < base(w),
    ensures
        le(le_bytes(v, w), 0, w) == v,
    decreases w,
{
    if w > 0 {
        let b = le_bytes(v, w);
        let rest = le_bytes(v / 256, (w - 1) as nat);
        lemma_le_bytes_len(v / 256, (w - 1) as nat);
        assert forall|i: int| 0 <= i < w - 1 implies #[trigger] b[1 + i] == rest[0 + i] by {}
        lemma_le_same(b, 1, rest, 0, (w - 1) as nat);
        law_le_round_trip(v / 256, (w - 1) as nat);
    }
}

/// Reads the number of `w` bytes at `p`.
pub fn read_le(b: &[u8], p: usize, w: usize) -> (v: u64)
    requires
        w <= 8,
        p + w <= b.len(),
    ensures
        v == le(b@, p as int, w as nat),
        v < base(w as nat),
{
    let mut acc: u64 = 0;
    let mut i: usize = w;
    while i > 0
        invariant
            i <= w <= 8,
            p + w <= b.len(),
            acc == le(b@, p + i, (w - i) as nat),
        decreases i,
    {
        proof {
            lemma_le_bound(b@, p + i, (w - i) as nat);
            lemma_base_grows((w - i) as nat, 7);
            reveal_with_fuel(base, 8);
        }
        i -= 1;
        acc = acc * 256 + b[p + i] as u64;
    }
    proof {
        lemma_le_bound(b@, p as int, w as nat);
    }
    acc
}

/// Appends the `w` low bytes of a number.
pub fn push_le(out: &mut Vec<u8>, v: u64, w: usize)
    ensures
        final(out)@ == old(out)@ + le_bytes(v as nat, w as nat),
    decreases w,
{
    if w > 0 {
        let ghost before = out@;
        out.push((v % 256) as u8);
        push_le(out, v / 256, w - 1);
    }
    assert(out@ =~= old(out)@ + le_bytes(v as nat, w as nat));
}

/// The `w` bytes at `p`, copied.
pub fn copy_range(b: &[u8], p: usize, w: usize) -> (out: Vec<u8>)
    requires
        p + w <= b.len(),
    ensures
        out@ == b@.subrange(p as int, p + w),
{
    let mut out: Vec<u8> = Vec::new();
    let mut i: usize = 0;
    while i < w
        invariant
            i <= w,
            p + w <= b.len(),
            out@ == b@.subrange(p as int, p + i),
        decreases w - i,
    {
        out.push(b[p + i]);
        i += 1;
        assert(out@ =~= b@.subrange(p as int, p + i));
    }
    out
}

/// The bytes of a number count for more the later they stand: one byte more adds itself times 256 to the
/// power of how many stand before it.
pub proof fn law_later_bytes_count_for_more(b: Seq<u8>, p: int, w: nat)
    ensures
        le(b, p, 0) == 0,
        le(b, p, 1) == b[p],
        le(b, p, w + 1) == le(b, p, w) + base(w) * b[p + w],
        base(w + 1) == 256 * base(w),
    decreases w,
{
    reveal_with_fuel(le, 2);
    let x = b[p + w] as int;
    if w > 0 {
        let v = (w - 1) as nat;
        law_later_bytes_count_for_more(b, p + 1, v);
        let y = base(v) as int;
        assert(256 * (y * x) == (256 * y) * x) by (nonlinear_arith);
        assert(p + 1 + v == p + w && v + 1 == w);
        assert(le(b, p + 1, w) == le(b, p + 1, v) + y * x);
        assert(le(b, p, w + 1) == b[p] + 256 * le(b, p + 1, w));
    } else {
        let y = base(0) as int;
        assert(y * x == x) by (nonlinear_arith)
            requires
                y == 1,
        ;
    }
}

/// A signed number is the unsigned one or that less the whole range, and lies in the range that its
/// width has around zero.
pub proof fn law_signed_numbers_lie_around_zero(v: nat, w: nat)
    requires
        v < base(w),
        w > 0,
    ensures
        signed(v, w) == v || signed(v, w) == v - base(w),
        -(base(w) as int) <= 2 * signed(v, w) < base(w),
{
    assert(base(w) % 2 == 0) by {
        assert(base(w) == 256 * base((w - 1) as nat));
    }
}

} // verus!
