//! The n-gram memory: which rows of its table the last tokens select, and how
//! the table is laid out.
//!
//! Every n-gram length has several heads, and every head a range of rows of its
//! own whose size is prime. The tokens of an n-gram are multiplied by odd
//! numbers and mixed; the remainder by the size of a head is the row in it.

use vstd::prelude::*;

verus! {

pub const PLE_GAMMA: u64 = 0x9E37_79B9_7F4A_7C15;

pub const PLE_M1: u64 = 0xBF58_476D_1CE4_E5B9;

pub const PLE_M2: u64 = 0x94D0_49BB_1331_11EB;

/// One step of the SplitMix64 generator.
pub open spec fn splitmix64(v: u64) -> u64 {
    let a = v.wrapping_add(PLE_GAMMA);
    let b = (a ^ (a >> 30u64)).wrapping_mul(PLE_M1);
    let c = (b ^ (b >> 27u64)).wrapping_mul(PLE_M2);
    c ^ (c >> 31u64)
}

/// One step of the SplitMix64 generator.
pub fn ple_splitmix64(v: u64) -> (r: u64)
    ensures
        r == splitmix64(v),
{
    let a: u64 = v.wrapping_add(PLE_GAMMA);
    let b: u64 = (a ^ (a >> 30u64)).wrapping_mul(PLE_M1);
    let c: u64 = (b ^ (b >> 27u64)).wrapping_mul(PLE_M2);
    c ^ (c >> 31u64)
}

/// The largest divisor that is tried.
pub const LARGEST_DIVISOR: i64 = 46340;

/// Whether a number passes for a prime: no divisor up to its root divides it, as
/// far as divisors are tried.
pub open spec fn passes(p: int) -> bool {
    p >= 2 && forall|d: int|
        2 <= d <= LARGEST_DIVISOR && d * d <= p ==> #[trigger] (p % d) != 0
}

/// Below the square of the first divisor that is not tried, what passes is prime.
pub proof fn law_what_passes_is_prime(p: int, d: int)
    requires
        passes(p),
        p < 46341 * 46341,
        2 <= d < p,
    ensures
        p % d != 0,
{
    if p % d == 0 {
        let q = p / d;
        vstd::arithmetic::div_mod::lemma_fundamental_div_mod(p, d);
        assert(p == d * q);
        if d * d <= p {
            assert(d <= 46340) by (nonlinear_arith)
                requires
                    d * d <= p,
                    p < 46341 * 46341,
                    d >= 2,
            ;
            assert(p % d != 0);
        } else {
            assert(q >= 2) by (nonlinear_arith)
                requires
                    p == d * q,
                    2 <= d < p,
            ;
            assert(q < d) by (nonlinear_arith)
                requires
                    p == d * q,
                    d * d > p,
                    d >= 2,
            ;
            assert(q * q <= p) by (nonlinear_arith)
                requires
                    p == d * q,
                    2 <= q < d,
            ;
            assert(q <= 46340) by (nonlinear_arith)
                requires
                    q * q <= p,
                    p < 46341 * 46341,
                    q >= 2,
            ;
            assert(p % q == 0) by {
                vstd::arithmetic::div_mod::lemma_mod_multiples_basic(d, q);
            }
            assert(p % q != 0);
        }
    }
}

/// Whether `r` is the next number after `p` that passes.
pub open spec fn is_next(p: int, r: int) -> bool {
    p < r && passes(r) && forall|q: int| p < q < r ==> !#[trigger] passes(q)
}

/// Whether the number at `i + 1` is the next after that at `i`.
pub open spec fn steps_at(c: Seq<int>, i: int) -> bool {
    is_next(c[i], c[i + 1])
}

/// Whether a list leads from `p` to `r` in `n` steps.
pub open spec fn leads(c: Seq<int>, p: int, n: nat, r: int) -> bool {
    &&& c.len() == n + 1
    &&& c[0] == p
    &&& c[n as int] == r
    &&& forall|i: int| 0 <= i < n ==> #[trigger] steps_at(c, i)
}

/// Whether `r` is the `n`th number after `p` that passes.
pub open spec fn is_nth(p: int, n: nat, r: int) -> bool {
    exists|c: Seq<int>| #[trigger] leads(c, p, n, r)
}

/// One step more.
proof fn lemma_step(p: int, n: nat, m: int, r: int)
    requires
        is_nth(p, n, m),
        is_next(m, r),
    ensures
        is_nth(p, n + 1, r),
{
    let c = choose|c: Seq<int>| #[trigger] leads(c, p, n, m);
    let e = c.push(r);
    assert forall|i: int| 0 <= i < n + 1 implies #[trigger] steps_at(e, i) by {
        if i < n {
            assert(steps_at(c, i));
        }
    }
    assert(leads(e, p, n + 1, r));
}

/// Two such lists agree.
proof fn lemma_one_way(c: Seq<int>, d: Seq<int>, p: int, n: nat, r: int, s: int)
    requires
        leads(c, p, n, r),
        leads(d, p, n, s),
    ensures
        r == s,
    decreases n,
{
    if n > 0 {
        let k = (n - 1) as nat;
        assert forall|i: int| 0 <= i < k implies #[trigger] steps_at(c.drop_last(), i) by {
            assert(steps_at(c, i));
        }
        assert forall|i: int| 0 <= i < k implies #[trigger] steps_at(d.drop_last(), i) by {
            assert(steps_at(d, i));
        }
        assert(leads(c.drop_last(), p, k, c[k as int]));
        assert(leads(d.drop_last(), p, k, d[k as int]));
        lemma_one_way(c.drop_last(), d.drop_last(), p, k, c[k as int], d[k as int]);
        assert(steps_at(c, k as int));
        assert(steps_at(d, k as int));
        if r < s {
            assert(!passes(r));
        }
        if s < r {
            assert(!passes(s));
        }
    }
}

/// There is one such number at most.
pub proof fn law_nth_is_unique(p: int, n: nat, r: int, s: int)
    requires
        is_nth(p, n, r),
        is_nth(p, n, s),
    ensures
        r == s,
{
    let c = choose|c: Seq<int>| #[trigger] leads(c, p, n, r);
    let d = choose|c: Seq<int>| #[trigger] leads(c, p, n, s);
    lemma_one_way(c, d, p, n, r, s);
}

/// Tests whether a number passes for a prime.
fn test_prime(p: i64) -> (r: bool)
    ensures
        r == passes(p as int),
{
    if p < 2 {
        return false;
    }
    if p % 2 == 0 {
        proof {
            if p != 2 {
                assert(p as int % 2 == 0);
                assert(2 * 2 <= p);
            } else {
                assert forall|d: int| 2 <= d <= LARGEST_DIVISOR && d * d <= 2 implies #[trigger] (2int
                    % d) != 0 by {
                    assert(d * d >= 4) by (nonlinear_arith)
                        requires
                            d >= 2,
                    ;
                }
            }
        }
        return p == 2;
    }
    let mut d: i64 = 3;
    let mut square: i64 = 9;
    while d <= 46340 && square <= p
        invariant
            3 <= d <= 46341,
            square == d * d,
            d % 2 == 1,
            p >= 2,
            p % 2 == 1,
            forall|k: int| 2 <= k < d ==> #[trigger] (p as int % k) != 0,
        decreases 46342 - d,
    {
        proof {
            assert(d * d <= 46341 * 46341) by (nonlinear_arith)
                requires
                    3 <= d <= 46341,
            ;
            assert((d + 2) * (d + 2) == d * d + 4 * d + 4) by (nonlinear_arith);
        }
        if p % d == 0 {
            proof {
                assert(p as int % d as int == 0);
            }
            return false;
        }
        proof {
            assert forall|k: int| 2 <= k < d + 2 implies #[trigger] (p as int % k) != 0 by {
                if k == d + 1 {
                    // an even number divides no odd one
                    if p as int % k == 0 {
                        vstd::arithmetic::div_mod::lemma_fundamental_div_mod(p as int, k);
                        let h = k / 2;
                        let q = p as int / k;
                        assert(p == 2 * (h * q)) by (nonlinear_arith)
                            requires
                                p == k * q,
                                k == 2 * h,
                        ;
                        assert(false);
                    }
                }
            }
        }
        square = square + 4 * d + 4;
        d = d + 2;
    }
    proof {
        assert forall|k: int| 2 <= k <= LARGEST_DIVISOR && k * k <= p implies #[trigger] (p as int
            % k) != 0 by {
            if k >= d {
                assert(k * k >= d * d) by (nonlinear_arith)
                    requires
                        k >= d,
                        d >= 3,
                ;
            }
        }
    }
    true
}

/// No number above `p` passes, as far as there are any.
pub open spec fn none_above(p: int) -> bool {
    forall|q: int| p < q <= i64::MAX ==> !#[trigger] passes(q)
}

/// Finds the next number that passes for a prime.
fn next_prime(p: i64) -> (r: Option<i64>)
    ensures
        match r {
            Some(x) => is_next(p as int, x as int),
            None => none_above(p as int),
        },
{
    let mut q: i64 = p;
    while q < i64::MAX
        invariant
            p <= q,
            forall|k: int| p < k <= q ==> !#[trigger] passes(k),
        decreases i64::MAX - q,
    {
        q = q + 1;
        if test_prime(q) {
            return Some(q);
        }
    }
    None
}

/// The `count`th number after `p` that passes for a prime; nothing where that is
/// above the largest number there is.
pub fn nth_prime_after(p: i64, count: i64) -> (r: Option<i64>)
    ensures
        match r {
            Some(x) => is_nth(
                p as int,
                (if count > 0 {
                    count as int
                } else {
                    0
                }) as nat,
                x as int,
            ) && x >= p,
            None => exists|k: nat, m: int|
                k < count && #[trigger] is_nth(p as int, k, m) && none_above(m),
        },
{
    let mut at: i64 = p;
    let mut n: i64 = 0;
    assert(leads(seq![p as int], p as int, 0, p as int));
    while n < count
        invariant
            0 <= n,
            n <= count || (n == 0 && count <= 0),
            is_nth(p as int, n as nat, at as int),
            at >= p,
        decreases count - n,
    {
        match next_prime(at) {
            Some(x) => {
                proof {
                    lemma_step(p as int, n as nat, at as int, x as int);
                }
                at = x;
            },
            None => {
                return None;
            },
        }
        n = n + 1;
    }
    Some(at)
}

/// How the rows of the table go to the heads: the rows of each head, where they begin, and how many
/// there are of all heads.
#[derive(Debug)]
pub struct PleLayout {
    pub sizes: Vec<i64>,
    pub offsets: Vec<i64>,
    pub total: i64,
}

/// The sum of the sizes of the first `n` heads.
pub open spec fn rows_before(sizes: Seq<i64>, n: int) -> int
    decreases n,
{
    if n <= 0 {
        0
    } else {
        rows_before(sizes, n - 1) + sizes[n - 1]
    }
}

/// Whether sizes are those of consecutive primes, the first of them the first that is not below
/// `base`.
pub open spec fn head_sizes(s: Seq<i64>, base: int, heads: nat) -> bool {
    &&& s.len() == heads
    &&& forall|h: int|
        0 <= h < heads ==> is_nth(base - 1, (h + 1) as nat, #[trigger] s[h] as int)
}

/// The sizes of the heads.
pub open spec fn sizes_of_heads(base: int, heads: nat) -> Seq<i64> {
    choose|s: Seq<i64>| head_sizes(s, base, heads)
}

/// Where each head begins.
pub open spec fn offsets_of_heads(sizes: Seq<i64>) -> Seq<i64> {
    Seq::new(sizes.len(), |h: int| rows_before(sizes, h) as i64)
}

/// Whether the sizes are numbers that can be held, and so are their sums.
pub open spec fn can_be_laid_out(base: int, heads: nat) -> bool {
    base > i64::MIN && exists|s: Seq<i64>| #[trigger]
        head_sizes(s, base, heads) && rows_before(s, heads as int) <= i64::MAX
}

impl PleLayout {
    /// Sizes are those of consecutive primes, and heads follow one another.
    pub open spec fn lays_out(self, base: int, heads: nat) -> bool {
        &&& head_sizes(self.sizes@, base, heads)
        &&& self.offsets@.len() == heads
        &&& forall|h: int|
            0 <= h < heads ==> #[trigger] self.offsets@[h] == rows_before(self.sizes@, h)
        &&& self.total == rows_before(self.sizes@, heads as int)
    }
}

/// A passing number is positive.
proof fn lemma_nth_positive(p: int, n: nat, r: int)
    requires
        n > 0,
        is_nth(p, n, r),
    ensures
        r >= 2,
{
    let c = choose|c: Seq<int>| #[trigger] leads(c, p, n, r);
    assert(steps_at(c, n - 1));
}

/// There is one list of sizes at most.
pub proof fn law_head_sizes_are_unique(a: Seq<i64>, b: Seq<i64>, base: int, heads: nat)
    requires
        head_sizes(a, base, heads),
        head_sizes(b, base, heads),
    ensures
        a == b,
{
    assert forall|h: int| 0 <= h < heads implies a[h] == b[h] by {
        law_nth_is_unique(base - 1, (h + 1) as nat, a[h] as int, b[h] as int);
    }
    assert(a =~= b);
}

/// The sizes of the heads are those that a list of them has.
pub(crate) proof fn lemma_sizes_of_heads(s: Seq<i64>, base: int, heads: nat)
    requires
        head_sizes(s, base, heads),
    ensures
        sizes_of_heads(base, heads) == s,
{
    law_head_sizes_are_unique(s, sizes_of_heads(base, heads), base, heads);
}

/// Before a number stands the one that it is next to.
proof fn lemma_step_back(p: int, n: nat, r: int) -> (m: int)
    requires
        is_nth(p, n + 1, r),
    ensures
        is_nth(p, n, m),
        is_next(m, r),
{
    let c = choose|c: Seq<int>| #[trigger] leads(c, p, n + 1, r);
    let d = c.drop_last();
    assert forall|i: int| 0 <= i < n implies #[trigger] steps_at(d, i) by {
        assert(steps_at(c, i));
    }
    assert(leads(d, p, n, c[n as int]));
    assert(steps_at(c, n as int));
    c[n as int]
}

/// Where the numbers run out there is no layout.
proof fn lemma_out_of_primes(base: int, heads: nat, k: nat, m: int)
    requires
        k < heads,
        is_nth(base - 1, k, m),
        none_above(m),
    ensures
        !can_be_laid_out(base, heads),
{
    assert forall|s: Seq<i64>| !#[trigger] head_sizes(s, base, heads) by {
        if head_sizes(s, base, heads) {
            let r = s[k as int] as int;
            let n = lemma_step_back(base - 1, k, r);
            law_nth_is_unique(base - 1, k, m, n);
            assert(!passes(r));
        }
    }
}

/// Where a sum of sizes cannot be held there is no layout.
proof fn lemma_out_of_rows(base: int, heads: nat, t: Seq<i64>)
    requires
        t.len() <= heads,
        head_sizes(t, base, t.len()),
        rows_before(t, t.len() as int) > i64::MAX,
    ensures
        !can_be_laid_out(base, heads),
{
    let n = t.len() as int;
    assert forall|s: Seq<i64>| #[trigger]
        head_sizes(s, base, heads) implies rows_before(s, heads as int) > i64::MAX by {
        assert forall|h: int| 0 <= h < n implies t[h] == s[h] by {
            law_nth_is_unique(base - 1, (h + 1) as nat, t[h] as int, s[h] as int);
        }
        lemma_rows_before_prefix(t, s, n);
        assert forall|h: int| 0 <= h < heads implies #[trigger] s[h] > 0 by {
            lemma_nth_positive(base - 1, (h + 1) as nat, s[h] as int);
        }
        lemma_rows_before_grows(s, n, heads as int);
    }
}

/// Lays the rows out for as many heads, the first size being the first prime not below `base`.
/// Nothing comes of more rows than can be counted.
pub fn ple_layout(base: i64, heads: usize) -> (r: Option<PleLayout>)
    requires
        heads < i64::MAX,
    ensures
        match r {
            Some(l) => l.lays_out(base as int, heads as nat) && can_be_laid_out(
                base as int,
                heads as nat,
            ),
            None => !can_be_laid_out(base as int, heads as nat),
        },
{
    if base == i64::MIN {
        return None;
    }
    let mut sizes: Vec<i64> = Vec::new();
    let mut offsets: Vec<i64> = Vec::new();
    let mut total: i64 = 0;
    let mut h: usize = 0;
    while h < heads
        invariant
            h <= heads,
            heads < i64::MAX,
            base > i64::MIN,
            head_sizes(sizes@, base as int, h as nat),
            offsets@.len() == h,
            total == rows_before(sizes@, h as int),
            total >= 0,
            forall|k: int| 0 <= k < h ==> #[trigger] offsets@[k] == rows_before(sizes@, k),
        decreases heads - h,
    {
        match nth_prime_after(base - 1, h as i64 + 1) {
            None => {
                proof {
                    let (k, m) = choose|k: nat, m: int|
                        k < h + 1 && #[trigger] is_nth(base - 1, k, m) && none_above(m);
                    lemma_out_of_primes(base as int, heads as nat, k, m);
                }
                return None;
            },
            Some(size) => {
                let ghost before = sizes@;
                proof {
                    lemma_nth_positive(base - 1, (h + 1) as nat, size as int);
                }
                offsets.push(total);
                sizes.push(size);
                proof {
                    lemma_rows_before_prefix(before, sizes@, h as int);
                    assert forall|k: int| 0 <= k < h + 1 implies #[trigger] offsets@[k]
                        == rows_before(sizes@, k) by {
                        lemma_rows_before_prefix(before, sizes@, k);
                    }
                    assert forall|k: int| 0 <= k < h + 1 implies is_nth(
                        base - 1,
                        (k + 1) as nat,
                        #[trigger] sizes@[k] as int,
                    ) by {
                        if k < h {
                            assert(sizes@[k] == before[k]);
                        }
                    }
                }
                if total > i64::MAX - size {
                    proof {
                        lemma_out_of_rows(base as int, heads as nat, sizes@);
                    }
                    return None;
                }
                total = total + size;
            },
        }
        h = h + 1;
    }
    Some(PleLayout { sizes, offsets, total })
}

/// The multiple of `d` that is next to `a` on the way to zero.
pub open spec fn multiple_below(a: int, d: int) -> int {
    let m = if d < 0 {
        -d
    } else {
        d
    };
    if a >= 0 {
        a / m * m
    } else {
        -((-a) / m * m)
    }
}

/// The rows of a table that `total` rows are filled up to.
pub open spec fn padded_rows(total: int, div: int) -> int {
    multiple_below(total + div - 1, div)
}

/// The rows of a table that `total` rows are filled up to.
pub fn pad_rows(total: i64, div: i64) -> (r: i64)
    requires
        div != 0,
        i64::MIN <= total + div - 1 <= i64::MAX,
    ensures
        r == padded_rows(total as int, div as int),
{
    let a: i128 = total as i128 + div as i128 - 1;
    let m: i128 = if div < 0 {
        -(div as i128)
    } else {
        div as i128
    };
    let x: i128 = if a < 0 {
        -a
    } else {
        a
    };
    let q: i128 = x / m;
    proof {
        vstd::arithmetic::div_mod::lemma_fundamental_div_mod(x as int, m as int);
        assert(0 <= q * m <= x) by (nonlinear_arith)
            requires
                x == m * q + x as int % m as int,
                0 <= x as int % m as int,
                0 <= q,
                0 < m,
        ;
    }
    let up: i128 = q * m;
    if a < 0 {
        (-up) as i64
    } else {
        up as i64
    }
}

/// A table is filled up to the next multiple.
pub proof fn law_a_table_is_filled_up(total: int, div: int)
    requires
        total >= 0,
        div >= 1,
    ensures
        total <= padded_rows(total, div) < total + div,
        padded_rows(total, div) % div == 0,
{
    let up = (total + div - 1) / div;
    vstd::arithmetic::div_mod::lemma_fundamental_div_mod(total + div - 1, div);
    assert(total <= up * div < total + div) by (nonlinear_arith)
        requires
            total + div - 1 == div * up + (total + div - 1) % div,
            0 <= (total + div - 1) % div < div,
    ;
    vstd::arithmetic::div_mod::lemma_mod_multiples_basic(up, div);
}

/// What is appended does not count among the first.
proof fn lemma_rows_before_prefix(a: Seq<i64>, b: Seq<i64>, n: int)
    requires
        n <= a.len() <= b.len(),
        forall|i: int| 0 <= i < a.len() ==> a[i] == b[i],
    ensures
        rows_before(a, n) == rows_before(b, n),
    decreases n,
{
    if n > 0 {
        lemma_rows_before_prefix(a, b, n - 1);
    }
}

/// More heads take no fewer rows.
proof fn lemma_rows_before_grows(s: Seq<i64>, a: int, b: int)
    requires
        0 <= a <= b <= s.len(),
        forall|h: int| 0 <= h < s.len() ==> #[trigger] s[h] > 0,
    ensures
        rows_before(s, a) <= rows_before(s, b),
    decreases b,
{
    if a < b {
        lemma_rows_before_grows(s, a, b - 1);
    }
}

/// The rows of one head end where those of a later head begin or before, and no
/// head has rows behind the end of the table.
pub proof fn law_heads_do_not_overlap(l: PleLayout, base: int, heads: nat, a: int, b: int)
    requires
        l.lays_out(base, heads),
        0 <= a < b < heads,
    ensures
        0 <= l.offsets@[a],
        l.offsets@[a] + l.sizes@[a] <= l.offsets@[b],
        l.offsets@[b] + l.sizes@[b] <= l.total,
{
    let s = l.sizes@;
    assert forall|h: int| 0 <= h < heads implies #[trigger] s[h] > 0 by {
        lemma_nth_positive(base - 1, (h + 1) as nat, s[h] as int);
    }
    lemma_rows_before_grows(s, 0, a);
    lemma_rows_before_grows(s, a + 1, b);
    lemma_rows_before_grows(s, b + 1, heads as int);
}

/// The number of odd multipliers to choose from: half of what a token can be
/// multiplied by without leaving the range of signed numbers.
pub open spec fn multiplier_range(vocab: int) -> int {
    let half = i64::MAX as int / (if vocab > 1 {
        vocab
    } else {
        1
    }) / 2;
    if half > 1 {
        half
    } else {
        1
    }
}

/// The multiplier of the token `i` places back.
pub open spec fn multiplier(vocab: int, seed: u64, layer: i64, i: int) -> u64 {
    let base = (seed + 10007u64.wrapping_mul(layer as u64)) as u64;
    let v = splitmix64(base.wrapping_add(PLE_GAMMA.wrapping_mul((i + 1) as u64)));
    (2 * (v % (multiplier_range(vocab) as u64)) + 1) as u64
}

/// A multiplier is odd, and takes no token of the vocabulary out of range.
pub proof fn law_multipliers_are_odd_and_small(vocab: int, seed: u64, layer: i64, i: int, token: int)
    requires
        1 <= vocab <= 0x3fff_ffff_ffff_ffff,
        0 <= token < vocab,
    ensures
        multiplier(vocab, seed, layer, i) % 2 == 1,
        multiplier(vocab, seed, layer, i) * token <= i64::MAX,
{
    let half = multiplier_range(vocab);
    let most = i64::MAX as int / vocab;
    let m = multiplier(vocab, seed, layer, i) as int;
    vstd::arithmetic::div_mod::lemma_fundamental_div_mod(i64::MAX as int, vocab);
    assert(most >= 2) by (nonlinear_arith)
        requires
            i64::MAX as int == vocab * most + i64::MAX as int % vocab,
            0 <= i64::MAX as int % vocab < vocab,
            1 <= vocab <= 0x3fff_ffff_ffff_ffff,
    ;
    assert(most <= i64::MAX) by (nonlinear_arith)
        requires
            i64::MAX as int == vocab * most + i64::MAX as int % vocab,
            0 <= i64::MAX as int % vocab,
            vocab >= 1,
            most >= 2,
    ;
    assert(1 <= half <= most);
    assert(2 * half <= most);
    assert(1 <= m <= 2 * (half - 1) + 1);
    assert(m * token <= i64::MAX) by (nonlinear_arith)
        requires
            0 <= m <= most,
            0 <= token < vocab,
            i64::MAX as int == vocab * most + i64::MAX as int % vocab,
            0 <= i64::MAX as int % vocab,
    ;
}

/// The multipliers of the tokens of an n-gram.
pub fn ple_multipliers(vocab: usize, seed: u64, layer: i64, ngram_size: usize) -> (r: Vec<u64>)
    requires
        vocab <= i64::MAX,
        seed + 10007u64.wrapping_mul(layer as u64) <= u64::MAX,
    ensures
        r@ == Seq::new(ngram_size as nat, |i: int| multiplier(vocab as int, seed, layer, i)),
{
    let most: i64 = 0x7fff_ffff_ffff_ffff / (if vocab > 1 {
        vocab as i64
    } else {
        1
    });
    proof {
        assert(0 <= most <= i64::MAX) by (nonlinear_arith)
            requires
                most == 0x7fff_ffff_ffff_ffffint / (if vocab > 1 {
                    vocab as int
                } else {
                    1
                }),
        ;
    }
    let half: i64 = if most / 2 > 1 {
        most / 2
    } else {
        1
    };
    let base: u64 = seed + 10007u64.wrapping_mul(layer as u64);
    let mut r: Vec<u64> = Vec::new();
    let mut i: usize = 0;
    while i < ngram_size
        invariant
            i <= ngram_size,
            half == multiplier_range(vocab as int),
            1 <= half,
            base == seed + 10007u64.wrapping_mul(layer as u64),
            r@.len() == i,
            forall|k: int| 0 <= k < i ==> #[trigger] r@[k] == multiplier(vocab as int, seed, layer, k),
        decreases ngram_size - i,
    {
        let v: u64 = ple_splitmix64(base.wrapping_add(PLE_GAMMA.wrapping_mul(i as u64 + 1)));
        r.push(2 * (v % half as u64) + 1);
        i = i + 1;
    }
    assert(r@ =~= Seq::new(ngram_size as nat, |i: int| multiplier(vocab as int, seed, layer, i)));
    r
}

/// The last tokens, oldest first, once another has come.
pub open spec fn pushed(ring: Seq<i64>, n: int, token: i64) -> Seq<i64> {
    if n == 0 {
        ring
    } else {
        ring.subrange(1, n).push(token) + ring.skip(n)
    }
}

/// Takes a token into the ring of the last `ngram_size`.
pub fn push_ple_ring(ring: &mut Vec<i64>, ngram_size: usize, token: usize)
    requires
        ngram_size <= old(ring)@.len(),
        token <= i64::MAX,
    ensures
        final(ring)@ == pushed(old(ring)@, ngram_size as int, token as i64),
{
    if ngram_size == 0 {
        return;
    }
    let ghost start = ring@;
    let mut i: usize = 0;
    while i < ngram_size - 1
        invariant
            1 <= ngram_size <= start.len(),
            i <= ngram_size - 1,
            ring@.len() == start.len(),
            forall|k: int| 0 <= k < i ==> #[trigger] ring@[k] == start[k + 1],
            forall|k: int| i <= k < start.len() ==> #[trigger] ring@[k] == start[k],
        decreases ngram_size - i,
    {
        let next: i64 = ring[i + 1];
        ring.set(i, next);
        i = i + 1;
    }
    ring.set(ngram_size - 1, token as i64);
    assert(ring@ =~= pushed(start, ngram_size as int, token as i64));
}

/// The newest token stands last, and every other has moved one place back.
pub proof fn law_ring_holds_the_last_tokens(ring: Seq<i64>, n: int, token: i64, back: int)
    requires
        1 <= n <= ring.len(),
        0 <= back < n,
    ensures
        pushed(ring, n, token).len() == ring.len(),
        pushed(ring, n, token)[n - 1 - back] == (if back == 0 {
            token
        } else {
            ring[n - back]
        }),
{
}

/// The token `back` places before the newest, or the end token where a text ended
/// in between.
pub open spec fn token_back(ring: Seq<i64>, n: int, eos: i64, back: int) -> i64 {
    if exists|i: int| n - 1 - back <= i < n - 1 && #[trigger] ring[i] == eos {
        eos
    } else {
        ring[n - 1 - back]
    }
}

/// The tokens of an n-gram, mixed.
pub open spec fn mixed(ring: Seq<i64>, n: int, eos: i64, mult: Seq<u64>, len: nat) -> u64
    decreases len,
{
    if len == 0 {
        0
    } else {
        mixed(ring, n, eos, mult, (len - 1) as nat) ^ (token_back(ring, n, eos, len - 1) as u64).wrapping_mul(
            mult[len - 1],
        )
    }
}

/// The row of the table that head `h` selects, with sizes and offsets taken as words.
pub open spec fn row_of(
    ring: Seq<i64>,
    n: int,
    eos: i64,
    per: int,
    mult: Seq<u64>,
    sizes: Seq<i64>,
    offsets: Seq<i64>,
    h: int,
) -> int {
    mixed(ring, n, eos, mult, (2 + h / per) as nat) % (sizes[h] as u64) + (offsets[h] as u64)
}

/// Where the text that the newest token belongs to begins in the ring.
fn text_start(ring: &Vec<i64>, n: usize, eos: i64) -> (r: usize)
    requires
        1 <= n <= ring@.len(),
    ensures
        r <= n - 1,
        forall|i: int| r <= i < n - 1 ==> #[trigger] ring@[i] != eos,
        r > 0 ==> ring@[r - 1] == eos,
{
    let mut at: usize = n - 1;
    while at > 0
        invariant
            at <= n - 1,
            1 <= n <= ring@.len(),
            forall|i: int| at <= i < n - 1 ==> #[trigger] ring@[i] != eos,
        decreases at,
    {
        if ring[at - 1] == eos {
            return at;
        }
        at = at - 1;
    }
    0
}

/// Only zero is zero as a word.
proof fn lemma_word(x: i64)
    requires
        x != 0,
    ensures
        x as u64 > 0,
{
    assert(x as u64 > 0) by (bit_vector)
        requires
            x != 0,
    ;
}

/// The rows of the table that the last tokens select, head by head: first those
/// for pairs, then those for three tokens, and so on. A row is a remainder in the
/// range of its head.
pub fn ngram_rows(
    ring: &Vec<i64>,
    eos: i64,
    ngram_size: usize,
    per: usize,
    mult: &Vec<u64>,
    sizes: &Vec<i64>,
    offsets: &Vec<i64>,
) -> (r: Vec<u64>)
    requires
        2 <= ngram_size <= 8,
        ngram_size <= ring@.len(),
        ngram_size <= mult@.len(),
        (ngram_size - 1) * per <= 16,
        (ngram_size - 1) * per <= sizes@.len(),
        (ngram_size - 1) * per <= offsets@.len(),
        forall|h: int|
            0 <= h < (ngram_size - 1) * per ==> #[trigger] sizes@[h] != 0 && row_of(
                ring@,
                ngram_size as int,
                eos,
                per as int,
                mult@,
                sizes@,
                offsets@,
                h,
            ) <= u64::MAX,
    ensures
        r@.len() == (ngram_size - 1) * per,
        forall|h: int|
            0 <= h < r@.len() ==> #[trigger] r@[h] == row_of(
                ring@,
                ngram_size as int,
                eos,
                per as int,
                mult@,
                sizes@,
                offsets@,
                h,
            ),
{
    let ghost n = ngram_size as int;
    let begin: usize = text_start(ring, ngram_size, eos);
    let mut r: Vec<u64> = Vec::new();
    let mut mix: u64 = 0;
    let mut len: usize = 0;
    let ghost heads = (ngram_size - 1) * per;
    while len < ngram_size
        invariant
            2 <= ngram_size <= 8,
            n == ngram_size,
            heads == (ngram_size - 1) * per,
            heads <= 16,
            heads <= sizes@.len(),
            heads <= offsets@.len(),
            forall|h: int|
                0 <= h < heads ==> #[trigger] sizes@[h] != 0 && row_of(
                    ring@,
                    n,
                    eos,
                    per as int,
                    mult@,
                    sizes@,
                    offsets@,
                    h,
                ) <= u64::MAX,
            ngram_size <= ring@.len(),
            ngram_size <= mult@.len(),
            len <= ngram_size,
            begin <= n - 1,
            forall|i: int| begin <= i < n - 1 ==> #[trigger] ring@[i] != eos,
            begin > 0 ==> ring@[begin - 1] == eos,
            mix == mixed(ring@, n, eos, mult@, len as nat),
            r@.len() == (if len <= 1 {
                0
            } else {
                (len - 1) * per
            }),
            forall|h: int|
                0 <= h < r@.len() ==> #[trigger] r@[h] == row_of(
                    ring@,
                    n,
                    eos,
                    per as int,
                    mult@,
                    sizes@,
                    offsets@,
                    h,
                ),
        decreases ngram_size - len,
    {
        let at: usize = ngram_size - 1 - len;
        let token: i64 = if at >= begin {
            ring[at]
        } else {
            eos
        };
        proof {
            if at >= begin {
                assert forall|i: int| n - 1 - len <= i < n - 1 implies #[trigger] ring@[i] != eos by {}
            } else {
                assert(ring@[begin - 1] == eos);
            }
            assert(token == token_back(ring@, n, eos, len as int));
        }
        mix = mix ^ (token as u64).wrapping_mul(mult[len]);
        len = len + 1;
        if len >= 2 {
            let mut k: usize = 0;
            proof {
                assert((len - 2) * per + per == (len - 1) * per) by (nonlinear_arith);
                assert((len - 1) * per <= heads) by (nonlinear_arith)
                    requires
                        len <= ngram_size,
                        heads == (ngram_size - 1) * per,
                        0 <= per,
                ;
                assert(0 <= (len - 2) * per) by (nonlinear_arith)
                    requires
                        len >= 2,
                        0 <= per,
                ;
                if len == 2 {
                    assert((len - 2) * per == 0) by (nonlinear_arith)
                        requires
                            len == 2,
                    ;
                }
            }
            while k < per
                invariant
                    2 <= len <= ngram_size <= 8,
                    n == ngram_size,
                    (len - 2) * per + per <= heads,
                    0 <= (len - 2) * per,
                    heads <= 16,
                    heads <= sizes@.len(),
                    heads <= offsets@.len(),
                    forall|h: int|
                        0 <= h < heads ==> #[trigger] sizes@[h] != 0 && row_of(
                            ring@,
                            n,
                            eos,
                            per as int,
                            mult@,
                            sizes@,
                            offsets@,
                            h,
                        ) <= u64::MAX,
                    k <= per,
                    mix == mixed(ring@, n, eos, mult@, len as nat),
                    r@.len() == (len - 2) * per + k,
                    forall|h: int|
                        0 <= h < r@.len() ==> #[trigger] r@[h] == row_of(
                            ring@,
                            n,
                            eos,
                            per as int,
                            mult@,
                            sizes@,
                            offsets@,
                            h,
                        ),
                decreases per - k,
            {
                let h: usize = r.len();
                proof {
                    crate::mxfp4::lemma_cell((len - 1) as nat, per as nat, len - 2, k as int);
                    assert(h as int / per as int == len - 2);
                    assert(sizes@[h as int] != 0);
                    lemma_word(sizes@[h as int]);
                }
                let size: u64 = sizes[h] as u64;
                let start: u64 = offsets[h] as u64;
                r.push(mix % size + start);
                k = k + 1;
            }
        }
    }
    r
}

/// The row of a head lies in the range of the head, whatever the tokens are.
pub proof fn law_rows_stay_in_their_head(
    ring: Seq<i64>,
    n: int,
    eos: i64,
    per: int,
    mult: Seq<u64>,
    sizes: Seq<i64>,
    offsets: Seq<i64>,
    h: int,
)
    requires
        sizes[h] > 0,
        offsets[h] >= 0,
    ensures
        offsets[h] <= row_of(ring, n, eos, per, mult, sizes, offsets, h) < offsets[h] + sizes[h],
{
}

/// What a text has seen before it began does not change the rows: only the tokens
/// since the last end token count.
pub proof fn law_earlier_texts_do_not_count(a: Seq<i64>, b: Seq<i64>, n: int, eos: i64, begin: int, back: int)
    requires
        1 <= n <= a.len(),
        n <= b.len(),
        0 < begin <= n - 1,
        a[begin - 1] == eos,
        b[begin - 1] == eos,
        forall|i: int| begin <= i < n ==> a[i] == b[i],
        0 <= back < n,
    ensures
        token_back(a, n, eos, back) == token_back(b, n, eos, back),
{
    let src = n - 1 - back;
    if src < begin {
        assert(a[begin - 1] == eos);
        assert(b[begin - 1] == eos);
    } else {
        assert(forall|i: int| src <= i < n ==> a[i] == b[i]);
        if exists|i: int| src <= i < n - 1 && #[trigger] a[i] == eos {
            let i = choose|i: int| src <= i < n - 1 && #[trigger] a[i] == eos;
            assert(b[i] == eos);
        }
        if exists|i: int| src <= i < n - 1 && #[trigger] b[i] == eos {
            let i = choose|i: int| src <= i < n - 1 && #[trigger] b[i] == eos;
            assert(a[i] == eos);
        }
    }
}

/// The sample that a tap of a causal convolution takes: the last tap the current
/// one, each tap before it one that is `dilation` older.
pub open spec fn tap_sample<T>(current: T, history: Seq<T>, taps: int, dilation: int, tap: int) -> T {
    let lag = (taps - 1 - tap) * dilation;
    if lag == 0 {
        current
    } else {
        history[lag - 1]
    }
}

/// The samples that the taps of a causal convolution take, in their order. The
/// newest sample of the history comes first in it.
pub fn causal_samples<T: Copy>(current: T, history: &[T], taps: usize, dilation: usize) -> (r: Vec<T>)
    requires
        taps > 0 ==> (taps - 1) * dilation <= history@.len(),
    ensures
        r@ == Seq::new(
            taps as nat,
            |tap: int| tap_sample(current, history@, taps as int, dilation as int, tap),
        ),
{
    let mut r: Vec<T> = Vec::new();
    let mut tap: usize = 0;
    while tap < taps
        invariant
            tap <= taps,
            taps > 0 ==> (taps - 1) * dilation <= history@.len(),
            r@.len() == tap,
            forall|k: int|
                0 <= k < tap ==> #[trigger] r@[k] == tap_sample(
                    current,
                    history@,
                    taps as int,
                    dilation as int,
                    k,
                ),
        decreases taps - tap,
    {
        proof {
            assert(0 <= (taps - 1 - tap) * dilation <= (taps - 1) * dilation) by (nonlinear_arith)
                requires
                    0 <= tap < taps,
                    0 <= dilation,
            ;
            assert(history.len() == history@.len());
        }
        let lag: usize = (taps - 1 - tap) * dilation;
        if lag == 0 {
            r.push(current);
        } else {
            r.push(history[lag - 1]);
        }
        tap = tap + 1;
    }
    assert(r@ =~= Seq::new(
        taps as nat,
        |tap: int| tap_sample(current, history@, taps as int, dilation as int, tap),
    ));
    r
}

/// The histories of all channels after channel `i` has taken a sample: the sample
/// comes first, the oldest goes, and no other channel is touched.
pub open spec fn history_pushed<T>(state: Seq<T>, len: int, i: int, v: T) -> Seq<T> {
    Seq::new(
        state.len(),
        |k: int|
            if k == i * len {
                v
            } else if i * len < k < i * len + len {
                state[k - 1]
            } else {
                state[k]
            },
    )
}

/// Takes a sample into the history of a channel.
pub fn push_history<T: Copy>(state: &mut Vec<T>, len: usize, i: usize, v: T)
    requires
        len >= 1,
        i * len + len <= old(state)@.len(),
    ensures
        final(state)@ == history_pushed(old(state)@, len as int, i as int, v),
{
    let ghost start = state@;
    proof {
        assert(state.len() == state@.len());
        assert(0 <= i * len) by (nonlinear_arith)
            requires
                0 <= i,
                0 <= len,
        ;
    }
    let base: usize = i * len;
    let mut s: usize = len - 1;
    while s > 0
        invariant
            base == i * len,
            0 <= s < len,
            base + len <= start.len(),
            state@.len() == start.len(),
            forall|k: int| base + s < k < base + len ==> #[trigger] state@[k] == start[k - 1],
            forall|k: int|
                0 <= k < start.len() && !(base + s < k < base + len) ==> #[trigger] state@[k]
                    == start[k],
        decreases s,
    {
        assert(state.len() == state@.len());
        let older: T = state[base + s - 1];
        state.set(base + s, older);
        s = s - 1;
    }
    state.set(base, v);
    assert(state@ =~= history_pushed(start, len as int, i as int, v));
}

/// What was the current sample is the newest of the history one step later, and
/// every older one has become one step older.
pub proof fn law_history_remembers<T>(state: Seq<T>, len: int, i: int, v: T, age: int)
    requires
        len >= 1,
        0 <= i,
        i * len + len <= state.len(),
        0 <= i * len,
        0 <= age < len,
    ensures
        history_pushed(state, len, i, v)[i * len + age] == (if age == 0 {
            v
        } else {
            state[i * len + age - 1]
        }),
{
}

/// Where a tap looks: the last at the current sample, and each before it as far again behind as the taps
/// stand apart.
pub proof fn law_taps_look_back_evenly<T>(current: T, history: Seq<T>, taps: int, dilation: int, tap: int)
    requires
        taps >= 1,
        dilation >= 1,
        0 <= tap < taps,
        (taps - 1) * dilation <= history.len(),
    ensures
        ({
            let back = (taps - 1 - tap) * dilation;
            &&& 0 <= back <= history.len()
            &&& tap_sample(current, history, taps, dilation, tap) == (seq![current] + history)[back]
        }),
        tap_sample(current, history, taps, dilation, taps - 1) == current,
{
    let back = (taps - 1 - tap) * dilation;
    assert(0 <= back <= (taps - 1) * dilation) by (nonlinear_arith)
        requires
            back == (taps - 1 - tap) * dilation,
            0 <= tap <= taps - 1,
            dilation >= 1,
    ;
    assert((taps - 1 - (taps - 1)) * dilation == 0) by (nonlinear_arith);
}

/// The token so many places back is that of the ring, unless a text ended on the way: then it is the end
/// of the text.
pub proof fn law_a_token_is_looked_up_behind(ring: Seq<i64>, n: int, eos: i64, back: int)
    requires
        1 <= n <= ring.len(),
        0 <= back < n,
    ensures
        token_back(ring, n, eos, 0) == ring[n - 1],
        (forall|i: int| n - 1 - back <= i < n - 1 ==> #[trigger] ring[i] != eos) ==> token_back(
            ring,
            n,
            eos,
            back,
        ) == ring[n - 1 - back],
        forall|i: int|
            n - 1 - back <= i < n - 1 && #[trigger] ring[i] == eos ==> token_back(ring, n, eos, back)
                == eos,
{
}

/// The heads of the shortest n-grams mix two tokens, each with a multiplier of its own, and every further
/// `per` heads one token more: `per` heads later, what is mixed differs by that token's product alone.
pub proof fn law_heads_mix_one_token_more_each(
    ring: Seq<i64>,
    n: int,
    eos: i64,
    per: int,
    mult: Seq<u64>,
    sizes: Seq<i64>,
    offsets: Seq<i64>,
    j: int,
    h: int,
)
    requires
        per >= 1,
        0 <= j,
        j * per <= h < j * per + per,
    ensures
        row_of(ring, n, eos, per, mult, sizes, offsets, h) == mixed(
            ring,
            n,
            eos,
            mult,
            (j + 2) as nat,
        ) % (sizes[h] as u64) + (offsets[h] as u64),
        mixed(ring, n, eos, mult, 2) == (token_back(ring, n, eos, 0) as u64).wrapping_mul(mult[0]) ^ (
        token_back(ring, n, eos, 1) as u64).wrapping_mul(mult[1]),
        mixed(ring, n, eos, mult, (j + 2) as nat) ^ mixed(ring, n, eos, mult, (j + 3) as nat) == (
        token_back(ring, n, eos, j + 2) as u64).wrapping_mul(mult[j + 2]),
{
    vstd::arithmetic::div_mod::lemma_fundamental_div_mod_converse(h, per, j, h - j * per);
    reveal_with_fuel(mixed, 3);
    let a = (token_back(ring, n, eos, 0) as u64).wrapping_mul(mult[0]);
    assert(0u64 ^ a == a) by (bit_vector);
    let x = mixed(ring, n, eos, mult, (j + 2) as nat);
    let y = (token_back(ring, n, eos, j + 2) as u64).wrapping_mul(mult[j + 2]);
    assert(x ^ (x ^ y) == y) by (bit_vector);
}

/// The rows of the heads stand one behind the other without a gap, from the first row on.
pub proof fn law_heads_stand_without_gaps(l: PleLayout, base: int, heads: nat, h: int)
    requires
        l.lays_out(base, heads),
        0 <= h < heads,
    ensures
        l.offsets@[0] == 0,
        h + 1 < heads ==> l.offsets@[h + 1] == l.offsets@[h] + l.sizes@[h],
        h + 1 == heads ==> l.total == l.offsets@[h] + l.sizes@[h],
        l.sizes@[h] >= base,
        h + 1 < heads ==> l.sizes@[h] < l.sizes@[h + 1],
{
    assert(l.offsets@[h] == rows_before(l.sizes@, h));
    assert(l.offsets@[0] == rows_before(l.sizes@, 0));
    assert(is_nth(base - 1, (h + 1) as nat, l.sizes@[h] as int));
    lemma_nth_grows(base - 1, (h + 1) as nat, l.sizes@[h] as int);
    if h + 1 < heads {
        assert(l.offsets@[h + 1] == rows_before(l.sizes@, h + 1));
        assert(is_nth(base - 1, (h + 2) as nat, l.sizes@[h + 1] as int));
        let c = choose|c: Seq<int>| #[trigger]
            leads(c, base - 1, (h + 2) as nat, l.sizes@[h + 1] as int);
        let short = c.take(h + 2);
        assert forall|i: int| 0 <= i < h + 1 implies #[trigger] steps_at(short, i) by {
            assert(steps_at(c, i));
        }
        assert(leads(short, base - 1, (h + 1) as nat, c[h + 1]));
        law_nth_is_unique(base - 1, (h + 1) as nat, l.sizes@[h] as int, c[h + 1]);
        assert(steps_at(c, h + 1));
    }
}

proof fn lemma_nth_grows(p: int, n: nat, r: int)
    requires
        is_nth(p, n, r),
    ensures
        r >= p + n,
{
    let c = choose|c: Seq<int>| #[trigger] leads(c, p, n, r);
    lemma_chain_grows(c, p, n, r, n as int);
}

proof fn lemma_chain_grows(c: Seq<int>, p: int, n: nat, r: int, i: int)
    requires
        leads(c, p, n, r),
        0 <= i <= n,
    ensures
        c[i] >= p + i,
    decreases i,
{
    if i > 0 {
        lemma_chain_grows(c, p, n, r, i - 1);
        assert(steps_at(c, i - 1));
    }
}

/// A multiplier is drawn from half of what a token can be multiplied by without leaving sixty-three bits,
/// and from one number at least.
pub proof fn law_products_of_tokens_stay_small(vocab: int)
    requires
        1 <= vocab <= 0x1000_0000,
    ensures
        multiplier_range(vocab) >= 1,
        2 * multiplier_range(vocab) * vocab <= 0x7fff_ffff_ffff_ffff,
        (2 * multiplier_range(vocab) + 2) * vocab > 0x7fff_ffff_ffff_ffff,
{
    let m = i64::MAX as int;
    let q = m / vocab;
    vstd::arithmetic::div_mod::lemma_fundamental_div_mod(m, vocab);
    let h = q / 2;
    assert(q >= 0x4_0000_0000) by (nonlinear_arith)
        requires
            m == vocab * q + m % vocab,
            0 <= m % vocab < vocab,
            m == 0x7fff_ffff_ffff_ffff,
            1 <= vocab <= 0x1000_0000,
    ;
    assert(2 * h * vocab <= vocab * q) by (nonlinear_arith)
        requires
            2 * h <= q,
            vocab >= 1,
    ;
    assert((2 * h + 2) * vocab >= vocab * q + vocab) by (nonlinear_arith)
        requires
            2 * h + 2 >= q + 1,
            vocab >= 1,
    ;
}

/// A token looked up behind is the one that many places back, unless a text has ended in between: then it
/// is the end. A new token pushes the oldest out.
pub proof fn law_tokens_are_looked_up_within_their_text(
    ring: Seq<i64>,
    n: int,
    eos: i64,
    back: int,
    token: i64,
    i: int,
)
    requires
        1 <= n <= ring.len(),
        0 <= back < n,
        0 <= i < n,
    ensures
        (forall|k: int| n - 1 - back <= k < n - 1 ==> #[trigger] ring[k] != eos) ==> token_back(
            ring,
            n,
            eos,
            back,
        ) == ring[n - 1 - back],
        n - 1 - back <= i < n - 1 && ring[i] == eos ==> token_back(ring, n, eos, back) == eos,
        pushed(ring, n, token).len() == ring.len(),
        pushed(ring, n, token)[n - 1] == token,
        i < n - 1 ==> pushed(ring, n, token)[i] == ring[i + 1],
        pushed(ring, 0, token) == ring,
{
}

} // verus!
