//! Digests of scores, by which two runs are told apart.

use sha2::Digest;
use vstd::prelude::*;

use crate::bytes::{law_le_round_trip, le_bytes, lemma_bases, lemma_le_bytes_len, push_le};

verus! {

/// The SHA-256 digest of a sequence of bytes.
pub uninterp spec fn sha256_of(bytes: Seq<u8>) -> Seq<u8>;

/// Calls `sha2::Sha256::digest`, which hashes all bytes in one call. The digest depends
/// on the bytes alone and is given the name [`sha256_of`]; how it is computed is not
/// said here.
#[verifier::external_body]
fn sha256(bytes: &Vec<u8>) -> (r: [u8; 32])
    ensures
        r@ == sha256_of(bytes@),
{
    sha2::Sha256::digest(bytes).into()
}

/// The bytes of the first scores.
pub open spec fn score_bytes(scores: Seq<u32>, n: int) -> Seq<u8>
    decreases n,
{
    if n <= 0 {
        Seq::empty()
    } else {
        score_bytes(scores, n - 1) + le_bytes(scores[n - 1] as nat, 4)
    }
}

/// What is hashed for a list of scores: how many there are, and their patterns.
pub open spec fn framed(scores: Seq<u32>) -> Seq<u8> {
    le_bytes(scores.len(), 8) + score_bytes(scores, scores.len() as int)
}

/// What is hashed for a list of scores.
pub fn frame_scores(scores: &Vec<u32>) -> (r: Vec<u8>)
    ensures
        r@ == framed(scores@),
{
    let mut r: Vec<u8> = Vec::new();
    push_le(&mut r, scores.len() as u64, 8);
    let ghost head = le_bytes(scores@.len(), 8);
    assert(r@ =~= head);
    let mut i: usize = 0;
    assert(r@ =~= head + score_bytes(scores@, 0));
    while i < scores.len()
        invariant
            i <= scores@.len(),
            r@ == head + score_bytes(scores@, i as int),
        decreases scores@.len() - i,
    {
        push_le(&mut r, scores[i] as u64, 4);
        i = i + 1;
        assert(r@ =~= head + score_bytes(scores@, i as int));
    }
    r
}

/// The digest of a list of scores.
pub fn logits_digest(scores: &Vec<u32>) -> (r: [u8; 32])
    ensures
        r@ == sha256_of(framed(scores@)),
{
    let bytes: Vec<u8> = frame_scores(scores);
    sha256(&bytes)
}

proof fn lemma_score_bytes_len(scores: Seq<u32>, n: int)
    requires
        0 <= n,
    ensures
        score_bytes(scores, n).len() == 4 * n,
    decreases n,
{
    if n > 0 {
        lemma_score_bytes_len(scores, n - 1);
        lemma_le_bytes_len(scores[n - 1] as nat, 4);
    }
}

proof fn lemma_score_at(scores: Seq<u32>, n: int, i: int)
    requires
        0 <= i < n <= scores.len(),
    ensures
        score_bytes(scores, n).subrange(4 * i, 4 * i + 4) == le_bytes(scores[i] as nat, 4),
    decreases n,
{
    lemma_score_bytes_len(scores, n - 1);
    lemma_le_bytes_len(scores[n - 1] as nat, 4);
    if i == n - 1 {
        assert(score_bytes(scores, n).subrange(4 * i, 4 * i + 4) =~= le_bytes(
            scores[i] as nat,
            4,
        ));
    } else {
        lemma_score_at(scores, n - 1, i);
        assert(score_bytes(scores, n).subrange(4 * i, 4 * i + 4) =~= score_bytes(
            scores,
            n - 1,
        ).subrange(4 * i, 4 * i + 4));
    }
}

/// What is hashed tells lists of scores apart: two lists that give the same bytes are
/// the same.
pub proof fn law_frames_tell_scores_apart(a: Seq<u32>, b: Seq<u32>)
    requires
        framed(a) == framed(b),
    ensures
        a == b,
{
    lemma_score_bytes_len(a, a.len() as int);
    lemma_score_bytes_len(b, b.len() as int);
    lemma_le_bytes_len(a.len(), 8);
    lemma_le_bytes_len(b.len(), 8);
    assert(framed(a).len() == 8 + 4 * a.len());
    assert(framed(b).len() == 8 + 4 * b.len());
    assert(a.len() == b.len());
    let n = a.len() as int;
    assert(score_bytes(a, n) =~= framed(a).skip(8));
    assert(score_bytes(b, n) =~= framed(b).skip(8));
    assert forall|i: int| 0 <= i < n implies a[i] == b[i] by {
        lemma_score_at(a, n, i);
        lemma_score_at(b, n, i);
        lemma_bases();
        law_le_round_trip(a[i] as nat, 4);
        law_le_round_trip(b[i] as nat, 4);
    }
    assert(a =~= b);
}

/// What is digested: how many scores there are, in eight bytes, and then four bytes of each in order.
pub proof fn law_scores_stand_behind_their_count(scores: Seq<u32>, i: int)
    requires
        0 <= i < scores.len() <= usize::MAX,
    ensures
        framed(scores).len() == 8 + 4 * scores.len(),
        crate::bytes::le(framed(scores), 0, 8) == scores.len(),
        crate::bytes::le(framed(scores), 8 + 4 * i, 4) == scores[i],
{
    let n = scores.len() as int;
    let (head, tail) = (le_bytes(scores.len(), 8), score_bytes(scores, n));
    crate::bytes::lemma_le_bytes_len(scores.len(), 8);
    crate::bytes::lemma_bases();
    crate::bytes::law_le_round_trip(scores.len(), 8);
    assert forall|k: int| 0 <= k < 8 implies #[trigger] framed(scores)[0 + k] == head[0 + k] by {}
    crate::bytes::lemma_le_same(framed(scores), 0, head, 0, 8);
    lemma_score_bytes_len(scores, n);
    lemma_score_at(scores, n, i);
    let part = tail.subrange(4 * i, 4 * i + 4);
    crate::bytes::law_le_round_trip(scores[i] as nat, 4);
    assert forall|k: int| 0 <= k < 4 implies #[trigger] framed(scores)[8 + 4 * i + k] == part[0 + k] by {}
    crate::bytes::lemma_le_same(framed(scores), 8 + 4 * i, part, 0, 4);
}

} // verus!
