//! Greedy decoding: which token is fed where, and which token comes next.
//!
//! The model is the caller's: [`Decode`] says what to feed it, and takes the scores
//! that came back.

use vstd::prelude::*;

use crate::floatbits::{number_key, value_key};
use crate::route::{all_numbers, is_number};

verus! {

/// Whether a list of scores has a best one: it is not empty, its places fit a token,
/// and where there are several, all are numbers.
pub open spec fn decidable(scores: Seq<u32>) -> bool {
    &&& 0 < scores.len() <= 0x1_0000_0000
    &&& scores.len() > 1 ==> all_numbers(scores)
}

/// Whether a place holds the best score, the last of them where there are several.
pub open spec fn is_last_best(scores: Seq<u32>, i: int) -> bool {
    &&& 0 <= i < scores.len()
    &&& forall|j: int|
        0 <= j < i ==> value_key(#[trigger] scores[j]) <= value_key(scores[i])
    &&& forall|j: int|
        i < j < scores.len() ==> value_key(#[trigger] scores[j]) < value_key(scores[i])
}

/// The token with the best score.
pub fn next_token(scores: &Vec<u32>) -> (r: u32)
    requires
        decidable(scores@),
    ensures
        is_last_best(scores@, r as int),
{
    let mut best: usize = 0;
    let mut i: usize = 1;
    while i < scores.len()
        invariant
            best < i <= scores@.len(),
            decidable(scores@),
            is_last_best(scores@.take(i as int), best as int),
        decreases scores@.len() - i,
    {
        let ghost t = scores@.take(i as int);
        let ghost u = scores@.take(i + 1);
        proof {
            assert forall|j: int| 0 <= j < i implies #[trigger] u[j] == t[j] by {}
        }
        if number_key(scores[i]) >= number_key(scores[best]) {
            best = i;
        }
        i = i + 1;
    }
    assert(scores@.take(i as int) =~= scores@);
    best as u32
}

/// There is one best token.
pub proof fn law_the_next_token_is_unique(scores: Seq<u32>, a: int, b: int)
    requires
        is_last_best(scores, a),
        is_last_best(scores, b),
    ensures
        a == b,
{
    if a < b {
        assert(value_key(scores[b]) < value_key(scores[a]));
        assert(value_key(scores[a]) <= value_key(scores[b]));
    } else if b < a {
        assert(value_key(scores[a]) < value_key(scores[b]));
        assert(value_key(scores[b]) <= value_key(scores[a]));
    }
}

/// Whether a place holds the best score that is above minus infinity, the first of
/// them where there are several; the first place of all where there is none.
pub open spec fn is_first_best(scores: Seq<u32>, i: int) -> bool {
    let low = value_key(0xff80_0000);
    let above = |j: int| is_number(scores[j]) && value_key(scores[j]) > low;
    if exists|j: int| 0 <= j < scores.len() && #[trigger] above(j) {
        &&& 0 <= i < scores.len()
        &&& above(i)
        &&& forall|j: int| 0 <= j < scores.len() && #[trigger] above(j) ==> {
            &&& value_key(scores[j]) <= value_key(scores[i])
            &&& j < i ==> value_key(scores[j]) < value_key(scores[i])
        }
    } else {
        i == 0
    }
}

/// The place of the first best score. Scores that are no numbers do not count.
pub fn argmax(scores: &Vec<u32>) -> (r: usize)
    ensures
        is_first_best(scores@, r as int),
{
    let ghost low = value_key(0xff80_0000);
    let ghost above = |j: int| is_number(scores@[j]) && value_key(scores@[j]) > low;
    let mut best: usize = 0;
    let mut best_key: i64 = number_key(0xff80_0000);
    let mut i: usize = 0;
    while i < scores.len()
        invariant
            i <= scores@.len(),
            low == value_key(0xff80_0000),
            above == (|j: int| is_number(scores@[j]) && value_key(scores@[j]) > low),
            best_key == low ==> best == 0 && (forall|j: int| 0 <= j < i ==> !#[trigger] above(j)),
            best_key != low ==> {
                &&& best < i
                &&& above(best as int)
                &&& best_key == value_key(scores@[best as int])
                &&& forall|j: int| 0 <= j < i && #[trigger] above(j) ==> {
                    &&& value_key(scores@[j]) <= best_key
                    &&& j < best ==> value_key(scores@[j]) < best_key
                }
            },
            best_key >= low,
        decreases scores@.len() - i,
    {
        let s: u32 = scores[i];
        let k: i64 = number_key(s);
        if s % 0x8000_0000 <= 0x7f80_0000 && k > best_key {
            assert(above(i as int));
            best = i;
            best_key = k;
        }
        i = i + 1;
    }
    best
}

/// How decoding goes on after the prompt.
#[derive(Clone, Copy, Debug, PartialEq, Eq, Structural)]
pub enum Start {
    /// With what came back for the last token of the prompt.
    FromPrompt,
    /// By feeding the last token of the prompt once more.
    Again,
}

/// A text on its way.
#[derive(Debug)]
pub struct Decode {
    pub prompt: Vec<u32>,
    pub count: usize,
    pub start: Start,
    /// How many tokens have been fed.
    pub fed: usize,
    /// The tokens that came out.
    pub out: Vec<u32>,
}

/// How many tokens are fed before what comes back is the first token of the text.
pub open spec fn lead_len(prompt: int, start: Start) -> int {
    match start {
        Start::FromPrompt => prompt - 1,
        Start::Again => prompt,
    }
}

/// The token that is fed at a position, when these have come out.
pub open spec fn fed_at(prompt: Seq<u32>, start: Start, out: Seq<u32>, pos: int) -> u32 {
    if pos < prompt.len() {
        prompt[pos]
    } else {
        match start {
            Start::FromPrompt => out[pos - prompt.len()],
            Start::Again => if pos == prompt.len() {
                prompt.last()
            } else {
                out[pos - prompt.len() - 1]
            },
        }
    }
}

impl Decode {
    /// Tokens have come out for all that was fed past the lead.
    pub open spec fn wf(self) -> bool {
        let lead = lead_len(self.prompt@.len() as int, self.start);
        &&& self.prompt@.len() > 0
        &&& self.count > 0
        &&& self.prompt@.len() + self.count <= usize::MAX
        &&& self.fed <= lead + self.count
        &&& self.out@.len() == (if self.fed <= lead {
            0
        } else {
            self.fed - lead
        })
    }

    /// Whether all tokens have come out.
    pub open spec fn is_done(self) -> bool {
        self.out@.len() == self.count
    }

    /// Begins a text. There is none without a prompt or of no tokens.
    pub fn new(prompt: &Vec<u32>, count: usize, start: Start) -> (r: Option<Decode>)
        requires
            prompt@.len() + count <= usize::MAX,
        ensures
            match r {
                Some(d) => {
                    &&& prompt@.len() > 0 && count > 0
                    &&& d.prompt@ == prompt@
                    &&& d.count == count
                    &&& d.start == start
                    &&& d.fed == 0
                    &&& d.out@ == Seq::<u32>::empty()
                    &&& d.wf()
                },
                None => prompt@.len() == 0 || count == 0,
            },
    {
        if prompt.len() == 0 || count == 0 {
            return None;
        }
        let mut copy: Vec<u32> = Vec::new();
        let mut i: usize = 0;
        while i < prompt.len()
            invariant
                i <= prompt@.len(),
                copy@ == prompt@.take(i as int),
            decreases prompt@.len() - i,
        {
            copy.push(prompt[i]);
            i = i + 1;
            assert(copy@ =~= prompt@.take(i as int));
        }
        assert(copy@ =~= prompt@);
        Some(Decode { prompt: copy, count, start, fed: 0, out: Vec::new() })
    }

    /// What to feed next: a token and its position; nothing once all tokens are out.
    pub fn next(&self) -> (r: Option<(u32, usize)>)
        requires
            self.wf(),
        ensures
            match r {
                Some((token, pos)) => {
                    &&& !self.is_done()
                    &&& pos == self.fed
                    &&& token == fed_at(self.prompt@, self.start, self.out@, pos as int)
                },
                None => self.is_done(),
            },
    {
        if self.out.len() == self.count {
            return None;
        }
        let n: usize = self.prompt.len();
        let token: u32 = if self.fed < n {
            self.prompt[self.fed]
        } else {
            match self.start {
                Start::FromPrompt => self.out[self.fed - n],
                Start::Again => if self.fed == n {
                    self.prompt[n - 1]
                } else {
                    self.out[self.fed - n - 1]
                },
            }
        };
        Some((token, self.fed))
    }

    /// Whether the scores of the token to be fed now decide on a token.
    pub fn decides(&self) -> (r: bool)
        requires
            self.wf(),
        ensures
            r == (self.fed >= lead_len(self.prompt@.len() as int, self.start)),
    {
        match self.start {
            Start::FromPrompt => self.fed >= self.prompt.len() - 1,
            Start::Again => self.fed >= self.prompt.len(),
        }
    }

    /// Takes the scores that came back for what was fed.
    pub fn take(&mut self, scores: &Vec<u32>)
        requires
            old(self).wf(),
            !old(self).is_done(),
            old(self).fed >= lead_len(old(self).prompt@.len() as int, old(self).start) ==> decidable(
                scores@,
            ),
        ensures
            final(self).wf(),
            final(self).prompt == old(self).prompt,
            final(self).count == old(self).count,
            final(self).start == old(self).start,
            final(self).fed == old(self).fed + 1,
            ({
                let leads = old(self).fed < lead_len(old(self).prompt@.len() as int, old(self).start);
                &&& leads ==> final(self).out@ == old(self).out@
                &&& !leads ==> {
                    &&& final(self).out@ == old(self).out@.push(final(self).out@.last())
                    &&& final(self).out@.len() == old(self).out@.len() + 1
                    &&& is_last_best(scores@, final(self).out@.last() as int)
                }
            }),
    {
        let lead: usize = match self.start {
            Start::FromPrompt => self.prompt.len() - 1,
            Start::Again => self.prompt.len(),
        };
        if self.fed >= lead {
            let token: u32 = next_token(scores);
            self.out.push(token);
        }
        self.fed = self.fed + 1;
    }
}

/// Whether a text came of a model: there are scores for every position, each is what
/// the model gave for the token that was fed there, and every token of the text is the
/// best by the scores of its position.
pub open spec fn came_of<F: Fn(u32, usize) -> Vec<u32>>(
    f: F,
    prompt: Seq<u32>,
    start: Start,
    out: Seq<u32>,
    scores: Seq<Vec<u32>>,
) -> bool {
    let lead = lead_len(prompt.len() as int, start);
    &&& scores.len() == lead + out.len()
    &&& forall|p: int|
        0 <= p < scores.len() ==> call_ensures(
            f,
            (fed_at(prompt, start, out, p), p as usize),
            #[trigger] scores[p],
        )
    &&& forall|j: int|
        0 <= j < out.len() ==> is_last_best(scores[lead + j]@, #[trigger] out[j] as int)
}

fn decode<F: Fn(u32, usize) -> Vec<u32>>(f: &F, prompt: &Vec<u32>, count: usize, start: Start) -> (r: Vec<
    u32,
>)
    requires
        prompt@.len() + count <= usize::MAX,
        forall|token: u32, pos: usize| call_requires(*f, (token, pos)),
        forall|token: u32, pos: usize, s: Vec<u32>| #[trigger]
            call_ensures(*f, (token, pos), s) ==> decidable(s@),
    ensures
        prompt@.len() == 0 || count == 0 ==> r@.len() == 0,
        prompt@.len() > 0 && count > 0 ==> {
            &&& r@.len() == count
            &&& exists|scores: Seq<Vec<u32>>| #[trigger] came_of(*f, prompt@, start, r@, scores)
        },
{
    let mut d: Decode = match Decode::new(prompt, count, start) {
        Some(d) => d,
        None => {
            return Vec::new();
        },
    };
    let ghost mut scores: Seq<Vec<u32>> = Seq::empty();
    let ghost lead = lead_len(prompt@.len() as int, start);
    let mut more: bool = true;
    while more
        invariant
            d.wf(),
            d.prompt@ == prompt@,
            d.count == count,
            d.start == start,
            prompt@.len() > 0 && count > 0,
            lead == lead_len(prompt@.len() as int, start),
            scores.len() == d.fed,
            forall|token: u32, pos: usize| call_requires(*f, (token, pos)),
            forall|token: u32, pos: usize, s: Vec<u32>| #[trigger]
                call_ensures(*f, (token, pos), s) ==> decidable(s@),
            forall|p: int|
                0 <= p < scores.len() ==> call_ensures(
                    *f,
                    (fed_at(prompt@, start, d.out@, p), p as usize),
                    #[trigger] scores[p],
                ),
            forall|j: int|
                0 <= j < d.out@.len() ==> is_last_best(scores[lead + j]@, #[trigger] d.out@[j] as int),
            !more ==> d.is_done(),
        decreases lead + count - d.fed, (if more { 1int } else { 0int }),
    {
        match d.next() {
            None => {
                more = false;
            },
            Some((token, pos)) => {
                let ghost out = d.out@;
                let ghost before = scores;
                let s: Vec<u32> = f(token, pos);
                d.take(&s);
                proof {
                    scores = before.push(s);
                    assert forall|p: int| 0 <= p < scores.len() implies call_ensures(
                        *f,
                        (fed_at(prompt@, start, d.out@, p), p as usize),
                        #[trigger] scores[p],
                    ) by {
                        assert(fed_at(prompt@, start, d.out@, p) == fed_at(prompt@, start, out, p));
                        if p < before.len() {
                            assert(scores[p] == before[p]);
                        }
                    }
                    assert forall|j: int| 0 <= j < d.out@.len() implies is_last_best(
                        scores[lead + j]@,
                        #[trigger] d.out@[j] as int,
                    ) by {
                        if j < out.len() {
                            assert(out[j] == d.out@[j]);
                            assert(scores[lead + j] == before[lead + j]);
                        }
                    }
                }
            },
        }
    }
    proof {
        assert(came_of(*f, prompt@, start, d.out@, scores));
    }
    d.out
}

/// Decodes a text: the prompt is fed token by token from position zero, and every next
/// token is fed at the next position until there are as many as asked for.
pub fn run_greedy<F: Fn(u32, usize) -> Vec<u32>>(forward: &F, prompt: &Vec<u32>, max_new: usize) -> (r: Vec<
    u32,
>)
    requires
        prompt@.len() + max_new <= usize::MAX,
        forall|token: u32, pos: usize| call_requires(*forward, (token, pos)),
        forall|token: u32, pos: usize, s: Vec<u32>| #[trigger]
            call_ensures(*forward, (token, pos), s) ==> decidable(s@),
    ensures
        prompt@.len() == 0 || max_new == 0 ==> r@.len() == 0,
        prompt@.len() > 0 && max_new > 0 ==> {
            &&& r@.len() == max_new
            &&& exists|scores: Seq<Vec<u32>>| #[trigger]
                came_of(*forward, prompt@, Start::FromPrompt, r@, scores)
        },
{
    decode(forward, prompt, max_new, Start::FromPrompt)
}

/// Decodes a text in the way that reference texts are made: the last token of the
/// prompt is fed twice.
pub fn generate_trace<F: Fn(u32, usize) -> Vec<u32>>(forward: &F, prompt: &Vec<u32>, count: usize) -> (r:
    Vec<u32>)
    requires
        prompt@.len() + count <= usize::MAX,
        forall|token: u32, pos: usize| call_requires(*forward, (token, pos)),
        forall|token: u32, pos: usize, s: Vec<u32>| #[trigger]
            call_ensures(*forward, (token, pos), s) ==> decidable(s@),
    ensures
        prompt@.len() == 0 || count == 0 ==> r@.len() == 0,
        prompt@.len() > 0 && count > 0 ==> {
            &&& r@.len() == count
            &&& exists|scores: Seq<Vec<u32>>| #[trigger]
                came_of(*forward, prompt@, Start::Again, r@, scores)
        },
{
    decode(forward, prompt, count, Start::Again)
}

/// Two texts that the same scores came back for are the same: what is decoded depends
/// on the model alone.
pub proof fn law_decoding_is_determined<F: Fn(u32, usize) -> Vec<u32>>(
    f: F,
    prompt: Seq<u32>,
    start: Start,
    a: Seq<u32>,
    b: Seq<u32>,
    sa: Seq<Vec<u32>>,
    sb: Seq<Vec<u32>>,
)
    requires
        prompt.len() > 0,
        a.len() == b.len(),
        came_of(f, prompt, start, a, sa),
        came_of(f, prompt, start, b, sb),
        forall|token: u32, pos: usize, s: Vec<u32>, t: Vec<u32>|
            #![trigger call_ensures(f, (token, pos), s), call_ensures(f, (token, pos), t)]
            call_ensures(f, (token, pos), s) && call_ensures(f, (token, pos), t) ==> s@ == t@,
    ensures
        a == b,
{
    assert forall|j: int| 0 <= j < a.len() implies a[j] == b[j] by {
        lemma_same_prefix(f, prompt, start, a, b, sa, sb, j);
    }
    assert(a =~= b);
}

proof fn lemma_same_prefix<F: Fn(u32, usize) -> Vec<u32>>(
    f: F,
    prompt: Seq<u32>,
    start: Start,
    a: Seq<u32>,
    b: Seq<u32>,
    sa: Seq<Vec<u32>>,
    sb: Seq<Vec<u32>>,
    j: int,
)
    requires
        prompt.len() > 0,
        a.len() == b.len(),
        0 <= j < a.len(),
        came_of(f, prompt, start, a, sa),
        came_of(f, prompt, start, b, sb),
        forall|token: u32, pos: usize, s: Vec<u32>, t: Vec<u32>|
            #![trigger call_ensures(f, (token, pos), s), call_ensures(f, (token, pos), t)]
            call_ensures(f, (token, pos), s) && call_ensures(f, (token, pos), t) ==> s@ == t@,
    ensures
        a[j] == b[j],
    decreases j,
{
    let p = lead_len(prompt.len() as int, start) + j;
    if j > 0 {
        lemma_same_prefix(f, prompt, start, a, b, sa, sb, j - 1);
    }
    let t = fed_at(prompt, start, a, p);
    assert(t == fed_at(prompt, start, b, p));
    assert(call_ensures(f, (t, p as usize), sa[p]));
    assert(call_ensures(f, (t, p as usize), sb[p]));
    assert(sa[p]@ == sb[p]@);
    assert(is_last_best(sa[p]@, a[j] as int));
    assert(is_last_best(sb[p]@, b[j] as int));
    law_the_next_token_is_unique(sa[p]@, a[j] as int, b[j] as int);
}

/// No score is better than that of the token chosen, and of those that are as good it is the last.
pub proof fn law_of_the_best_the_last_is_chosen(scores: Seq<u32>, i: int, j: int)
    requires
        is_last_best(scores, i),
        0 <= j < scores.len(),
    ensures
        value_key(scores[j]) <= value_key(scores[i]),
        value_key(scores[j]) == value_key(scores[i]) ==> j <= i,
        j > i ==> value_key(scores[j]) < value_key(scores[i]),
{
}

/// No number is larger than that of the place found, and of those that are as large it is the first;
/// what is no number is never found where there is one above the lowest.
pub proof fn law_of_the_largest_the_first_is_found(scores: Seq<u32>, i: int, j: int)
    requires
        is_first_best(scores, i),
        0 <= j < scores.len(),
        is_number(scores[j]),
        scores[j] != 0xff80_0000,
    ensures
        0 <= i < scores.len(),
        is_number(scores[i]),
        value_key(scores[j]) <= value_key(scores[i]),
        value_key(scores[j]) == value_key(scores[i]) ==> i <= j,
{
    let low = value_key(0xff80_0000);
    let above = |j: int| is_number(scores[j]) && value_key(scores[j]) > low;
    assert(above(j));
    assert(above(i));
}

/// What is fed: the prompt at its positions and, behind it, what has been chosen, in order; where a
/// trace is made, the last token of the prompt is fed once more between them.
pub proof fn law_the_prompt_is_fed_and_then_what_was_chosen(prompt: Seq<u32>, out: Seq<u32>, pos: int)
    requires
        prompt.len() > 0,
        0 <= pos,
    ensures
        pos < prompt.len() + out.len() ==> fed_at(prompt, Start::FromPrompt, out, pos) == (prompt
            + out)[pos],
        pos < prompt.len() + 1 + out.len() ==> fed_at(prompt, Start::Again, out, pos) == (prompt.push(
            prompt.last(),
        ) + out)[pos],
        lead_len(prompt.len() as int, Start::FromPrompt) + 1 == prompt.len(),
        lead_len(prompt.len() as int, Start::Again) == prompt.len(),
{
}

} // verus!
