//! What a run is asked to do, and how runs are judged against each other.

use vstd::prelude::*;
use vstd::string::*;

use crate::json::{as_array_spec, as_u64_spec, member, Json, JsonView};
use crate::settings::{number_or, read_usize, switch_on, texts, usize_of, Settings};
use crate::text::{char_is_space, chars_of, is_space, parse_spec, parse_unsigned};

verus! {

/// Whether a text ends inside a word.
pub open spec fn in_word(s: Seq<char>) -> bool {
    s.len() > 0 && !is_space(s.last())
}

/// The words of a text: its longest parts without white space.
pub open spec fn words(s: Seq<char>) -> Seq<Seq<char>>
    decreases s.len(),
{
    if s.len() == 0 {
        Seq::empty()
    } else {
        let rest = words(s.drop_last());
        if is_space(s.last()) {
            rest
        } else if in_word(s.drop_last()) {
            rest.update(rest.len() - 1, rest.last().push(s.last()))
        } else {
            rest.push(seq![s.last()])
        }
    }
}

proof fn lemma_words_nonempty(s: Seq<char>)
    ensures
        in_word(s) ==> words(s).len() > 0,
    decreases s.len(),
{
    if s.len() > 0 {
        lemma_words_nonempty(s.drop_last());
    }
}

/// The words of a text.
pub fn split_words(s: &Vec<char>) -> (r: Vec<Vec<char>>)
    ensures
        texts(r@) == words(s@),
{
    let mut done: Vec<Vec<char>> = Vec::new();
    let mut word: Vec<char> = Vec::new();
    let mut i: usize = 0;
    assert(s@.take(0) =~= Seq::empty());
    assert(texts(done@) =~= words(s@.take(0)));
    while i < s.len()
        invariant
            i <= s@.len(),
            in_word(s@.take(i as int)) == (word@.len() > 0),
            word@.len() == 0 ==> texts(done@) == words(s@.take(i as int)),
            word@.len() > 0 ==> texts(done@).push(word@) == words(s@.take(i as int)),
        decreases s@.len() - i,
    {
        let c: char = s[i];
        let ghost before = words(s@.take(i as int));
        proof {
            assert(s@.take(i + 1).drop_last() =~= s@.take(i as int));
            assert(s@.take(i + 1).last() == c);
            lemma_words_nonempty(s@.take(i as int));
        }
        if char_is_space(c) {
            if word.len() > 0 {
                let ghost d0 = done@;
                let ghost w0 = word@;
                done.push(word);
                word = Vec::new();
                assert(texts(done@) =~= texts(d0).push(w0));
            }
        } else {
            let ghost w0 = word@;
            word.push(c);
            proof {
                if w0.len() > 0 {
                    assert(before.last() == w0);
                    assert(texts(done@).push(word@) =~= before.update(
                        before.len() - 1,
                        w0.push(c),
                    ));
                } else {
                    assert(word@ =~= seq![c]);
                    assert(texts(done@).push(word@) =~= before.push(seq![c]));
                }
            }
        }
        i = i + 1;
    }
    assert(s@.take(s@.len() as int) =~= s@);
    if word.len() > 0 {
        let ghost d0 = done@;
        let ghost w0 = word@;
        done.push(word);
        assert(texts(done@) =~= texts(d0).push(w0));
    }
    done
}

/// The tokens that words write, where every word writes one.
pub open spec fn tokens_in(w: Seq<Seq<char>>) -> Option<Seq<u32>>
    decreases w.len(),
{
    if w.len() == 0 {
        Some(Seq::empty())
    } else {
        match (tokens_in(w.drop_last()), parse_spec(w.last(), u32::MAX as nat)) {
            (Some(rest), Some(t)) => Some(rest.push(t as u32)),
            _ => None,
        }
    }
}

/// The tokens that a text writes, with white space between them.
pub fn parse_tokens(text: &str) -> (r: Option<Vec<u32>>)
    ensures
        match r {
            Some(v) => tokens_in(words(text@)) == Some(v@),
            None => tokens_in(words(text@)) is None,
        },
{
    let w: Vec<Vec<char>> = split_words(&chars_of(text));
    let ghost all = words(text@);
    let mut r: Vec<u32> = Vec::new();
    let mut i: usize = 0;
    while i < w.len()
        invariant
            i <= w@.len(),
            texts(w@) == all,
            all == words(text@),
            tokens_in(all.take(i as int)) == Some(r@),
        decreases w@.len() - i,
    {
        proof {
            assert(all.take(i + 1).drop_last() =~= all.take(i as int));
            assert(all.take(i + 1).last() == w@[i as int]@);
        }
        match parse_unsigned(&w[i], u32::MAX as u64) {
            Some(t) => r.push(t as u32),
            None => {
                proof {
                    lemma_tokens_fail(all, i + 1);
                }
                return None;
            },
        }
        i = i + 1;
    }
    assert(all.take(i as int) =~= all);
    Some(r)
}

proof fn lemma_tokens_fail(w: Seq<Seq<char>>, n: int)
    requires
        0 <= n <= w.len(),
        tokens_in(w.take(n)) is None,
    ensures
        tokens_in(w) is None,
    decreases w.len(),
{
    if n < w.len() {
        assert(w.drop_last().take(n) =~= w.take(n));
        lemma_tokens_fail(w.drop_last(), n);
    } else {
        assert(w.take(n) =~= w);
    }
}

/// The text of a setting, or a default.
pub open spec fn set_or(s: Settings, name: Seq<char>, default: Seq<char>) -> Seq<char> {
    match s.value(name) {
        Some(v) => v,
        None => default,
    }
}

/// What to feed and how much to decode: the prompt and the number of new tokens that the
/// settings ask for. Nothing where either does not read as it should.
pub fn prompt_asked(settings: &Settings) -> (r: Option<(Vec<u32>, usize)>)
    ensures
        match r {
            Some((prompt, n)) => {
                &&& tokens_in(words(set_or(*settings, "QWEN_PROMPT"@, "1 2 3 4 5"@))) == Some(prompt@)
                &&& usize_of(set_or(*settings, "QWEN_MAX_NEW"@, "8"@)) == Some(n)
            },
            None => {
                ||| tokens_in(words(set_or(*settings, "QWEN_PROMPT"@, "1 2 3 4 5"@))) is None
                ||| usize_of(set_or(*settings, "QWEN_MAX_NEW"@, "8"@)) is None
            },
        },
{
    match parse_tokens(settings.text("QWEN_PROMPT", "1 2 3 4 5")) {
        Some(prompt) => match read_usize(&chars_of(settings.text("QWEN_MAX_NEW", "8"))) {
            Some(n) => Some((prompt, n)),
            None => None,
        },
        None => None,
    }
}

/// What a directory holds, and what is asked of it.
#[derive(Clone, Copy, Debug, PartialEq, Eq, Structural)]
pub enum RunKind {
    /// Decode a package with a scheduler.
    Scheduled,
    /// Decode a package with a cache of prefixes.
    Cached,
    /// Decode tensors.
    Greedy,
    /// Compare with reference texts.
    Reference { package: bool },
}

/// What to do with a directory: with reference texts in it, compare; else decode, and a
/// package in its own way. It is a package unless it holds tensors, in one file or in
/// several.
pub fn run_kind(settings: &Settings, sharded: bool, single: bool, reference: bool) -> (r: RunKind)
    ensures
        r == (if reference {
            RunKind::Reference { package: !sharded && !single }
        } else if sharded || single {
            RunKind::Greedy
        } else if settings.value("QWEN_SCHED"@) == Some("1"@) {
            RunKind::Scheduled
        } else {
            RunKind::Cached
        }),
{
    if reference {
        return RunKind::Reference { package: !sharded && !single };
    }
    if sharded || single {
        return RunKind::Greedy;
    }
    match settings.get("QWEN_SCHED") {
        Some(v) => if crate::text::same_text(v, "1") {
            RunKind::Scheduled
        } else {
            RunKind::Cached
        },
        None => RunKind::Cached,
    }
}

/// A reference text.
#[derive(Debug)]
pub struct Case {
    pub prompt: Vec<u32>,
    pub expected: Vec<u32>,
    pub max_new: usize,
}

/// Whole numbers as tokens, where all are whole numbers.
pub open spec fn tokens_said(a: Seq<JsonView>) -> Option<Seq<u32>>
    decreases a.len(),
{
    if a.len() == 0 {
        Some(Seq::empty())
    } else {
        match (tokens_said(a.drop_last()), as_u64_spec(Some(a.last()))) {
            (Some(rest), Some(n)) => Some(rest.push((n % 0x1_0000_0000) as u32)),
            _ => None,
        }
    }
}

/// The tokens of a member.
pub open spec fn tokens_under(v: JsonView, name: Seq<char>) -> Option<Seq<u32>> {
    match as_array_spec(member(v, name)) {
        Some(a) => tokens_said(a),
        None => None,
    }
}

proof fn lemma_said_fail(a: Seq<JsonView>, n: int)
    requires
        0 <= n <= a.len(),
        tokens_said(a.take(n)) is None,
    ensures
        tokens_said(a) is None,
    decreases a.len(),
{
    if n < a.len() {
        assert(a.drop_last().take(n) =~= a.take(n));
        lemma_said_fail(a.drop_last(), n);
    } else {
        assert(a.take(n) =~= a);
    }
}

fn read_tokens(v: &Json, name: &str) -> (r: Option<Vec<u32>>)
    ensures
        match r {
            Some(t) => tokens_under(v@, name@) == Some(t@),
            None => tokens_under(v@, name@) is None,
        },
{
    let a: &Vec<Json> = match v.get_array(name) {
        Some(a) => a,
        None => {
            return None;
        },
    };
    let ghost all = Seq::new(a@.len(), |i: int| a@[i]@);
    let mut r: Vec<u32> = Vec::new();
    let mut i: usize = 0;
    assert(all.take(0) =~= Seq::empty());
    while i < a.len()
        invariant
            i <= a@.len(),
            all == Seq::new(a@.len(), |i: int| a@[i]@),
            as_array_spec(member(v@, name@)) == Some(all),
            tokens_said(all.take(i as int)) == Some(r@),
        decreases a@.len() - i,
    {
        proof {
            assert(all.take(i + 1).drop_last() =~= all.take(i as int));
            assert(all.take(i + 1).last() == a@[i as int]@);
        }
        match a[i].as_u64() {
            Some(n) => r.push((n % 0x1_0000_0000) as u32),
            None => {
                proof {
                    lemma_said_fail(all, i + 1);
                }
                return None;
            },
        }
        i = i + 1;
    }
    assert(all.take(i as int) =~= all);
    Some(r)
}

/// What a document says of a reference text.
pub open spec fn case_said(doc: JsonView, name: Seq<char>) -> Option<(Seq<u32>, Seq<u32>, u64)> {
    match member(doc, "cases"@) {
        Some(cases) => match member(cases, name) {
            Some(c) => match (
                tokens_under(c, "prompt_ids"@),
                tokens_under(c, "greedy_new_ids"@),
                as_u64_spec(member(c, "max_new_tokens"@)),
            ) {
                (Some(p), Some(e), Some(n)) => if n <= usize::MAX {
                    Some((p, e, n))
                } else {
                    None
                },
                _ => None,
            },
            None => None,
        },
        None => None,
    }
}

/// A reference text of a document, where it is all there.
pub fn reference_case(doc: &Json, name: &str) -> (r: Option<Case>)
    ensures
        match r {
            Some(c) => case_said(doc@, name@) == Some((c.prompt@, c.expected@, c.max_new as u64)),
            None => case_said(doc@, name@) is None,
        },
{
    let c: &Json = match doc.get("cases") {
        Some(cases) => match cases.get(name) {
            Some(c) => c,
            None => {
                return None;
            },
        },
        None => {
            return None;
        },
    };
    let prompt: Vec<u32> = match read_tokens(c, "prompt_ids") {
        Some(t) => t,
        None => {
            return None;
        },
    };
    let expected: Vec<u32> = match read_tokens(c, "greedy_new_ids") {
        Some(t) => t,
        None => {
            return None;
        },
    };
    match c.get_u64("max_new_tokens") {
        Some(n) => if n <= usize::MAX as u64 {
            Some(Case { prompt, expected, max_new: n as usize })
        } else {
            None
        },
        None => None,
    }
}

/// Whether two texts are the same.
pub fn same_tokens(a: &Vec<u32>, b: &Vec<u32>) -> (r: bool)
    ensures
        r == (a@ == b@),
{
    if a.len() != b.len() {
        return false;
    }
    let mut i: usize = 0;
    while i < a.len()
        invariant
            i <= a@.len(),
            a@.len() == b@.len(),
            forall|j: int| 0 <= j < i ==> a@[j] == b@[j],
        decreases a@.len() - i,
    {
        if a[i] != b[i] {
            return false;
        }
        i = i + 1;
    }
    assert(a@ =~= b@);
    true
}

/// What a comparison of a restored run with a plain one starts from.
#[derive(Debug)]
pub struct GateInputs {
    pub prefix: Vec<u32>,
    pub suffix: Vec<u32>,
    /// Other tokens, to make a state that has to be undone.
    pub dirty: Vec<u32>,
    pub new_tokens: usize,
    pub reuse_existing: bool,
}

/// Why there is nothing to compare.
#[derive(Clone, Copy, Debug, PartialEq, Eq, Structural)]
pub enum GateFault {
    /// A token does not read as a number.
    BadToken,
    /// There is no prefix or no suffix.
    Empty,
    /// No new token is asked for.
    NoNewTokens,
}

impl GateFault {
    /// The fault in words.
    pub fn message(self) -> (r: &'static str)
        ensures
            r@ == (match self {
                GateFault::BadToken => "token id"@,
                GateFault::Empty => "gate prefix and suffix must be non-empty"@,
                GateFault::NoNewTokens => "QWEN_GATE_NEW must be > 0"@,
            }),
    {
        match self {
            GateFault::BadToken => "token id",
            GateFault::Empty => "gate prefix and suffix must be non-empty",
            GateFault::NoNewTokens => "QWEN_GATE_NEW must be > 0",
        }
    }
}

/// Tokens other than these: each one higher, as far as there is a higher one.
pub open spec fn dirtied(prefix: Seq<u32>) -> Seq<u32> {
    prefix.map_values(
        |t: u32|
            if t == u32::MAX {
                t
            } else {
                (t + 1) as u32
            },
    )
}

/// What stands against a comparison. Only one of stored states asks for new tokens.
pub open spec fn gate_fault(s: Settings, stored: bool) -> Option<GateFault> {
    let prefix = tokens_in(words(set_or(s, "QWEN_GATE_PREFIX"@, "1 2 3 4 5"@)));
    let suffix = tokens_in(words(set_or(s, "QWEN_GATE_SUFFIX"@, "7 9 11"@)));
    match (prefix, suffix) {
        (Some(p), Some(x)) => if p.len() == 0 || x.len() == 0 {
            Some(GateFault::Empty)
        } else if stored && number_or(s.value("QWEN_GATE_NEW"@), 8) == 0 {
            Some(GateFault::NoNewTokens)
        } else {
            None
        },
        _ => Some(GateFault::BadToken),
    }
}

/// What a comparison starts from, as the settings say.
pub fn gate_inputs(settings: &Settings, stored: bool) -> (r: Result<GateInputs, GateFault>)
    ensures
        match r {
            Ok(g) => {
                &&& gate_fault(*settings, stored) is None
                &&& tokens_in(words(set_or(*settings, "QWEN_GATE_PREFIX"@, "1 2 3 4 5"@))) == Some(
                    g.prefix@,
                )
                &&& tokens_in(words(set_or(*settings, "QWEN_GATE_SUFFIX"@, "7 9 11"@))) == Some(
                    g.suffix@,
                )
                &&& g.dirty@ == dirtied(g.prefix@)
                &&& g.new_tokens == number_or(settings.value("QWEN_GATE_NEW"@), 8)
                &&& g.reuse_existing == switch_on(settings.value("QWEN_GATE_REUSE"@), false)
            },
            Err(e) => gate_fault(*settings, stored) == Some(e),
        },
{
    let prefix: Vec<u32> = match parse_tokens(settings.text("QWEN_GATE_PREFIX", "1 2 3 4 5")) {
        Some(v) => v,
        None => {
            return Err(GateFault::BadToken);
        },
    };
    let suffix: Vec<u32> = match parse_tokens(settings.text("QWEN_GATE_SUFFIX", "7 9 11")) {
        Some(v) => v,
        None => {
            return Err(GateFault::BadToken);
        },
    };
    if prefix.len() == 0 || suffix.len() == 0 {
        return Err(GateFault::Empty);
    }
    let new_tokens: usize = settings.number("QWEN_GATE_NEW", 8);
    if stored && new_tokens == 0 {
        return Err(GateFault::NoNewTokens);
    }
    let mut dirty: Vec<u32> = Vec::new();
    let mut i: usize = 0;
    while i < prefix.len()
        invariant
            i <= prefix@.len(),
            dirty@ == dirtied(prefix@.take(i as int)),
        decreases prefix@.len() - i,
    {
        dirty.push(prefix[i].saturating_add(1));
        i = i + 1;
        assert(dirty@ =~= dirtied(prefix@.take(i as int)));
    }
    assert(prefix@.take(i as int) =~= prefix@);
    Ok(
        GateInputs {
            prefix,
            suffix,
            dirty,
            new_tokens,
            reuse_existing: settings.on("QWEN_GATE_REUSE", false),
        },
    )
}

/// What came of a comparison: what is exact, and whether restoring was cheap enough.
#[derive(Clone, Copy, Debug, PartialEq, Eq, Structural)]
pub struct Verdict {
    pub replay: bool,
    pub restored: bool,
    pub tokens: bool,
    pub logits: bool,
    pub final_state: bool,
    pub perf: bool,
}

/// A truth value in words.
pub open spec fn yes_no(b: bool) -> Seq<char> {
    if b {
        "true"@
    } else {
        "false"@
    }
}

fn push_flag(out: &mut String, name: &str, b: bool)
    ensures
        final(out)@ == old(out)@ + name@ + yes_no(b),
{
    out.append(name);
    if b {
        out.append("true");
    } else {
        out.append("false");
    }
}

impl Verdict {
    /// Whether everything holds.
    pub open spec fn holds(self) -> bool {
        self.replay && self.restored && self.tokens && self.logits && self.final_state && self.perf
    }

    /// Whether everything holds.
    pub fn passes(&self) -> (r: bool)
        ensures
            r == self.holds(),
    {
        self.replay && self.restored && self.tokens && self.logits && self.final_state && self.perf
    }

    /// What is said of a comparison that does not hold.
    pub open spec fn failure(self) -> Seq<char> {
        "GATE: FAIL replay_exact="@ + yes_no(self.replay) + " restored_exact="@ + yes_no(self.restored)
            + " tokens="@ + yes_no(self.tokens) + " logits="@ + yes_no(self.logits)
            + " final_state="@ + yes_no(self.final_state) + " perf="@ + yes_no(self.perf)
    }

    /// What is said of a comparison that does not hold.
    pub fn failure_text(&self) -> (r: String)
        ensures
            r@ == self.failure(),
    {
        let mut out: String = String::from_str("GATE: FAIL replay_exact=");
        if self.replay {
            out.append("true");
        } else {
            out.append("false");
        }
        push_flag(&mut out, " restored_exact=", self.restored);
        push_flag(&mut out, " tokens=", self.tokens);
        push_flag(&mut out, " logits=", self.logits);
        push_flag(&mut out, " final_state=", self.final_state);
        push_flag(&mut out, " perf=", self.perf);
        out
    }
}

/// A comparison holds only if nothing differs.
pub proof fn law_one_difference_fails(v: Verdict)
    ensures
        v.holds() <==> v == (Verdict {
            replay: true,
            restored: true,
            tokens: true,
            logits: true,
            final_state: true,
            perf: true,
        }),
{
}

/// The tokens that runs are compared by where there is no text: a fixed walk through
/// the vocabulary.
pub fn probe_tokens(forwards: usize, vocab: usize) -> (r: Vec<usize>)
    requires
        forwards * 7919 + 17321 <= usize::MAX,
    ensures
        r@.len() == forwards,
        forall|i: int|
            0 <= i < forwards ==> #[trigger] r@[i] == (17321 + i * 7919) % (if vocab < 2 {
                2int
            } else {
                vocab as int
            }),
{
    let n: usize = if vocab < 2 {
        2
    } else {
        vocab
    };
    let mut r: Vec<usize> = Vec::new();
    let mut i: usize = 0;
    while i < forwards
        invariant
            i <= forwards,
            forwards * 7919 + 17321 <= usize::MAX,
            n == (if vocab < 2 {
                2
            } else {
                vocab
            }),
            r@.len() == i,
            forall|k: int| 0 <= k < i ==> #[trigger] r@[k] == (17321 + k * 7919) % (n as int),
        decreases forwards - i,
    {
        r.push((17321 + i * 7919) % n);
        i = i + 1;
    }
    r
}

/// Words are what stands between spaces: none is empty, none holds a space, and together, in order, they
/// are the text without its spaces.
pub proof fn law_words_are_the_text_without_spaces(s: Seq<char>)
    ensures
        words(s).flatten() == s.filter(|c: char| !is_space(c)),
        forall|i: int| 0 <= i < words(s).len() ==> (#[trigger] words(s)[i]).len() > 0,
        in_word(s) ==> words(s).len() > 0,
    decreases s.len(),
{
    reveal(Seq::filter);
    let keep = |c: char| !is_space(c);
    if s.len() == 0 {
        assert(words(s) =~= Seq::empty());
        assert(words(s).flatten() =~= Seq::empty());
    } else {
        let short = s.drop_last();
        law_words_are_the_text_without_spaces(short);
        let rest = words(short);
        let c = s.last();
        assert(s.filter(keep) == (if keep(c) {
            short.filter(keep).push(c)
        } else {
            short.filter(keep)
        }));
        if is_space(c) {
        } else if in_word(short) {
            let n = rest.len() - 1;
            let new = rest.update(n, rest.last().push(c));
            assert(new.drop_last() =~= rest.drop_last());
            lemma_flatten_last(new);
            lemma_flatten_last(rest);
            assert(new.flatten() =~= rest.flatten().push(c));
        } else {
            let new = rest.push(seq![c]);
            assert(new.drop_last() =~= rest);
            lemma_flatten_last(new);
            assert(new.flatten() =~= rest.flatten().push(c));
        }
    }
}

proof fn lemma_flatten_last(v: Seq<Seq<char>>)
    requires
        v.len() > 0,
    ensures
        v.flatten() == v.drop_last().flatten() + v.last(),
{
    v.lemma_flatten_and_flatten_alt_are_equivalent();
    v.drop_last().lemma_flatten_and_flatten_alt_are_equivalent();
}

/// A space between two texts ends a word: the words of both are those of the one and then those of the
/// other.
pub proof fn law_a_space_parts_words(a: Seq<char>, space: char, b: Seq<char>)
    requires
        is_space(space),
    ensures
        words(a.push(space) + b) == words(a) + words(b),
    decreases b.len(),
{
    let all = a.push(space) + b;
    if b.len() == 0 {
        assert(all.drop_last() =~= a);
        assert(all.last() == space);
        assert(words(a) + words(b) =~= words(a));
    } else {
        let short = b.drop_last();
        law_a_space_parts_words(a, space, short);
        assert(all.drop_last() =~= a.push(space) + short);
        assert(all.last() == b.last());
        let (x, y) = (words(a), words(short));
        if short.len() == 0 {
            assert((a.push(space) + short).last() == space);
            assert(!in_word(a.push(space) + short));
            assert(!in_word(short));
        } else {
            assert((a.push(space) + short).last() == short.last());
            if in_word(short) {
                law_words_are_the_text_without_spaces(short);
                assert((x + y).last() == y.last());
                assert((x + y).update((x + y).len() - 1, y.last().push(b.last())) =~= x + y.update(
                    y.len() - 1,
                    y.last().push(b.last()),
                ));
            }
        }
        if !is_space(b.last()) && !in_word(short) {
            assert((x + y).push(seq![b.last()]) =~= x + y.push(seq![b.last()]));
        }
    }
}

/// The prefix that spoils a state differs from the other in every place, but where a token is the
/// largest there is.
pub proof fn law_a_dirty_prefix_differs_everywhere(prefix: Seq<u32>, i: int)
    requires
        0 <= i < prefix.len(),
    ensures
        dirtied(prefix).len() == prefix.len(),
        prefix[i] != u32::MAX ==> dirtied(prefix)[i] == prefix[i] + 1,
        prefix[i] == u32::MAX ==> dirtied(prefix)[i] == prefix[i],
{
}

} // verus!
