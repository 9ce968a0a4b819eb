//! The settings that a run is given by name, and how their values read.
//!
//! A run takes its switches from its environment. Here that environment is a
//! plain list of names and values; what a value means is decided by the
//! functions of this module and of those that ask it.

use vstd::prelude::*;
use vstd::string::*;

use crate::text::{
    chars_of, decimal, law_a_number_reads_back, lower, lower_spec, parse_spec, parse_unsigned, same_text,
    spells, trim, trim_spec,
};

verus! {

/// The names and values a run is given.
#[derive(Debug)]
pub struct Settings {
    pub entries: Vec<(String, String)>,
}

/// The value under a name in a list of names and values, the first where there
/// are several.
pub open spec fn value_in(entries: Seq<(String, String)>, name: Seq<char>) -> Option<Seq<char>>
    decreases entries.len(),
{
    if entries.len() == 0 {
        None
    } else {
        match value_in(entries.drop_last(), name) {
            Some(v) => Some(v),
            None => if entries.last().0@ == name {
                Some(entries.last().1@)
            } else {
                None
            },
        }
    }
}

impl Settings {
    /// The value under a name.
    pub open spec fn value(self, name: Seq<char>) -> Option<Seq<char>> {
        value_in(self.entries@, name)
    }

    /// No settings at all.
    pub fn empty() -> (r: Settings)
        ensures
            forall|name: Seq<char>| #[trigger] r.value(name) is None,
    {
        Settings { entries: Vec::new() }
    }

    /// The value under a name.
    pub fn get(&self, name: &str) -> (r: Option<&str>)
        ensures
            match r {
                Some(v) => self.value(name@) == Some(v@),
                None => self.value(name@) is None,
            },
    {
        let mut i: usize = 0;
        while i < self.entries.len()
            invariant
                i <= self.entries.len(),
                value_in(self.entries@.take(i as int), name@) is None,
            decreases self.entries.len() - i,
        {
            proof {
                assert(self.entries@.take(i + 1).drop_last() =~= self.entries@.take(i as int));
            }
            let found: bool = same_text(self.entries[i].0.as_str(), name);
            if found {
                proof {
                    lemma_prefix_decides(self.entries@, i + 1, name@);
                }
                return Some(self.entries[i].1.as_str());
            }
            i = i + 1;
        }
        assert(self.entries@.take(i as int) =~= self.entries@);
        None
    }

    /// Whether a name has a value.
    pub fn is_set(&self, name: &str) -> (r: bool)
        ensures
            r == (self.value(name@) is Some),
    {
        match self.get(name) {
            Some(_) => true,
            None => false,
        }
    }

    /// Gives a name a value unless it has one: what was set by hand stays.
    pub fn set_if_unset(&mut self, name: &str, value: &str)
        ensures
            old(self).value(name@) is Some ==> *final(self) == *old(self),
            old(self).value(name@) is None ==> final(self).value(name@) == Some(value@),
            forall|other: Seq<char>| other != name@ ==> #[trigger] final(self).value(other) == old(
                self,
            ).value(other),
    {
        if !self.is_set(name) {
            let ghost before = self.entries@;
            let n: String = String::from_str(name);
            let v: String = String::from_str(value);
            self.entries.push((n, v));
            proof {
                assert(self.entries@.drop_last() =~= before);
            }
        }
    }

    /// A switch that any value but `0` turns on.
    pub fn on(&self, name: &str, default: bool) -> (r: bool)
        ensures
            r == switch_on(self.value(name@), default),
    {
        match self.get(name) {
            None => default,
            Some(v) => !same_text(v, "0"),
        }
    }

    /// A switch that any value but `0` and `false`, in any case, turns on.
    pub fn enabled(&self, name: &str, default: bool) -> (r: bool)
        ensures
            r == switch_enabled(self.value(name@), default),
    {
        match self.get(name) {
            None => default,
            Some(v) => {
                let c: Vec<char> = chars_of(v);
                !spells(&c, "0") && !spells(&lower(&c), "false")
            },
        }
    }

    /// A number, or the default where there is none that can be read.
    pub fn number(&self, name: &str, default: usize) -> (r: usize)
        ensures
            r == number_or(self.value(name@), default),
    {
        match self.get(name) {
            None => default,
            Some(v) => match read_usize(&chars_of(v)) {
                Some(n) => n,
                None => default,
            },
        }
    }

    /// A text, or the default where the name has no value.
    pub fn text<'a>(&'a self, name: &str, default: &'a str) -> (r: &'a str)
        ensures
            r@ == (match self.value(name@) {
                Some(v) => v,
                None => default@,
            }),
    {
        match self.get(name) {
            None => default,
            Some(v) => v,
        }
    }
}

/// What a prefix of the list holds under a name, the list holds.
proof fn lemma_prefix_decides(entries: Seq<(String, String)>, n: int, name: Seq<char>)
    requires
        0 <= n <= entries.len(),
        value_in(entries.take(n), name) is Some,
    ensures
        value_in(entries, name) == value_in(entries.take(n), name),
    decreases entries.len(),
{
    if n < entries.len() {
        assert(entries.drop_last().take(n) =~= entries.take(n));
        lemma_prefix_decides(entries.drop_last(), n, name);
    } else {
        assert(entries.take(n) =~= entries);
    }
}

/// How a plain switch reads.
pub open spec fn switch_on(value: Option<Seq<char>>, default: bool) -> bool {
    match value {
        None => default,
        Some(v) => v != "0"@,
    }
}

/// How a switch reads that can be turned off in words.
pub open spec fn switch_enabled(value: Option<Seq<char>>, default: bool) -> bool {
    match value {
        None => default,
        Some(v) => v != "0"@ && lower_spec(v) != "false"@,
    }
}

/// The number a text writes, as far as it fits.
pub open spec fn usize_of(v: Seq<char>) -> Option<usize> {
    match parse_spec(v, usize::MAX as nat) {
        Some(n) => Some(n as usize),
        None => None,
    }
}

/// How a number reads.
pub open spec fn number_or(value: Option<Seq<char>>, default: usize) -> usize {
    match value {
        None => default,
        Some(v) => match usize_of(v) {
            Some(n) => n,
            None => default,
        },
    }
}

/// Reads a number that fits a `usize`.
pub fn read_usize(v: &Vec<char>) -> (r: Option<usize>)
    ensures
        r == usize_of(v@),
{
    match parse_unsigned(v, usize::MAX as u64) {
        Some(n) => Some(n as usize),
        None => None,
    }
}

/// A text cut at every separator. There is one piece more than separators.
pub open spec fn pieces(s: Seq<char>, sep: char) -> Seq<Seq<char>>
    decreases s.len(),
{
    if s.len() == 0 {
        seq![Seq::empty()]
    } else {
        let rest = pieces(s.drop_last(), sep);
        if s.last() == sep {
            rest.push(Seq::empty())
        } else {
            rest.update(rest.len() - 1, rest.last().push(s.last()))
        }
    }
}

/// The views of the pieces.
pub open spec fn texts(v: Seq<Vec<char>>) -> Seq<Seq<char>> {
    v.map_values(|p: Vec<char>| p@)
}

/// Cuts a text at every separator.
pub fn split(s: &Vec<char>, sep: char) -> (r: Vec<Vec<char>>)
    ensures
        texts(r@) == pieces(s@, sep),
        r@.len() >= 1,
{
    let mut done: Vec<Vec<char>> = Vec::new();
    let mut last: Vec<char> = Vec::new();
    let mut i: usize = 0;
    assert(s@.take(0) =~= Seq::empty());
    assert(texts(done@).push(last@) =~= seq![Seq::empty()]);
    while i < s.len()
        invariant
            i <= s.len(),
            texts(done@).push(last@) == pieces(s@.take(i as int), sep),
        decreases s.len() - i,
    {
        let ghost before = texts(done@).push(last@);
        proof {
            assert(s@.take(i + 1).drop_last() =~= s@.take(i as int));
            assert(before.len() - 1 == done@.len());
        }
        let c: char = s[i];
        if c == sep {
            let ghost d0 = done@;
            let ghost l0 = last@;
            done.push(last);
            last = Vec::new();
            assert(texts(done@) =~= texts(d0).push(l0));
            assert(texts(done@).push(last@) =~= before.push(Seq::empty()));
        } else {
            let ghost l0 = last@;
            last.push(c);
            assert(texts(done@).push(last@) =~= before.update(before.len() - 1, l0.push(c)));
        }
        i = i + 1;
    }
    assert(s@.take(s@.len() as int) =~= s@);
    let ghost d0 = done@;
    let ghost l0 = last@;
    done.push(last);
    assert(texts(done@) =~= texts(d0).push(l0));
    done
}

/// Where a character first stands in a text.
pub open spec fn first_of(s: Seq<char>, c: char) -> Option<int>
    decreases s.len(),
{
    if s.len() == 0 {
        None
    } else if s[0] == c {
        Some(0)
    } else {
        match first_of(s.drop_first(), c) {
            Some(i) => Some(i + 1),
            None => None,
        }
    }
}

/// Finds where a character first stands.
pub fn find_char(s: &Vec<char>, c: char) -> (r: Option<usize>)
    ensures
        match r {
            Some(i) => i < s@.len() && first_of(s@, c) == Some(i as int),
            None => first_of(s@, c) is None,
        },
{
    let mut i: usize = 0;
    assert(s@.skip(0) =~= s@);
    while i < s.len()
        invariant
            i <= s.len(),
            first_of(s@, c) == (match first_of(s@.skip(i as int), c) {
                Some(k) => Some(k + i),
                None => None,
            }),
        decreases s.len() - i,
    {
        assert(s@.skip(i as int).drop_first() =~= s@.skip(i + 1));
        if s[i] == c {
            return Some(i);
        }
        i = i + 1;
    }
    None
}

/// Whether one piece of a list of layers names a layer: a number, or two with a
/// dash between them for all from the one to the other.
pub open spec fn piece_names(piece: Seq<char>, layer: usize) -> bool {
    let p = trim_spec(piece);
    match first_of(p, '-') {
        Some(i) => match (usize_of(trim_spec(p.take(i))), usize_of(trim_spec(p.skip(i + 1)))) {
            (Some(lo), Some(hi)) => lo <= layer <= hi,
            _ => false,
        },
        None => usize_of(p) == Some(layer),
    }
}

/// Whether a list of layers names a layer.
pub open spec fn layers_name(spec: Seq<char>, layer: usize) -> bool {
    lower_spec(trim_spec(spec)) == "all"@ || exists|i: int|
        0 <= i < pieces(spec, ',').len() && #[trigger] piece_names(pieces(spec, ',')[i], layer)
}

/// A copy of part of a text.
fn part(s: &Vec<char>, from: usize, to: usize) -> (r: Vec<char>)
    requires
        from <= to <= s@.len(),
    ensures
        r@ == s@.subrange(from as int, to as int),
{
    let mut r: Vec<char> = Vec::new();
    let mut i: usize = from;
    while i < to
        invariant
            from <= i <= to <= s@.len(),
            r@ == s@.subrange(from as int, i as int),
        decreases to - i,
    {
        r.push(s[i]);
        i = i + 1;
        assert(r@ =~= s@.subrange(from as int, i as int));
    }
    r
}

/// Whether one piece of a list of layers names a layer.
fn piece_selects(piece: &Vec<char>, layer: usize) -> (r: bool)
    ensures
        r == piece_names(piece@, layer),
{
    let p: Vec<char> = trim(piece);
    match find_char(&p, '-') {
        Some(i) => {
            let lo: Vec<char> = part(&p, 0, i);
            let hi: Vec<char> = part(&p, i + 1, p.len());
            assert(lo@ =~= p@.take(i as int));
            assert(hi@ =~= p@.skip(i + 1));
            match (read_usize(&trim(&lo)), read_usize(&trim(&hi))) {
                (Some(lo), Some(hi)) => lo <= layer && layer <= hi,
                _ => false,
            }
        },
        None => match read_usize(&p) {
            Some(n) => n == layer,
            None => false,
        },
    }
}

/// Whether a list of layers names a layer: `all`, or pieces between commas.
pub fn layer_selected(spec: &str, layer: usize) -> (r: bool)
    ensures
        r == layers_name(spec@, layer),
{
    let s: Vec<char> = chars_of(spec);
    if spells(&lower(&trim(&s)), "all") {
        return true;
    }
    let cut: Vec<Vec<char>> = split(&s, ',');
    let ghost all = pieces(spec@, ',');
    let mut i: usize = 0;
    while i < cut.len()
        invariant
            i <= cut.len(),
            texts(cut@) == all,
            all == pieces(spec@, ','),
            lower_spec(trim_spec(spec@)) != "all"@,
            forall|j: int| 0 <= j < i ==> !#[trigger] piece_names(all[j], layer),
        decreases cut.len() - i,
    {
        assert(all[i as int] == cut@[i as int]@);
        if piece_selects(&cut[i], layer) {
            return true;
        }
        i = i + 1;
    }
    false
}

/// Whether a list of names holds a name: `all`, or the name between commas.
pub open spec fn scope_names(scope: Seq<char>, name: Seq<char>) -> bool {
    scope == "all"@ || exists|i: int|
        0 <= i < pieces(scope, ',').len() && #[trigger] trim_spec(pieces(scope, ',')[i]) == name
}

/// Whether a list of names holds a name.
pub fn name_selected(scope: &str, name: &str) -> (r: bool)
    ensures
        r == scope_names(scope@, name@),
{
    if same_text(scope, "all") {
        return true;
    }
    let s: Vec<char> = chars_of(scope);
    let cut: Vec<Vec<char>> = split(&s, ',');
    let ghost all = pieces(scope@, ',');
    let mut i: usize = 0;
    while i < cut.len()
        invariant
            i <= cut.len(),
            texts(cut@) == all,
            all == pieces(scope@, ','),
            scope@ != "all"@,
            forall|j: int| 0 <= j < i ==> #[trigger] trim_spec(all[j]) != name@,
        decreases cut.len() - i,
    {
        assert(all[i as int] == cut@[i as int]@);
        if spells(&trim(&cut[i]), name) {
            return true;
        }
        i = i + 1;
    }
    false
}

/// Of several entries of a name the first counts.
pub proof fn law_the_first_entry_counts(a: Seq<(String, String)>, b: Seq<(String, String)>, name: Seq<char>)
    ensures
        value_in(a + b, name) == (match value_in(a, name) {
            Some(v) => Some(v),
            None => value_in(b, name),
        }),
        b.len() == 1 && b[0].0@ == name ==> value_in(b, name) == Some(b[0].1@),
        b.len() == 1 && b[0].0@ != name ==> value_in(b, name) is None,
    decreases b.len(),
{
    if b.len() == 0 {
        assert(a + b =~= a);
    } else {
        law_the_first_entry_counts(a, b.drop_last(), name);
        assert((a + b).drop_last() =~= a + b.drop_last());
        assert((a + b).last() == b.last());
    }
    if b.len() == 1 {
        assert(b.drop_last() =~= Seq::empty());
        reveal_with_fuel(value_in, 2);
    }
}

/// A switch that is not set is as it is by default; set, it is off where it says zero and on where it says
/// anything else, but for one kind of switch that takes the word for no as well.
pub proof fn law_what_a_switch_says(v: Seq<char>, default: bool)
    ensures
        switch_on(None, default) == default,
        switch_enabled(None, default) == default,
        !switch_on(Some("0"@), default),
        !switch_enabled(Some("0"@), default),
        v.len() != 1 ==> switch_on(Some(v), default),
        v.len() == 1 && v[0] != '0' ==> switch_on(Some(v), default) && switch_enabled(
            Some(v),
            default,
        ),
        lower_spec(v) == "false"@ ==> !switch_enabled(Some(v), default),
        lower_spec(v) == "true"@ ==> switch_enabled(Some(v), default),
{
    reveal_strlit("0");
    reveal_strlit("false");
    reveal_strlit("true");
    if v.len() == 1 {
        assert(lower_spec(v).len() == 1);
    }
    if lower_spec(v) == "true"@ {
        assert(lower_spec(v).len() == v.len());
        assert(v.len() == 4);
        assert("true"@[0] == 't' && "false"@[0] == 'f');
    }
}

/// Pieces put together with a separator between each.
pub open spec fn put_together(v: Seq<Seq<char>>, sep: char) -> Seq<char>
    decreases v.len(),
{
    if v.len() == 0 {
        Seq::empty()
    } else if v.len() == 1 {
        v[0]
    } else {
        put_together(v.drop_last(), sep).push(sep) + v.last()
    }
}

/// The pieces of a text, put together with separators between them, are the text, and no piece holds one.
pub proof fn law_pieces_make_up_the_text(s: Seq<char>, sep: char)
    ensures
        pieces(s, sep).len() >= 1,
        put_together(pieces(s, sep), sep) == s,
        forall|i: int|
            0 <= i < pieces(s, sep).len() ==> !(#[trigger] pieces(s, sep)[i]).contains(sep),
    decreases s.len(),
{
    let all = pieces(s, sep);
    if s.len() == 0 {
        assert(all[0] =~= s);
    } else {
        let short = s.drop_last();
        law_pieces_make_up_the_text(short, sep);
        let rest = pieces(short, sep);
        let n = rest.len() - 1;
        if s.last() == sep {
            assert(all.drop_last() =~= rest);
            assert(put_together(all, sep) =~= s);
            assert forall|i: int| 0 <= i < all.len() implies !(#[trigger] all[i]).contains(sep) by {
                if i <= n {
                    assert(all[i] == rest[i]);
                }
            }
        } else {
            assert(all.drop_last() =~= rest.drop_last());
            let last = rest.last().push(s.last());
            assert(all.last() == last);
            if n > 0 {
                let front = put_together(rest.drop_last(), sep).push(sep);
                assert(short == front + rest.last());
                assert(put_together(all, sep) == front + last);
                assert(front + last =~= (front + rest.last()).push(s.last()));
            } else {
                assert(rest[0] == short);
                assert(all[0] == last);
            }
            assert(short.push(s.last()) =~= s);
            assert(put_together(all, sep) =~= s);
            assert forall|i: int| 0 <= i < all.len() implies !(#[trigger] all[i]).contains(sep) by {
                if i < n {
                    assert(all[i] == rest[i]);
                } else {
                    assert(!rest[n].contains(sep));
                    assert(all[i] == last);
                    if last.contains(sep) {
                        let k = choose|k: int| 0 <= k < last.len() && last[k] == sep;
                        assert(rest[n][k] == sep);
                    }
                }
            }
        }
    }
}

proof fn lemma_first_of(s: Seq<char>, c: char, k: int)
    requires
        0 <= k < s.len(),
        s[k] == c,
        forall|i: int| 0 <= i < k ==> #[trigger] s[i] != c,
    ensures
        first_of(s, c) == Some(k),
    decreases s.len(),
{
    if k > 0 {
        assert(s[0] != c);
        assert forall|i: int| 0 <= i < k - 1 implies #[trigger] s.drop_first()[i] != c by {
            assert(s[i + 1] != c);
        }
        lemma_first_of(s.drop_first(), c, k - 1);
    }
}

proof fn lemma_none_of(s: Seq<char>, c: char)
    requires
        forall|i: int| 0 <= i < s.len() ==> #[trigger] s[i] != c,
    ensures
        first_of(s, c) is None,
    decreases s.len(),
{
    if s.len() > 0 {
        assert(s[0] != c);
        assert forall|i: int| 0 <= i < s.drop_first().len() implies #[trigger] s.drop_first()[i] != c by {
            assert(s[i + 1] != c);
        }
        lemma_none_of(s.drop_first(), c);
    }
}

proof fn lemma_digits_are_trimmed(s: Seq<char>)
    requires
        s.len() > 0,
        crate::text::is_digit(s[0]),
        crate::text::is_digit(s.last()),
    ensures
        trim_spec(s) == s,
{
}

/// A number names the layer of that number, and two with a dash between them every layer from the one to
/// the other, both of them with it.
pub proof fn law_numbers_and_ranges_name_layers(lo: usize, hi: usize, layer: usize)
    ensures
        piece_names(decimal(lo as nat), layer) <==> layer == lo,
        piece_names(decimal(lo as nat) + seq!['-'] + decimal(hi as nat), layer) <==> lo <= layer <= hi,
{
    law_a_number_reads_back(lo as nat, usize::MAX as nat);
    law_a_number_reads_back(hi as nat, usize::MAX as nat);
    let (a, b) = (decimal(lo as nat), decimal(hi as nat));
    assert(crate::text::is_digit(a[0]) && crate::text::is_digit(a[a.len() - 1]));
    assert(crate::text::is_digit(b[0]) && crate::text::is_digit(b[b.len() - 1]));
    lemma_digits_are_trimmed(a);
    lemma_digits_are_trimmed(b);
    assert forall|i: int| 0 <= i < a.len() implies #[trigger] a[i] != '-' by {
        assert(crate::text::is_digit(a[i]));
    }
    lemma_none_of(a, '-');
    let s = a + seq!['-'] + b;
    assert(s[0] == a[0] && s.last() == b.last());
    lemma_digits_are_trimmed(s);
    assert forall|i: int| 0 <= i < a.len() implies #[trigger] s[i] != '-' by {
        assert(s[i] == a[i]);
    }
    assert(s[a.len() as int] == '-');
    lemma_first_of(s, '-', a.len() as int);
    assert(s.take(a.len() as int) =~= a);
    assert(s.skip(a.len() as int + 1) =~= b);
}

/// A scope of all names everything; any other names what stands between its commas.
pub proof fn law_what_a_scope_names(scope: Seq<char>, name: Seq<char>, i: int)
    ensures
        scope_names("all"@, name),
        0 <= i < pieces(scope, ',').len() && trim_spec(pieces(scope, ',')[i]) == name ==> scope_names(
            scope,
            name,
        ),
        scope != "all"@ && scope_names(scope, name) ==> exists|k: int|
            0 <= k < pieces(scope, ',').len() && trim_spec(#[trigger] pieces(scope, ',')[k]) == name,
{
    if 0 <= i < pieces(scope, ',').len() && trim_spec(pieces(scope, ',')[i]) == name {
        assert(trim_spec(pieces(scope, ',')[i]) == name);
    }
}

} // verus!
