//! The settings that a run is given where nothing was set by hand.

use vstd::prelude::*;

use crate::settings::Settings;

verus! {

/// The names and values that a list of defaults gives.
pub open spec fn default_in(list: Seq<(Seq<char>, Seq<char>)>, name: Seq<char>) -> Option<Seq<char>>
    decreases list.len(),
{
    if list.len() == 0 {
        None
    } else {
        match default_in(list.drop_last(), name) {
            Some(v) => Some(v),
            None => if list.last().0 == name {
                Some(list.last().1)
            } else {
                None
            },
        }
    }
}

/// What the settings hold under a name once defaults have been given: what was set by
/// hand, else the default.
pub open spec fn defaulted(
    value: Option<Seq<char>>,
    list: Seq<(Seq<char>, Seq<char>)>,
    name: Seq<char>,
) -> Option<Seq<char>> {
    match value {
        Some(v) => Some(v),
        None => default_in(list, name),
    }
}

/// What every run is given for speed.
pub open spec fn fast_everywhere() -> Seq<(Seq<char>, Seq<char>)> {
    seq![
        ("QWEN_GDN_SINGLE_COPY"@, "1"@),
        ("QWEN_ATTN_METAL"@, "1"@),
        ("QWEN_QSA_INDEX_METAL"@, "1"@),
        ("QWEN_APPLE8_DIRECT"@, "1"@),
        ("QWEN_APPLE8_OVERLAP"@, "1"@),
        ("QWEN_SHARED_IO_OVERLAP"@, "1"@),
        ("QWEN_PREFIX_CACHE"@, "1"@),
        ("QWEN_PREFIX_CACHE_WRITE"@, "1"@),
    ]
}

/// What a run is given for speed.
pub open spec fn fast_defaults(on_apple: bool) -> Seq<(Seq<char>, Seq<char>)> {
    if on_apple {
        fast_everywhere().push(("QWEN_BNNS_BF16"@, "1"@)).push(("QWEN_GDN_METAL"@, "0"@))
    } else {
        fast_everywhere()
    }
}

/// What the command-line program is given.
pub open spec fn runtime_defaults(on_apple: bool) -> Seq<(Seq<char>, Seq<char>)> {
    if on_apple {
        seq![
            ("QWEN_BNNS_BF16"@, "1"@),
            ("QWEN_GDN_MXFP4_FULL"@, "1"@),
            ("QWEN_SHARED_MXFP4_FULL"@, "1"@),
            ("QWEN_GDN_METAL"@, "0"@),
        ]
    } else {
        Seq::empty()
    }
}

/// The views of a list of defaults.
pub open spec fn names_values(list: Seq<(&str, &str)>) -> Seq<(Seq<char>, Seq<char>)> {
    list.map_values(|p: (&str, &str)| (p.0@, p.1@))
}

/// Gives every name of a list its default, unless it has a value.
fn give(settings: &mut Settings, list: &Vec<(&str, &str)>)
    ensures
        forall|name: Seq<char>| #[trigger]
            final(settings).value(name) == defaulted(
                old(settings).value(name),
                names_values(list@),
                name,
            ),
{
    let ghost all = names_values(list@);
    let ghost start = *settings;
    let mut i: usize = 0;
    while i < list.len()
        invariant
            i <= list.len(),
            all == names_values(list@),
            start == *old(settings),
            forall|name: Seq<char>| #[trigger]
                settings.value(name) == defaulted(start.value(name), all.take(i as int), name),
        decreases list.len() - i,
    {
        let ghost before = *settings;
        let (name, value) = list[i];
        settings.set_if_unset(name, value);
        proof {
            assert(all.take(i + 1).drop_last() =~= all.take(i as int));
            assert(all.take(i + 1).last() == (name@, value@));
            assert forall|n: Seq<char>| #[trigger]
                settings.value(n) == defaulted(start.value(n), all.take(i + 1), n) by {
                assert(before.value(n) == defaulted(start.value(n), all.take(i as int), n));
            }
        }
        i = i + 1;
    }
    assert(all.take(i as int) =~= all);
}

/// Gives a run what makes it fast, wherever nothing was set by hand.
pub fn apply_max_performance_defaults(settings: &mut Settings, on_apple: bool)
    ensures
        forall|name: Seq<char>| #[trigger]
            final(settings).value(name) == defaulted(
                old(settings).value(name),
                fast_defaults(on_apple),
                name,
            ),
{
    let mut list: Vec<(&str, &str)> = vec![
        ("QWEN_GDN_SINGLE_COPY", "1"),
        ("QWEN_ATTN_METAL", "1"),
        ("QWEN_QSA_INDEX_METAL", "1"),
        ("QWEN_APPLE8_DIRECT", "1"),
        ("QWEN_APPLE8_OVERLAP", "1"),
        ("QWEN_SHARED_IO_OVERLAP", "1"),
        ("QWEN_PREFIX_CACHE", "1"),
        ("QWEN_PREFIX_CACHE_WRITE", "1"),
    ];
    if on_apple {
        list.push(("QWEN_BNNS_BF16", "1"));
        list.push(("QWEN_GDN_METAL", "0"));
    }
    assert(names_values(list@) =~= fast_defaults(on_apple));
    give(settings, &list);
}

/// Gives the command-line program what it runs with, wherever nothing was set by hand.
pub fn apply_apple_runtime_defaults(settings: &mut Settings, on_apple: bool)
    ensures
        forall|name: Seq<char>| #[trigger]
            final(settings).value(name) == defaulted(
                old(settings).value(name),
                runtime_defaults(on_apple),
                name,
            ),
{
    if on_apple {
        let list: Vec<(&str, &str)> = vec![
            ("QWEN_BNNS_BF16", "1"),
            ("QWEN_GDN_MXFP4_FULL", "1"),
            ("QWEN_SHARED_MXFP4_FULL", "1"),
            ("QWEN_GDN_METAL", "0"),
        ];
        assert(names_values(list@) =~= runtime_defaults(on_apple));
        give(settings, &list);
    }
}

/// What was set by hand stays, whatever the defaults are.
pub proof fn law_what_was_set_stays(
    value: Seq<char>,
    list: Seq<(Seq<char>, Seq<char>)>,
    name: Seq<char>,
)
    ensures
        defaulted(Some(value), list, name) == Some(value),
{
}

/// Giving defaults twice is giving them once.
pub proof fn law_defaults_are_given_once(
    value: Option<Seq<char>>,
    list: Seq<(Seq<char>, Seq<char>)>,
    name: Seq<char>,
)
    ensures
        defaulted(defaulted(value, list, name), list, name) == defaulted(value, list, name),
{
}

/// The first default of a name is the one that is given.
pub proof fn law_the_first_default_counts(
    list: Seq<(Seq<char>, Seq<char>)>,
    more: Seq<(Seq<char>, Seq<char>)>,
    name: Seq<char>,
    value: Seq<char>,
)
    ensures
        default_in(list, name) is None ==> defaulted(None, list.push((name, value)) + more, name) == Some(
            value,
        ),
    decreases more.len(),
{
    let front = list.push((name, value));
    if more.len() == 0 {
        assert(front + more =~= front);
        assert(front.drop_last() =~= list);
    } else {
        law_the_first_default_counts(list, more.drop_last(), name, value);
        assert((front + more).drop_last() =~= front + more.drop_last());
    }
}

/// What is switched on for speed where nothing else was said, and what only on Apple machines.
pub proof fn law_what_is_switched_on_for_speed(on_apple: bool)
    ensures
        fast_defaults(on_apple).len() == (if on_apple {
            10int
        } else {
            8
        }),
        fast_defaults(on_apple).contains(("QWEN_GDN_SINGLE_COPY"@, "1"@)),
        fast_defaults(on_apple).contains(("QWEN_ATTN_METAL"@, "1"@)),
        fast_defaults(on_apple).contains(("QWEN_QSA_INDEX_METAL"@, "1"@)),
        fast_defaults(on_apple).contains(("QWEN_APPLE8_DIRECT"@, "1"@)),
        fast_defaults(on_apple).contains(("QWEN_APPLE8_OVERLAP"@, "1"@)),
        fast_defaults(on_apple).contains(("QWEN_SHARED_IO_OVERLAP"@, "1"@)),
        fast_defaults(on_apple).contains(("QWEN_PREFIX_CACHE"@, "1"@)),
        fast_defaults(on_apple).contains(("QWEN_PREFIX_CACHE_WRITE"@, "1"@)),
        on_apple ==> fast_defaults(true).contains(("QWEN_BNNS_BF16"@, "1"@)),
        on_apple ==> fast_defaults(true).contains(("QWEN_GDN_METAL"@, "0"@)),
        runtime_defaults(true).len() == 4 && runtime_defaults(false).len() == 0,
        runtime_defaults(true).contains(("QWEN_BNNS_BF16"@, "1"@)),
        runtime_defaults(true).contains(("QWEN_GDN_MXFP4_FULL"@, "1"@)),
        runtime_defaults(true).contains(("QWEN_SHARED_MXFP4_FULL"@, "1"@)),
        runtime_defaults(true).contains(("QWEN_GDN_METAL"@, "0"@)),
{
    let f = fast_defaults(on_apple);
    assert(f[0] == ("QWEN_GDN_SINGLE_COPY"@, "1"@));
    assert(f[1] == ("QWEN_ATTN_METAL"@, "1"@));
    assert(f[2] == ("QWEN_QSA_INDEX_METAL"@, "1"@));
    assert(f[3] == ("QWEN_APPLE8_DIRECT"@, "1"@));
    assert(f[4] == ("QWEN_APPLE8_OVERLAP"@, "1"@));
    assert(f[5] == ("QWEN_SHARED_IO_OVERLAP"@, "1"@));
    assert(f[6] == ("QWEN_PREFIX_CACHE"@, "1"@));
    assert(f[7] == ("QWEN_PREFIX_CACHE_WRITE"@, "1"@));
    if on_apple {
        assert(f[8] == ("QWEN_BNNS_BF16"@, "1"@));
        assert(f[9] == ("QWEN_GDN_METAL"@, "0"@));
    }
    let r = runtime_defaults(true);
    assert(r[0] == ("QWEN_BNNS_BF16"@, "1"@));
    assert(r[1] == ("QWEN_GDN_MXFP4_FULL"@, "1"@));
    assert(r[2] == ("QWEN_SHARED_MXFP4_FULL"@, "1"@));
    assert(r[3] == ("QWEN_GDN_METAL"@, "0"@));
}

} // verus!
