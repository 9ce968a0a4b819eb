//! How the files of a trace are laid out, and which layers are traced.

use vstd::prelude::*;

use crate::bytes::{law_le_round_trip, le, le_bytes, lemma_bases, lemma_le_bytes_len, lemma_le_same};
use crate::edge0_train_trace::{
    fixed_route, header_check, header_spec, trace_k_spec, trace_magic, TraceFault, TraceView,
};

verus! {

/// The header of a trace: eight letters, its version, its layer, the sizes of the model and of a route, its
/// own length, the length of a record, and nothing in the last four of its thirty-two bytes.
pub proof fn law_where_a_trace_header_has_its_numbers(owner: int, hidden: int, experts: int, k: int, record: u32)
    requires
        0 <= owner < 65536,
        0 <= hidden < 65536,
        0 <= experts < 65536,
        0 <= k < 65536,
    ensures
        ({
            let h = header_spec(owner, hidden, experts, k, record);
            &&& h.len() == 32
            &&& h[0] as char == 'E' && h[1] as char == '0' && h[2] as char == 'T' && h[3] as char == 'R'
            &&& h[4] as char == 'C' && h[5] as char == '0' && h[6] as char == '0' && h[7] as char == '1'
            &&& le(h, 8, 4) == 1
            &&& le(h, 12, 2) == owner
            &&& le(h, 14, 2) == hidden
            &&& le(h, 16, 2) == experts
            &&& le(h, 18, 2) == k
            &&& le(h, 20, 4) == 32
            &&& le(h, 24, 4) == record
            &&& le(h, 28, 4) == 0
        }),
{
    lemma_bases();
    let h = header_spec(owner, hidden, experts, k, record);
    let parts = (
        le_bytes(1, 4),
        le_bytes(owner as nat, 2),
        le_bytes(hidden as nat, 2),
        le_bytes(experts as nat, 2),
        le_bytes(k as nat, 2),
        le_bytes(32, 4),
        le_bytes(record as nat, 4),
        le_bytes(0, 4),
    );
    lemma_le_bytes_len(1, 4);
    lemma_le_bytes_len(owner as nat, 2);
    lemma_le_bytes_len(hidden as nat, 2);
    lemma_le_bytes_len(experts as nat, 2);
    lemma_le_bytes_len(k as nat, 2);
    lemma_le_bytes_len(32, 4);
    lemma_le_bytes_len(record as nat, 4);
    lemma_le_bytes_len(0, 4);
    assert(owner % 65536 == owner && hidden % 65536 == hidden);
    assert(experts % 65536 == experts && k % 65536 == k);
    assert(trace_magic().len() == 8);
    lemma_part(h, 8, parts.0, 1, 4);
    lemma_part(h, 12, parts.1, owner as nat, 2);
    lemma_part(h, 14, parts.2, hidden as nat, 2);
    lemma_part(h, 16, parts.3, experts as nat, 2);
    lemma_part(h, 18, parts.4, k as nat, 2);
    lemma_part(h, 20, parts.5, 32, 4);
    lemma_part(h, 24, parts.6, record as nat, 4);
    lemma_part(h, 28, parts.7, 0, 4);
    assert(forall|i: int| 0 <= i < 8 ==> #[trigger] h[i] == trace_magic()[i]);
}

proof fn lemma_part(h: Seq<u8>, p: int, part: Seq<u8>, v: nat, w: nat)
    requires
        0 <= p,
        p + w <= h.len(),
        part == le_bytes(v, w),
        part.len() == w,
        v < crate::bytes::base(w),
        forall|i: int| 0 <= i < w ==> #[trigger] h[p + i] == part[0 + i],
    ensures
        le(h, p, w) == v,
{
    law_le_round_trip(v, w);
    lemma_le_same(h, p, part, 0, w);
}

/// A trace is gone on with only where its header says what would be written.
pub proof fn law_a_trace_is_gone_on_with_where_it_fits(
    raw: Seq<u8>,
    owner: usize,
    hidden: usize,
    experts: usize,
    k: usize,
    record: u32,
)
    requires
        header_check(raw, owner, hidden, experts, k, record) is Ok,
    ensures
        raw.len() >= 32,
        raw[0] as char == 'E' && raw[1] as char == '0' && raw[7] as char == '1',
        le(raw, 8, 4) as u32 == 1,
        le(raw, 12, 2) as usize == owner,
        le(raw, 14, 2) as usize == hidden,
        le(raw, 16, 2) as usize == experts,
        le(raw, 18, 2) as usize == k,
        le(raw, 20, 4) as u32 == 32,
        le(raw, 24, 4) as u32 == record,
{
    assert(raw.take(8)[0] == raw[0] && raw.take(8)[1] == raw[1] && raw.take(8)[7] == raw[7]);
}

/// A route in a record has as many places as are traced: the experts in order, and in a place without one,
/// or with one that has no number of two bytes, the number that stands for none.
pub proof fn law_places_of_a_route(route: Seq<usize>, k: nat, i: int)
    requires
        0 <= i < k,
    ensures
        fixed_route(route, k).len() == k,
        i < route.len() && route[i] < 0xffff ==> fixed_route(route, k)[i] == route[i],
        i < route.len() && route[i] >= 0xffff ==> fixed_route(route, k)[i] == 0xffff,
        i >= route.len() ==> fixed_route(route, k)[i] == 0xffff,
{
}

/// Only one geometry is traced, with four experts of a route unless another number is asked for that is
/// not zero and not above the experts there are.
pub proof fn law_what_can_be_traced(layers: usize, hidden: usize, experts: usize)
    ensures
        trace_k_spec(layers, hidden, experts, None) is Ok <==> layers == 40 && hidden == 2048 && experts == 256,
        layers == 40 && hidden == 2048 && experts == 256 ==> trace_k_spec(layers, hidden, experts, None)
            == Ok::<usize, TraceFault>(4),
{
}

/// A number of experts that is asked for is taken where it is one, not zero, and not above all there are.
pub proof fn law_how_many_experts_are_traced(value: &str, n: nat)
    requires
        value@ == crate::text::decimal(n),
    ensures
        1 <= n <= 256 ==> trace_k_spec(40, 2048, 256, Some(value)) == Ok::<usize, TraceFault>(n as usize),
        n == 0 || n > 256 ==> trace_k_spec(40, 2048, 256, Some(value)) is Err,
{
    crate::text::law_a_number_reads_back(n, usize::MAX as nat);
}

/// Layers six to thirty-seven leave what they saw for the layer behind them; layers seven to thirty-eight
/// complete it.
pub proof fn law_which_layers_are_traced(
    t: TraceView,
    layer: int,
    hidden: Seq<u32>,
    executed: Seq<usize>,
    weights: Seq<u16>,
    other: int,
)
    requires
        t.wf(),
        t.active,
        0 <= layer < t.next.len(),
        0 <= other < t.next.len(),
    ensures
        t.completes(layer) <==> 7 <= layer <= 38,
        ({
            let u = t.observed(layer, hidden, executed, weights);
            &&& other != layer + 1 || !(6 <= layer <= 37) ==> u.next[other] == t.next[other]
            &&& 6 <= layer <= 37 ==> u.next[layer + 1] is Some && (u.next[layer + 1]->0).generation
                == t.generation
            &&& 7 <= layer <= 38 ==> u.current[layer] is None
            &&& other != layer ==> u.current[other] == t.current[other]
            &&& other != layer ==> u.previous_routes[other] == t.previous_routes[other]
            &&& u.previous_routes[layer] == executed
            &&& u.samples == t.samples || t.sample(layer, executed, weights) is Some
            &&& t.samples < u64::MAX && t.sample(layer, executed, weights) is Some ==> u.samples
                == t.samples + 1
        }),
{
}

/// With a token what was left for the layers behind becomes what they complete, and with a request all of
/// it is forgotten.
pub proof fn law_what_a_token_does_to_a_trace(t: TraceView, l: int)
    requires
        t.wf(),
        0 <= l < t.current.len(),
    ensures
        t.active ==> t.begin_token().current == t.next && t.begin_token().next[l] is None,
        t.active && t.generation < u64::MAX ==> t.begin_token().generation == t.generation + 1,
        !t.active ==> t.begin_token() == t,
        t.begin_decode().active && t.begin_decode().generation == 0,
        t.begin_decode().current[l] is None && t.begin_decode().next[l] is None,
        t.begin_decode().previous_routes[l].len() == 0,
        t.begin_decode().samples == t.samples && t.begin_decode().run_id == t.run_id,
{
}

/// What is observed has to be as wide as what is traced: the route first and then the state; nothing is
/// wrong where nothing is traced.
pub proof fn law_what_is_observed_has_to_fit(t: TraceView, layer: usize, hidden: int, ids: int, weights: int)
    ensures
        !t.active ==> t.fault(layer, hidden, ids, weights) is None,
        t.active ==> {
            &&& t.fault(layer, hidden, ids, weights) is None <==> ids == t.k && weights == t.k && hidden
                == t.hidden
            &&& t.fault(layer, hidden, ids, weights) matches Some(f) ==> (f is RouteWidth <==> ids != t.k
                || weights != t.k)
        },
{
}

} // verus!
