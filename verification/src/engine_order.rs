//! The order of work of the neural engine, what is written to its surfaces and read from them, and when a
//! layer is taken from it again.

use vstd::prelude::*;

use crate::bytes::{law_le_round_trip, le, le_bytes, lemma_bases, lemma_le_bytes_len, lemma_le_same};
use crate::gdn_ane::{
    asked_for, below, brain_at, brain_is_finite, cache_dir_of, column_at, conv_fault, flight_after, fuses,
    halves_of, linking, mode_of, packed_after, retire_score_of, spread, with_history, ConvFault,
    FlightStage, GdnAneLayer, GdnAneState, LayerBuild, NarrowFault, PackedLink, PackedStage, SubmitStage,
};
use crate::settings::{switch_enabled, Settings};
use crate::text::decimal;

verus! {

/// A number is written sixteen times side by side, and read from the first place of its row.
pub proof fn law_every_number_fills_its_row(x: Seq<u32>, i: int, k: int)
    requires
        0 <= i < x.len(),
        0 <= k < 16,
    ensures
        spread(x).len() == 64 * x.len(),
        le(spread(x), 64 * i + 4 * k, 4) == x[i],
        column_at(spread(x), i) == x[i],
{
    let p = 64 * i + 4 * k;
    lemma_number_at(spread(x), p, x[i]);
    lemma_number_at(spread(x), 64 * i, x[i]);
}

proof fn lemma_number_at(b: Seq<u8>, p: int, v: u32)
    requires
        0 <= p,
        p + 4 <= b.len(),
        forall|j: int| 0 <= j < 4 ==> #[trigger] b[p + j] == le_bytes(v as nat, 4)[0 + j],
    ensures
        le(b, p, 4) == v,
{
    lemma_bases();
    lemma_le_bytes_len(v as nat, 4);
    law_le_round_trip(v as nat, 4);
    lemma_le_same(b, p, le_bytes(v as nat, 4), 0, 4);
}

/// The samples that came before stand at the beginning of each row, in their order; the rest of the surface
/// stays as it was.
pub proof fn law_samples_stand_at_the_beginning_of_their_row(
    surface: Seq<u8>,
    state: Seq<u32>,
    rows: int,
    history: int,
    row: int,
    k: int,
    j: int,
)
    requires
        0 <= history < 16,
        0 <= rows,
        rows * 64 <= surface.len(),
        0 <= row < rows,
        0 <= k < 16,
        0 <= j < 4,
    ensures
        k < history ==> le(with_history(surface, state, rows, history), 64 * row + 4 * k, 4) == state[row
            * history + k],
        k >= history ==> with_history(surface, state, rows, history)[64 * row + 4 * k + j] == surface[64 * row
            + 4 * k + j],
        with_history(surface, state, rows, history).len() == surface.len(),
{
    let b = with_history(surface, state, rows, history);
    let p = 64 * row + 4 * k;
    assert(p / 64 == row && (p % 64) / 4 == k);
    assert((p + j) / 64 == row && ((p + j) % 64) / 4 == k);
    if k < history {
        assert forall|n: int| 0 <= n < 4 implies #[trigger] b[p + n] == le_bytes(
            state[row * history + k] as nat,
            4,
        )[0 + n] by {
            assert((p + n) / 64 == row && ((p + n) % 64) / 4 == k && (p + n) % 4 == n);
        }
        lemma_number_at(b, p, state[row * history + k]);
    }
}

/// Weights of two bytes, the lower first, are narrowed one by one, and none of them may be without end or
/// no number at all: such a one has all eight bits of its exponent set.
pub proof fn law_weights_are_narrowed_one_by_one(bytes: Seq<u8>, i: int)
    requires
        0 <= i < bytes.len() / 2,
    ensures
        bytes.len() % 2 == 1 ==> halves_of(bytes) == Err::<Seq<u16>, NarrowFault>(NarrowFault::OddBytes),
        bytes.len() % 2 == 0 && bytes[2 * i + 1] as int % 128 == 127 && bytes[2 * i] >= 128 ==> halves_of(bytes)
            == Err::<Seq<u16>, NarrowFault>(NarrowFault::NotFinite),
        halves_of(bytes) matches Ok(v) ==> {
            &&& v.len() * 2 == bytes.len()
            &&& v[i] == crate::floatbits::single_to_half(
                (65536 * bytes[2 * i] + 16777216 * bytes[2 * i + 1]) as u32,
            ) as u16
            &&& !(bytes[2 * i + 1] as int % 128 == 127 && bytes[2 * i] >= 128)
        },
{
    let b = brain_at(bytes, i);
    let (lo, hi) = (bytes[2 * i] as int, bytes[2 * i + 1] as int);
    assert(b / 128 == 2 * hi + lo / 128);
    assert(brain_is_finite(b) <==> !(hi % 128 == 127 && lo >= 128));
}

/// A layer is asked for on an Apple machine alone, where the engine is switched on, and then only layer
/// zero unless layers are named.
pub proof fn law_which_layers_are_asked_for(s: Settings, on_apple: bool, layer: usize)
    ensures
        !on_apple ==> !asked_for(s, on_apple, layer),
        !switch_enabled(s.value("QWEN_GDN_ANE"@), false) ==> !asked_for(s, on_apple, layer),
        on_apple && switch_enabled(s.value("QWEN_GDN_ANE"@), false) ==> {
            &&& s.value("QWEN_GDN_ANE_LAYERS"@) is None ==> asked_for(s, true, layer)
                == crate::settings::layers_name("0"@, layer)
            &&& s.value("QWEN_GDN_ANE_LAYERS"@) matches Some(v) ==> asked_for(s, true, layer)
                == crate::settings::layers_name(v, layer)
        },
        s.value("QWEN_GDN_ANE"@) is None ==> !asked_for(s, on_apple, layer),
{
}

/// How work is handed over: as real time work where that is asked for, else directly where that is, else
/// in the plain way.
pub proof fn law_how_work_is_handed_over(s: Settings)
    ensures
        mode_of(s) <= 2,
        mode_of(s) == 2 <==> switch_enabled(s.value("QWEN_GDN_ANE_ASYNC_REALTIME"@), false),
        mode_of(s) == 0 <==> !switch_enabled(s.value("QWEN_GDN_ANE_ASYNC_REALTIME"@), false)
            && !switch_enabled(s.value("QWEN_GDN_ANE_ASYNC_DIRECT"@), false),
{
}

/// Where compiled programs are kept: where it is said, else below the cache, else below the home directory,
/// and nowhere where that is wanted; one slash stands between a directory and what is below it.
pub proof fn law_where_programs_are_kept(s: Settings, dir: Seq<char>, rest: Seq<char>)
    ensures
        switch_enabled(s.value("LOGAN_ANE_NOCACHE"@), false) ==> cache_dir_of(s) is None,
        !switch_enabled(s.value("LOGAN_ANE_NOCACHE"@), false) ==> {
            &&& s.value("LOGAN_ANE_CACHE_DIR"@) matches Some(d) ==> cache_dir_of(s) == Some(d)
            &&& s.value("LOGAN_ANE_CACHE_DIR"@) is None ==> (s.value("XDG_CACHE_HOME"@) matches Some(d)
                ==> cache_dir_of(s) == Some(below(d, "logan/ane"@)))
            &&& s.value("LOGAN_ANE_CACHE_DIR"@) is None && s.value("XDG_CACHE_HOME"@) is None ==> (s.value(
                "HOME"@,
            ) matches Some(d) ==> cache_dir_of(s) == Some(below(d, ".cache/logan/ane"@)))
        },
        dir.len() > 0 && dir.last() != '/' ==> below(dir, rest) == dir + seq!['/'] + rest,
        below(dir.push('/'), rest) == dir + seq!['/'] + rest,
        below(Seq::empty(), rest) == rest,
{
    assert(dir.push('/') =~= dir + seq!['/']);
}

/// A layer is built stage by stage: its program, the runtime, compiling and loading it, its surfaces, and
/// where it has a convolution the surface, the import and the kernel of that; a layer that is not to stay is
/// unloaded at the end.
pub proof fn law_a_layer_is_built_stage_by_stage(b: LayerBuild)
    ensures
        b.stage is Program ==> b.after(true).stage is Runtime,
        b.stage is Runtime ==> b.after(true).stage is Compile,
        b.stage is Compile ==> b.after(true).stage is Load,
        b.stage is Load ==> b.after(true).stage is Surfaces && b.after(true).loaded,
        b.stage is Surfaces && b.wants_conv ==> b.after(true).stage is ConvSurface,
        b.stage is ConvSurface ==> b.after(true).stage is Import,
        b.stage is Import ==> b.after(true).stage is Kernel,
        b.stage is Kernel ==> b.after(true).fused,
        b.stage is Kernel || b.stage is Import ==> !b.after(false).fused,
        (b.stage is Kernel || b.stage is Surfaces && !b.wants_conv) && b.ephemeral ==> b.after(true).stage
            is Unload,
        (b.stage is Kernel || b.stage is Surfaces && !b.wants_conv) && !b.ephemeral ==> b.after(true).stage
            is Ready,
        b.stage is Unload ==> b.after(true).stage is Ready && !b.after(true).loaded,
        b.stage is Program || b.stage is Runtime || b.stage is Compile || b.stage is Load || b.stage
            is Surfaces || b.stage is ConvSurface || b.stage is Unload ==> b.after(false).stage is Failed,
{
}

/// A request goes through its stages in order: the layer is loaded if it is not, the input is written, the
/// event is advanced or made, a channel is opened if there is none, and the request is submitted.
pub proof fn law_a_request_goes_stage_by_stage(l: GdnAneLayer, v: u64, w: u64)
    ensures
        !l.gpu_tail ==> l.first_stage() is Declined,
        l.gpu_tail && !l.loaded ==> l.first_stage() is Load,
        l.gpu_tail && l.loaded ==> l.first_stage() is Write,
        l.after(SubmitStage::Load, Some(v)).1 is Write && l.after(SubmitStage::Load, Some(v)).0.loaded,
        l.fence is Some ==> l.after(SubmitStage::Write, Some(v)).1 is Advance,
        l.fence is None ==> l.after(SubmitStage::Write, Some(v)).1 is MakeFence,
        l.channel ==> l.after(SubmitStage::Advance, Some(v)).1 == SubmitStage::Submit(v),
        !l.channel ==> l.after(SubmitStage::Advance, Some(v)).1 == SubmitStage::Open(v),
        l.channel ==> l.after(SubmitStage::MakeFence, Some(v)).1 == SubmitStage::Submit(1),
        !l.channel ==> l.after(SubmitStage::MakeFence, Some(v)).1 == SubmitStage::Open(1),
        l.after(SubmitStage::Open(w), Some(v)).1 == SubmitStage::Submit(w),
        l.after(SubmitStage::Open(w), Some(v)).0.channel,
        l.after(SubmitStage::Submit(w), Some(v)) == (l, SubmitStage::Pending(w)),
        forall|stage: SubmitStage|
            !(stage is Pending) ==> #[trigger] l.after(stage, None) == (l, SubmitStage::Declined),
{
}

/// A packed evaluation goes through its stages in order: packed by the device where it can be, else by the
/// host part by part, then requested and evaluated, the first projection before the others.
pub proof fn law_a_packed_evaluation_goes_stage_by_stage()
    ensures
        packed_after(PackedStage::Import, true) is MakePacker,
        packed_after(PackedStage::MakePacker, true) is RunPacker,
        packed_after(PackedStage::RunPacker, true) is RequestQkv,
        packed_after(PackedStage::PackQkv, true) is PackZ,
        packed_after(PackedStage::PackZ, true) is PackA,
        packed_after(PackedStage::PackA, true) is PackB,
        packed_after(PackedStage::PackB, true) is WriteQkv,
        packed_after(PackedStage::WriteQkv, true) is WriteAux,
        packed_after(PackedStage::WriteAux, true) is RequestQkv,
        packed_after(PackedStage::RequestQkv, true) is RequestAux,
        packed_after(PackedStage::RequestAux, true) is EvaluateQkv,
        packed_after(PackedStage::EvaluateQkv, true) is EvaluateAux,
        packed_after(PackedStage::EvaluateAux, true) is Done,
        forall|s: PackedStage|
            !(s is Import || s is MakePacker || s is RunPacker || s is Done || s is WrongWidth) ==> (
            #[trigger] packed_after(s, false)) is Failed,
{
}

/// A flight goes through its stages in order: what is missing is made first, then the packing begins, and
/// each of the two requests is submitted behind what comes before it.
pub proof fn law_a_flight_goes_stage_by_stage(l: PackedLink, p: u64, q: u64, a: u64, v: u64)
    ensures
        flight_after(l, FlightStage::ImportQkv, Some(v)) == (l, FlightStage::ImportAux),
        flight_after(l, FlightStage::ImportAux, Some(v)) == (l, FlightStage::MakePacker),
        flight_after(l, FlightStage::MakePacker, Some(v)) == (l, linking(l)),
        l.fence is None ==> linking(l) is MakeFence,
        l.fence is Some && !l.qkv_channel ==> linking(l) is OpenQkv,
        l.fence is Some && l.qkv_channel && !l.aux_channel ==> linking(l) is OpenAux,
        l.fence is Some && l.qkv_channel && l.aux_channel && l.started ==> linking(l) is AdvancePack,
        l.fence is Some && l.qkv_channel && l.aux_channel && !l.started ==> linking(l)
            == FlightStage::BeginPack(l.fence->0),
        flight_after(l, FlightStage::MakeFence, Some(v)).0.fence == Some(v),
        flight_after(l, FlightStage::OpenQkv, Some(v)).0.qkv_channel,
        flight_after(l, FlightStage::OpenAux, Some(v)).0.aux_channel,
        flight_after(l, FlightStage::AdvancePack, Some(v)).1 == FlightStage::BeginPack(v),
        flight_after(l, FlightStage::BeginPack(p), Some(v)).1 == FlightStage::AdvanceQkv(p),
        flight_after(l, FlightStage::BeginPack(p), Some(v)).0.started,
        flight_after(l, FlightStage::AdvanceQkv(p), Some(v)).1 == FlightStage::SubmitQkv(p, v),
        flight_after(l, FlightStage::SubmitQkv(p, q), Some(v)) == (l, FlightStage::AdvanceAux(p, q)),
        flight_after(l, FlightStage::AdvanceAux(p, q), Some(v)).1 == FlightStage::SubmitAux(p, q, v),
        flight_after(l, FlightStage::SubmitAux(p, q, a), Some(v)) == (l, FlightStage::Pending(p, q, a)),
        forall|s: FlightStage|
            !(s is Pending || s is WrongWidth) ==> #[trigger] flight_after(l, s, None) == (
                l,
                FlightStage::Failed,
            ),
{
}

/// A slow sample counts two against a layer and a quick one takes one back; a layer is taken from the engine
/// at the second sample at the earliest, where the count reaches what is asked for, four unless said
/// otherwise.
pub proof fn law_when_a_layer_is_taken_from_the_engine(l: GdnAneLayer, s: Settings, slow: bool, n: nat)
    requires
        !switch_enabled(s.value("QWEN_GDN_ANE_EPHEMERAL"@), false),
        l.samples < u32::MAX,
        l.slow_score < u32::MAX - 2,
    ensures
        ({
            let count = if slow {
                l.slow_score + 2
            } else if l.slow_score > 0 {
                l.slow_score - 1
            } else {
                0
            };
            let (next, gone) = GdnAneState::Ready(l).sampled(s, slow, true);
            let adaptive = switch_enabled(s.value("QWEN_GDN_ANE_ADAPTIVE"@), true);
            &&& gone <==> adaptive && l.samples >= 1 && count >= retire_score_of(s)
            &&& gone ==> next is Disabled
            &&& !gone && adaptive ==> next == GdnAneState::Ready(
                GdnAneLayer { samples: (l.samples + 1) as u32, slow_score: count as u32, ..l },
            )
            &&& !adaptive ==> next == GdnAneState::Ready(l)
        }),
        s.value("QWEN_GDN_ANE_SLOW_SCORE"@) is None ==> retire_score_of(s) == 4,
        s.value("QWEN_GDN_ANE_SLOW_SCORE"@) == Some(decimal(n)) && 1 <= n <= u32::MAX ==> retire_score_of(s)
            == n,
        s.value("QWEN_GDN_ANE_SLOW_SCORE"@) == Some(decimal(n)) && n == 0 ==> retire_score_of(s) == 4,
{
    crate::text::law_a_number_reads_back(n, u32::MAX as nat);
}

/// A layer that is not to stay is ready again when it was unloaded, with its channel closed, and is given
/// up when it could not be.
pub proof fn law_what_becomes_of_a_layer_that_is_not_to_stay(l: GdnAneLayer, s: Settings, slow: bool)
    requires
        switch_enabled(s.value("QWEN_GDN_ANE_EPHEMERAL"@), false),
    ensures
        GdnAneState::Ready(l).sampled(s, slow, true) == (
            GdnAneState::Ready(GdnAneLayer { channel: false, loaded: false, ..l }),
            false,
        ),
        GdnAneState::Ready(l).sampled(s, slow, false) == (GdnAneState::Disabled, true),
        GdnAneState::Uninitialized.sampled(s, slow, true) == (GdnAneState::Uninitialized, false),
{
}

/// A convolution runs on the engine where the layer has one, and only on as many rows and samples as it
/// has.
pub proof fn law_what_a_convolution_is_given(l: GdnAneLayer, current: int, state: int, y: int)
    requires
        l.conv_kernel > 0,
    ensures
        conv_fault(l, current, state, y) is None <==> l.fused && current == l.qkv_rows && y == l.qkv_rows && state
            == l.qkv_rows * (l.conv_kernel - 1),
        !l.fused ==> conv_fault(l, current, state, y) == Some(ConvFault::Unavailable),
        l.fused && (current != l.qkv_rows || y != l.qkv_rows) ==> conv_fault(l, current, state, y) == Some(
            ConvFault::Shape,
        ),
{
}

/// A convolution is fused where it is not switched off, is at most sixteen samples long, and has a weight
/// for every sample of every row.
pub proof fn law_when_a_convolution_is_fused(s: Settings, rows: int, weights: int, kernel: int)
    ensures
        fuses(s, rows, weights, kernel) <==> switch_enabled(s.value("QWEN_GDN_ANE_FUSED"@), true) && 1 <= kernel
            <= 16 && weights == rows * kernel,
{
}

} // verus!
