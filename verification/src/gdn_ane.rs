//! Linear attention on a neural engine: which layers go there, what the surfaces
//! it reads and writes hold, and what becomes of a layer when a call fails.
//!
//! A surface holds one row of [`SPATIAL`] singles for every channel. The engine
//! itself is the caller's: the functions here say what to ask of it next, and are
//! told what came of it.

use vstd::prelude::*;
use vstd::string::*;

use crate::bytes::{le, le_bytes, lemma_bases, lemma_le_bytes_len, lemma_le_same, push_le, read_le};
use crate::floatbits::{bf16_to_f32, f32_to_f16_bits, single_to_half};
use crate::gdn::{shift_conv, shifted};
use crate::mxfp4::lemma_cell;
use crate::settings::{layer_selected, layers_name, switch_enabled, Settings};
use crate::text::{chars_of, parse_spec, parse_unsigned};

verus! {

/// How many singles a surface holds for a channel.
pub const SPATIAL: usize = 16;

/// How wide a packed surface may be.
pub const MAX_PACKED_SPATIAL: usize = 16384;

/// Whether the projections of a layer go to the engine as one program whose weights
/// are packed in anew for every layer. There is an engine on Apple silicon only.
pub fn dynamic_enabled(settings: &Settings, on_apple: bool) -> (r: bool)
    ensures
        r == (on_apple && switch_enabled(settings.value("QWEN_GDN_ANE_DYNAMIC"@), false)),
{
    on_apple && settings.enabled("QWEN_GDN_ANE_DYNAMIC", false)
}

/// Whether such a program is submitted without waiting for it.
pub fn dynamic_async_enabled(settings: &Settings, on_apple: bool) -> (r: bool)
    ensures
        r == (on_apple && switch_enabled(settings.value("QWEN_GDN_ANE_DYNAMIC_ASYNC"@), false)),
{
    on_apple && settings.enabled("QWEN_GDN_ANE_DYNAMIC_ASYNC", false)
}

/// Whether a program is unloaded from the engine after every use.
pub fn ephemeral_enabled(settings: &Settings) -> (r: bool)
    ensures
        r == switch_enabled(settings.value("QWEN_GDN_ANE_EPHEMERAL"@), false),
{
    settings.enabled("QWEN_GDN_ANE_EPHEMERAL", false)
}

/// Whether the convolution follows on the device from where the engine left its result.
pub fn fused_enabled(settings: &Settings) -> (r: bool)
    ensures
        r == switch_enabled(settings.value("QWEN_GDN_ANE_FUSED"@), true),
{
    settings.enabled("QWEN_GDN_ANE_FUSED", true)
}

/// Whether a layer that is slow on the engine is taken off it.
pub fn adaptive_enabled(settings: &Settings) -> (r: bool)
    ensures
        r == switch_enabled(settings.value("QWEN_GDN_ANE_ADAPTIVE"@), true),
{
    settings.enabled("QWEN_GDN_ANE_ADAPTIVE", true)
}

/// The layers that the settings name for the engine, where they turn it on.
pub open spec fn asked_for(s: Settings, on_apple: bool, layer: usize) -> bool {
    &&& on_apple
    &&& switch_enabled(s.value("QWEN_GDN_ANE"@), false)
    &&& layers_name(
        match s.value("QWEN_GDN_ANE_LAYERS"@) {
            Some(v) => v,
            None => "0"@,
        },
        layer,
    )
}

/// Whether a layer goes to the engine.
pub fn requested(settings: &Settings, on_apple: bool, layer: usize) -> (r: bool)
    ensures
        r == asked_for(*settings, on_apple, layer),
{
    on_apple && settings.enabled("QWEN_GDN_ANE", false) && layer_selected(
        settings.text("QWEN_GDN_ANE_LAYERS", "0"),
        layer,
    )
}

/// How requests are handed to the engine: in real time, directly, or by its daemon.
pub open spec fn mode_of(s: Settings) -> u32 {
    if switch_enabled(s.value("QWEN_GDN_ANE_ASYNC_REALTIME"@), false) {
        2
    } else if switch_enabled(s.value("QWEN_GDN_ANE_ASYNC_DIRECT"@), false) {
        1
    } else {
        0
    }
}

/// How requests are handed to the engine.
pub fn submit_mode(settings: &Settings) -> (r: u32)
    ensures
        r == mode_of(*settings),
{
    if settings.enabled("QWEN_GDN_ANE_ASYNC_REALTIME", false) {
        2
    } else if settings.enabled("QWEN_GDN_ANE_ASYNC_DIRECT", false) {
        1
    } else {
        0
    }
}

/// Whether surfaces are mapped when a channel is made: by default those of the packed program,
/// not those of a layer.
pub fn premaps(settings: &Settings, packed: bool) -> (r: bool)
    ensures
        r == switch_enabled(settings.value("QWEN_GDN_ANE_ASYNC_PREMAP"@), packed),
{
    settings.enabled("QWEN_GDN_ANE_ASYNC_PREMAP", packed)
}

/// A path below another.
pub open spec fn below(dir: Seq<char>, rest: Seq<char>) -> Seq<char> {
    if dir.len() == 0 {
        rest
    } else if dir.last() == '/' {
        dir + rest
    } else {
        dir.push('/') + rest
    }
}

fn path_below(dir: &str, rest: &str) -> (r: String)
    ensures
        r@ == below(dir@, rest@),
{
    let c: Vec<char> = chars_of(dir);
    let mut out: String = String::from_str(dir);
    if c.len() > 0 && c[c.len() - 1] != '/' {
        proof {
            reveal_strlit("/");
            assert("/"@ =~= seq!['/']);
        }
        out.append("/");
        assert(out@ =~= dir@.push('/'));
    }
    out.append(rest);
    assert(out@ =~= below(dir@, rest@));
    out
}

/// Where compiled programs are kept: nowhere where that is switched off, else in the
/// directory that is set, else below the user's cache, else below their home.
pub open spec fn cache_dir_of(s: Settings) -> Option<Seq<char>> {
    if switch_enabled(s.value("LOGAN_ANE_NOCACHE"@), false) {
        None
    } else {
        match s.value("LOGAN_ANE_CACHE_DIR"@) {
            Some(d) => Some(d),
            None => match s.value("XDG_CACHE_HOME"@) {
                Some(d) => Some(below(d, "logan/ane"@)),
                None => match s.value("HOME"@) {
                    Some(d) => Some(below(d, ".cache/logan/ane"@)),
                    None => None,
                },
            },
        }
    }
}

/// Where compiled programs are kept.
pub fn ane_cache_dir(settings: &Settings) -> (r: Option<String>)
    ensures
        match r {
            Some(d) => cache_dir_of(*settings) == Some(d@),
            None => cache_dir_of(*settings) is None,
        },
{
    if settings.enabled("LOGAN_ANE_NOCACHE", false) {
        return None;
    }
    match settings.get("LOGAN_ANE_CACHE_DIR") {
        Some(d) => {
            return Some(String::from_str(d));
        },
        None => {},
    }
    match settings.get("XDG_CACHE_HOME") {
        Some(d) => {
            return Some(path_below(d, "logan/ane"));
        },
        None => {},
    }
    match settings.get("HOME") {
        Some(d) => Some(path_below(d, ".cache/logan/ane")),
        None => None,
    }
}

/// Why weights cannot go to the engine.
#[derive(Clone, Copy, Debug, PartialEq, Eq, Structural)]
pub enum NarrowFault {
    /// Half a brain float is left over.
    OddBytes,
    /// A weight is infinite or no number.
    NotFinite,
}

impl NarrowFault {
    /// The fault in words.
    pub fn message(self) -> (r: &'static str)
        ensures
            r@ == (match self {
                NarrowFault::OddBytes => "BF16 byte count is not even"@,
                NarrowFault::NotFinite => "non-finite BF16 GDN weight"@,
            }),
    {
        match self {
            NarrowFault::OddBytes => "BF16 byte count is not even",
            NarrowFault::NotFinite => "non-finite BF16 GDN weight",
        }
    }
}

/// A weight of a row of brain floats.
pub open spec fn brain_at(bytes: Seq<u8>, i: int) -> int {
    bytes[2 * i] + 256 * bytes[2 * i + 1]
}

/// Whether a brain float is finite.
pub open spec fn brain_is_finite(b: int) -> bool {
    (b / 128) % 256 != 255
}

/// What the engine takes for weights of brain floats: halves.
pub open spec fn halves_of(bytes: Seq<u8>) -> Result<Seq<u16>, NarrowFault> {
    if bytes.len() % 2 != 0 {
        Err(NarrowFault::OddBytes)
    } else if exists|i: int|
        0 <= i < bytes.len() / 2 && !brain_is_finite(#[trigger] brain_at(bytes, i)) {
        Err(NarrowFault::NotFinite)
    } else {
        Ok(
            Seq::new(
                bytes.len() / 2,
                |i: int| single_to_half((brain_at(bytes, i) * 65536) as u32) as u16,
            ),
        )
    }
}

/// The halves nearest to brain floats.
pub fn bf16_to_fp16(bytes: &Vec<u8>) -> (r: Result<Vec<u16>, NarrowFault>)
    ensures
        match r {
            Ok(v) => halves_of(bytes@) == Ok::<Seq<u16>, NarrowFault>(v@),
            Err(e) => halves_of(bytes@) == Err::<Seq<u16>, NarrowFault>(e),
        },
{
    if bytes.len() % 2 != 0 {
        return Err(NarrowFault::OddBytes);
    }
    let n: usize = bytes.len() / 2;
    let mut out: Vec<u16> = Vec::new();
    let mut i: usize = 0;
    while i < n
        invariant
            i <= n,
            bytes@.len() == 2 * n,
            out@.len() == i,
            forall|k: int|
                0 <= k < i ==> brain_is_finite(#[trigger] brain_at(bytes@, k)) && out@[k]
                    == single_to_half((brain_at(bytes@, k) * 65536) as u32),
        decreases n - i,
    {
        assert(bytes.len() == bytes@.len());
        let b: u16 = bytes[2 * i] as u16 + 256 * bytes[2 * i + 1] as u16;
        assert(b == brain_at(bytes@, i as int));
        if (b / 128) % 256 == 255 {
            assert(!brain_is_finite(brain_at(bytes@, i as int)));
            return Err(NarrowFault::NotFinite);
        }
        let wide: u32 = bf16_to_f32(b);
        out.push(f32_to_f16_bits(wide));
        assert(brain_is_finite(brain_at(bytes@, i as int)));
        i = i + 1;
    }
    proof {
        let want = Seq::new(
            bytes@.len() / 2,
            |i: int| single_to_half((brain_at(bytes@, i) * 65536) as u32) as u16,
        );
        assert forall|k: int| 0 <= k < n implies out@[k] == #[trigger] want[k] by {
            assert(brain_is_finite(brain_at(bytes@, k)));
        }
        assert(out@ =~= want);
    }
    Ok(out)
}

/// Why a vector does not fit a surface.
#[derive(Clone, Copy, Debug, PartialEq, Eq, Structural)]
pub enum SurfaceFault {
    /// An input of one width for a layer of another.
    Input { given: usize, hidden: usize },
    /// A place for an output of another number of rows.
    Rows,
}

/// What a surface of inputs holds: every value sixteen times, one row for each.
pub open spec fn spread(x: Seq<u32>) -> Seq<u8> {
    Seq::new(
        (x.len() * 64) as nat,
        |p: int| le_bytes(x[p / 64] as nat, 4)[p % 4],
    )
}

/// The bytes of an input surface.
pub fn write_input(x: &Vec<u32>, hidden: usize) -> (r: Result<Vec<u8>, SurfaceFault>)
    ensures
        match r {
            Ok(map) => x@.len() == hidden && map@ == spread(x@),
            Err(e) => x@.len() != hidden && e == (SurfaceFault::Input {
                given: x@.len() as usize,
                hidden,
            }),
        },
{
    if x.len() != hidden {
        return Err(SurfaceFault::Input { given: x.len(), hidden });
    }
    let mut map: Vec<u8> = Vec::new();
    let mut ch: usize = 0;
    while ch < x.len()
        invariant
            ch <= x.len(),
            map@.len() == ch * 64,
            forall|p: int|
                0 <= p < ch * 64 ==> #[trigger] map@[p] == le_bytes(x@[p / 64] as nat, 4)[p % 4],
        decreases x.len() - ch,
    {
        let ghost before = map@;
        let mut s: usize = 0;
        while s < SPATIAL
            invariant
                s <= SPATIAL,
                ch < x.len(),
                before.len() == ch * 64,
                map@.len() == ch * 64 + s * 4,
                forall|p: int|
                    0 <= p < ch * 64 + s * 4 ==> #[trigger] map@[p] == le_bytes(
                        x@[p / 64] as nat,
                        4,
                    )[p % 4],
            decreases SPATIAL - s,
        {
            let ghost had = map@;
            push_le(&mut map, x[ch] as u64, 4);
            proof {
                lemma_le_bytes_len(x@[ch as int] as nat, 4);
                assert forall|p: int| 0 <= p < ch * 64 + (s + 1) * 4 implies #[trigger] map@[p]
                    == le_bytes(x@[p / 64] as nat, 4)[p % 4] by {
                    if p < ch * 64 + s * 4 {
                        assert(map@[p] == had[p]);
                    } else {
                        assert(p / 64 == ch);
                        assert(p % 4 == p - (ch * 64 + s * 4));
                    }
                }
            }
            s = s + 1;
        }
        ch = ch + 1;
    }
    assert(map@ =~= spread(x@));
    Ok(map)
}

/// The first single of a row of a surface.
pub open spec fn column_at(surface: Seq<u8>, row: int) -> nat {
    le(surface, row * 64, 4)
}

/// Reads the first single of every row of a surface.
pub fn read_column(surface: &Vec<u8>, rows: usize, dst: &mut Vec<u32>) -> (r: Result<(), SurfaceFault>)
    requires
        holds_rows(surface@, rows as int),
    ensures
        match r {
            Ok(()) => {
                &&& old(dst)@.len() == rows
                &&& final(dst)@.len() == rows
                &&& forall|i: int| 0 <= i < rows ==> #[trigger] final(dst)@[i] == column_at(surface@, i)
            },
            Err(e) => {
                &&& old(dst)@.len() != rows
                &&& e == SurfaceFault::Rows
                &&& *final(dst) == *old(dst)
            },
        },
{
    if dst.len() != rows {
        return Err(SurfaceFault::Rows);
    }
    let mut i: usize = 0;
    while i < rows
        invariant
            i <= rows,
            dst@.len() == rows,
            rows > 0 ==> (rows - 1) * 64 + 4 <= surface@.len(),
            forall|k: int| 0 <= k < i ==> #[trigger] dst@[k] == column_at(surface@, k),
        decreases rows - i,
    {
        assert(surface.len() == surface@.len());
        let v: u64 = read_le(surface.as_slice(), i * 64, 4);
        proof {
            lemma_bases();
        }
        dst.set(i, v as u32);
        i = i + 1;
    }
    Ok(())
}

/// Brings the four results of a layer back: every column into its place. It stops at
/// the first place of another number of rows; what was read before it stays.
pub fn materialize(
    surfaces: (&Vec<u8>, &Vec<u8>, &Vec<u8>, &Vec<u8>),
    rows: (usize, usize, usize),
    qkv: &mut Vec<u32>,
    z: &mut Vec<u32>,
    a: &mut Vec<u32>,
    b: &mut Vec<u32>,
) -> (r: Result<(), SurfaceFault>)
    requires
        holds_rows(surfaces.0@, rows.0 as int),
        holds_rows(surfaces.1@, rows.1 as int),
        holds_rows(surfaces.2@, rows.2 as int),
        holds_rows(surfaces.3@, rows.2 as int),
    ensures
        r is Ok <==> old(qkv)@.len() == rows.0 && old(z)@.len() == rows.1 && old(a)@.len() == rows.2
            && old(b)@.len() == rows.2,
        r matches Err(e) ==> e == SurfaceFault::Rows,
        ({
            let (q, y, x) = (
                old(qkv)@.len() == rows.0,
                old(z)@.len() == rows.1,
                old(a)@.len() == rows.2,
            );
            &&& final(qkv)@ == column_or(q, surfaces.0@, old(qkv)@)
            &&& final(z)@ == column_or(q && y, surfaces.1@, old(z)@)
            &&& final(a)@ == column_or(q && y && x, surfaces.2@, old(a)@)
            &&& final(b)@ == column_or(r is Ok, surfaces.3@, old(b)@)
        }),
{
    match read_column(surfaces.0, rows.0, qkv) {
        Ok(()) => {},
        Err(e) => {
            return Err(e);
        },
    }
    assert(qkv@ =~= column_or(true, surfaces.0@, old(qkv)@));
    match read_column(surfaces.1, rows.1, z) {
        Ok(()) => {},
        Err(e) => {
            return Err(e);
        },
    }
    assert(z@ =~= column_or(true, surfaces.1@, old(z)@));
    match read_column(surfaces.2, rows.2, a) {
        Ok(()) => {},
        Err(e) => {
            return Err(e);
        },
    }
    assert(a@ =~= column_or(true, surfaces.2@, old(a)@));
    match read_column(surfaces.3, rows.2, b) {
        Ok(()) => {},
        Err(e) => {
            return Err(e);
        },
    }
    assert(b@ =~= column_or(true, surfaces.3@, old(b)@));
    Ok(())
}

/// Whether a surface is long enough for a number of rows.
pub open spec fn holds_rows(surface: Seq<u8>, rows: int) -> bool {
    rows > 0 ==> (rows - 1) * 64 + 4 <= surface.len()
}

/// The column of a surface where it was read, else what was there.
pub open spec fn column_or(read: bool, surface: Seq<u8>, before: Seq<u32>) -> Seq<u32> {
    if read {
        Seq::new(before.len(), |i: int| column_at(surface, i) as u32)
    } else {
        before
    }
}

/// A column read from a surface of inputs holds the inputs.
pub proof fn law_a_column_holds_the_inputs(x: Seq<u32>, i: int)
    requires
        0 <= i < x.len(),
    ensures
        column_at(spread(x), i) == x[i],
{
    let b = le_bytes(x[i] as nat, 4);
    lemma_le_bytes_len(x[i] as nat, 4);
    assert forall|j: int| 0 <= j < 4 implies #[trigger] spread(x)[i * 64 + j] == b[0 + j] by {
        assert((i * 64 + j) / 64 == i);
        assert((i * 64 + j) % 4 == j);
    }
    lemma_le_same(spread(x), i * 64, b, 0, 4);
    lemma_bases();
    crate::bytes::law_le_round_trip(x[i] as nat, 4);
}

/// What a surface holds once the history of the convolution stands in it: the samples
/// of a channel at the head of its row, oldest first, and the rest as it was.
pub open spec fn with_history(surface: Seq<u8>, state: Seq<u32>, rows: int, history: int) -> Seq<u8> {
    Seq::new(
        surface.len(),
        |p: int|
            if p / 64 < rows && (p % 64) / 4 < history {
                le_bytes(state[(p / 64) * history + (p % 64) / 4] as nat, 4)[p % 4]
            } else {
                surface[p]
            },
    )
}

/// Writes the history of the convolution into a surface.
pub fn write_history(surface: &mut Vec<u8>, state: &Vec<u32>, rows: usize, history: usize)
    requires
        history < SPATIAL,
        rows * 64 <= old(surface)@.len(),
        state@.len() == rows * history,
    ensures
        final(surface)@ == with_history(old(surface)@, state@, rows as int, history as int),
{
    let ghost start = surface@;
    let ghost want = with_history(start, state@, rows as int, history as int);
    let mut ch: usize = 0;
    while ch < rows
        invariant
            start == old(surface)@,
            want == with_history(start, state@, rows as int, history as int),
            ch <= rows,
            history < SPATIAL,
            rows * 64 <= start.len(),
            state@.len() == rows * history,
            surface@.len() == start.len(),
            forall|p: int| 0 <= p < ch * 64 ==> #[trigger] surface@[p] == want[p],
            forall|p: int| ch * 64 <= p < start.len() ==> #[trigger] surface@[p] == start[p],
        decreases rows - ch,
    {
        let mut j: usize = 0;
        while j < history
            invariant
                start == old(surface)@,
                want == with_history(start, state@, rows as int, history as int),
                ch < rows,
                j <= history < SPATIAL,
                rows * 64 <= start.len(),
                state@.len() == rows * history,
                surface@.len() == start.len(),
                forall|p: int| 0 <= p < ch * 64 + j * 4 ==> #[trigger] surface@[p] == want[p],
                forall|p: int| ch * 64 + j * 4 <= p < start.len() ==> #[trigger] surface@[p] == start[p],
            decreases history - j,
        {
            proof {
                lemma_cell(rows as nat, history as nat, ch as int, j as int);
                assert(state.len() == state@.len());
                assert(surface.len() == surface@.len());
            }
            let mut b: Vec<u8> = Vec::new();
            push_le(&mut b, state[ch * history + j] as u64, 4);
            let ghost bytes = le_bytes(state@[ch * history + j] as nat, 4);
            proof {
                lemma_le_bytes_len(state@[ch * history + j] as nat, 4);
                assert(b@ =~= bytes);
            }
            let at: usize = ch * 64 + j * 4;
            let mut t: usize = 0;
            while t < 4
                invariant
                    want == with_history(start, state@, rows as int, history as int),
                    at == ch * 64 + j * 4,
                    ch < rows,
                    j < history < SPATIAL,
                    rows * 64 <= start.len(),
                    t <= 4,
                    b@ == bytes,
                    bytes.len() == 4,
                    bytes == le_bytes(state@[ch * history + j] as nat, 4),
                    surface@.len() == start.len(),
                    forall|p: int| 0 <= p < at + t ==> #[trigger] surface@[p] == want[p],
                    forall|p: int| at + t <= p < start.len() ==> #[trigger] surface@[p] == start[p],
                decreases 4 - t,
            {
                proof {
                    assert(surface.len() == surface@.len());
                    let p = at + t;
                    assert(p / 64 == ch);
                    assert((p % 64) / 4 == j);
                    assert(p % 4 == t);
                    assert(want[p] == bytes[t as int]);
                }
                surface.set(at + t, b[t]);
                t = t + 1;
            }
            j = j + 1;
        }
        proof {
            assert forall|p: int| 0 <= p < (ch + 1) * 64 implies #[trigger] surface@[p] == want[p] by {
                if p >= ch * 64 + history * 4 {
                    assert(p / 64 == ch);
                    assert((p % 64) / 4 >= history);
                }
            }
        }
        ch = ch + 1;
    }
    proof {
        assert forall|p: int| 0 <= p < start.len() implies #[trigger] surface@[p] == want[p] by {
            if p >= rows * 64 {
                assert(p / 64 >= rows);
            }
        }
        assert(surface@ =~= want);
    }
}

/// A layer on the engine.
#[derive(Clone, Copy, Debug, PartialEq, Eq, Structural)]
pub struct GdnAneLayer {
    pub hidden: usize,
    pub qkv_rows: usize,
    pub z_rows: usize,
    pub ab_rows: usize,
    pub conv_kernel: usize,
    /// Whether the convolution follows on the device.
    pub fused: bool,
    /// Whether the results stay on the device.
    pub gpu_tail: bool,
    /// Whether the program is loaded.
    pub loaded: bool,
    /// The value of the event that the device waits for, once there is one.
    pub fence: Option<u64>,
    /// Whether there is a channel for requests that are not waited for.
    pub channel: bool,
    pub slow_score: u32,
    pub samples: u32,
}

impl GdnAneLayer {
    /// How many samples of a channel the convolution remembers.
    pub open spec fn history(self) -> int {
        if self.conv_kernel == 0 {
            0
        } else {
            self.conv_kernel - 1
        }
    }

    /// A convolution on the device has a kernel that fits a row of a surface.
    pub open spec fn wf(self) -> bool {
        self.fused ==> 1 <= self.conv_kernel <= SPATIAL
    }
}

/// What a layer needs on the engine.
pub struct LayerPlan {
    pub qkv: Vec<u16>,
    pub z: Vec<u16>,
    pub a: Vec<u16>,
    pub b: Vec<u16>,
    /// The bytes of the surfaces: input, queries with keys and values, and the others.
    pub input_bytes: usize,
    pub qkv_bytes: usize,
    pub z_bytes: usize,
    pub ab_bytes: usize,
    /// The bytes of the convolution's result, where it follows on the device.
    pub conv_bytes: Option<usize>,
    pub ephemeral: bool,
    pub gpu_tail: bool,
}

/// Whether the convolution of a layer can follow on the device.
pub open spec fn fuses(s: Settings, qkv_rows: int, weights: int, kernel: int) -> bool {
    &&& switch_enabled(s.value("QWEN_GDN_ANE_FUSED"@), true)
    &&& 0 < kernel <= SPATIAL
    &&& weights == qkv_rows * kernel
}

/// Plans a layer for the engine: its weights as halves, the sizes of its surfaces, and
/// what the settings ask of it. Weights are looked at in the order of the arguments.
pub fn plan_layer(
    settings: &Settings,
    hidden: usize,
    qkv_rows: usize,
    z_rows: usize,
    ab_rows: usize,
    wqkv: &Vec<u8>,
    wz: &Vec<u8>,
    wa: &Vec<u8>,
    wb: &Vec<u8>,
    conv_weights: usize,
    conv_kernel: usize,
) -> (r: Result<LayerPlan, NarrowFault>)
    requires
        hidden * 64 <= usize::MAX,
        qkv_rows * 64 <= usize::MAX,
        z_rows * 64 <= usize::MAX,
        ab_rows * 64 <= usize::MAX,
    ensures
        match r {
            Ok(p) => {
                &&& halves_of(wqkv@) == Ok::<Seq<u16>, NarrowFault>(p.qkv@)
                &&& halves_of(wz@) == Ok::<Seq<u16>, NarrowFault>(p.z@)
                &&& halves_of(wa@) == Ok::<Seq<u16>, NarrowFault>(p.a@)
                &&& halves_of(wb@) == Ok::<Seq<u16>, NarrowFault>(p.b@)
                &&& p.input_bytes == hidden * 64
                &&& p.qkv_bytes == qkv_rows * 64
                &&& p.z_bytes == z_rows * 64
                &&& p.ab_bytes == ab_rows * 64
                &&& p.conv_bytes == (if fuses(
                    *settings,
                    qkv_rows as int,
                    conv_weights as int,
                    conv_kernel as int,
                ) {
                    Some((qkv_rows * 4) as usize)
                } else {
                    None
                })
                &&& p.ephemeral == switch_enabled(
                    settings.value("QWEN_GDN_ANE_EPHEMERAL"@),
                    false,
                )
                &&& p.gpu_tail == switch_enabled(settings.value("QWEN_GDN_ANE_GPU_TAIL"@), false)
            },
            Err(e) => {
                let f = Err::<Seq<u16>, NarrowFault>(e);
                ||| halves_of(wqkv@) == f
                ||| halves_of(wqkv@) is Ok && halves_of(wz@) == f
                ||| halves_of(wqkv@) is Ok && halves_of(wz@) is Ok && halves_of(wa@) == f
                ||| halves_of(wqkv@) is Ok && halves_of(wz@) is Ok && halves_of(wa@) is Ok
                    && halves_of(wb@) == f
            },
        },
{
    let qkv: Vec<u16> = match bf16_to_fp16(wqkv) {
        Ok(v) => v,
        Err(e) => {
            return Err(e);
        },
    };
    let z: Vec<u16> = match bf16_to_fp16(wz) {
        Ok(v) => v,
        Err(e) => {
            return Err(e);
        },
    };
    let a: Vec<u16> = match bf16_to_fp16(wa) {
        Ok(v) => v,
        Err(e) => {
            return Err(e);
        },
    };
    let b: Vec<u16> = match bf16_to_fp16(wb) {
        Ok(v) => v,
        Err(e) => {
            return Err(e);
        },
    };
    let fused: bool = if fused_enabled(settings) && conv_kernel > 0 && conv_kernel <= SPATIAL {
        assert(qkv_rows * conv_kernel <= qkv_rows * 64) by (nonlinear_arith)
            requires
                conv_kernel <= 64,
        ;
        conv_weights == qkv_rows * conv_kernel
    } else {
        false
    };
    let conv_bytes: Option<usize> = if fused {
        Some(qkv_rows * 4)
    } else {
        None
    };
    Ok(
        LayerPlan {
            qkv,
            z,
            a,
            b,
            input_bytes: hidden * SPATIAL * 4,
            qkv_bytes: qkv_rows * SPATIAL * 4,
            z_bytes: z_rows * SPATIAL * 4,
            ab_bytes: ab_rows * SPATIAL * 4,
            conv_bytes,
            ephemeral: ephemeral_enabled(settings),
            gpu_tail: settings.enabled("QWEN_GDN_ANE_GPU_TAIL", false),
        },
    )
}

/// What is to be done next to bring a layer onto the engine.
#[derive(Clone, Copy, Debug, PartialEq, Eq, Structural)]
pub enum BuildStage {
    /// Write the program down.
    Program,
    /// Reach the engine.
    Runtime,
    /// Compile the program.
    Compile,
    /// Load it.
    Load,
    /// Make the five surfaces.
    Surfaces,
    /// Make the surface for the convolution's result.
    ConvSurface,
    /// Show the device both surfaces of the convolution.
    Import,
    /// Make the convolution.
    Kernel,
    /// Unload the program until it is used.
    Unload,
    Ready,
    Failed,
}

/// A layer on its way onto the engine.
#[derive(Clone, Copy, Debug, PartialEq, Eq, Structural)]
pub struct LayerBuild {
    pub wants_conv: bool,
    pub ephemeral: bool,
    pub fused: bool,
    pub loaded: bool,
    pub stage: BuildStage,
}

impl LayerBuild {
    /// Every stage is one that the plan asks for.
    pub open spec fn wf(self) -> bool {
        &&& (self.stage is ConvSurface || self.stage is Import || self.stage is Kernel || self.fused)
            ==> self.wants_conv
        &&& self.stage is Unload ==> self.ephemeral
        &&& self.stage is Ready ==> self.loaded == !self.ephemeral
        &&& (self.stage is Surfaces || self.stage is ConvSurface || self.stage is Import
            || self.stage is Kernel || self.stage is Unload) ==> self.loaded
        &&& self.fused ==> self.stage is Unload || self.stage is Ready || self.stage is Failed
    }

    /// What follows once the surfaces and the convolution are decided.
    pub open spec fn placed(self, fused: bool) -> LayerBuild {
        LayerBuild {
            fused,
            stage: if self.ephemeral {
                BuildStage::Unload
            } else {
                BuildStage::Ready
            },
            ..self
        }
    }

    /// What follows a stage. A convolution that cannot be made is done without.
    pub open spec fn after(self, ok: bool) -> LayerBuild {
        let failed = LayerBuild { stage: BuildStage::Failed, ..self };
        match self.stage {
            BuildStage::Program => if ok {
                LayerBuild { stage: BuildStage::Runtime, ..self }
            } else {
                failed
            },
            BuildStage::Runtime => if ok {
                LayerBuild { stage: BuildStage::Compile, ..self }
            } else {
                failed
            },
            BuildStage::Compile => if ok {
                LayerBuild { stage: BuildStage::Load, ..self }
            } else {
                failed
            },
            BuildStage::Load => if ok {
                LayerBuild { stage: BuildStage::Surfaces, loaded: true, ..self }
            } else {
                failed
            },
            BuildStage::Surfaces => if !ok {
                failed
            } else if self.wants_conv {
                LayerBuild { stage: BuildStage::ConvSurface, ..self }
            } else {
                self.placed(false)
            },
            BuildStage::ConvSurface => if ok {
                LayerBuild { stage: BuildStage::Import, ..self }
            } else {
                failed
            },
            BuildStage::Import => if ok {
                LayerBuild { stage: BuildStage::Kernel, ..self }
            } else {
                self.placed(false)
            },
            BuildStage::Kernel => self.placed(ok),
            BuildStage::Unload => if ok {
                LayerBuild { stage: BuildStage::Ready, loaded: false, ..self }
            } else {
                failed
            },
            BuildStage::Ready => self,
            BuildStage::Failed => self,
        }
    }

    /// How far the layer is from its end.
    pub open spec fn distance(self) -> int {
        match self.stage {
            BuildStage::Program => 9,
            BuildStage::Runtime => 8,
            BuildStage::Compile => 7,
            BuildStage::Load => 6,
            BuildStage::Surfaces => 5,
            BuildStage::ConvSurface => 4,
            BuildStage::Import => 3,
            BuildStage::Kernel => 2,
            BuildStage::Unload => 1,
            BuildStage::Ready => 0,
            BuildStage::Failed => 0,
        }
    }

    /// Begins with a plan.
    pub fn start(plan: &LayerPlan) -> (r: LayerBuild)
        ensures
            r == (LayerBuild {
                wants_conv: plan.conv_bytes is Some,
                ephemeral: plan.ephemeral,
                fused: false,
                loaded: false,
                stage: BuildStage::Program,
            }),
            r.wf(),
    {
        let wants_conv: bool = match plan.conv_bytes {
            Some(_) => true,
            None => false,
        };
        LayerBuild {
            wants_conv,
            ephemeral: plan.ephemeral,
            fused: false,
            loaded: false,
            stage: BuildStage::Program,
        }
    }

    /// Goes on to the next stage.
    pub fn step(&mut self, ok: bool)
        requires
            old(self).wf(),
        ensures
            *final(self) == old(self).after(ok),
            final(self).wf(),
    {
        let done: BuildStage = if self.ephemeral {
            BuildStage::Unload
        } else {
            BuildStage::Ready
        };
        let next: BuildStage = match self.stage {
            BuildStage::Program => BuildStage::Runtime,
            BuildStage::Runtime => BuildStage::Compile,
            BuildStage::Compile => BuildStage::Load,
            BuildStage::Load => BuildStage::Surfaces,
            BuildStage::Surfaces => if self.wants_conv {
                BuildStage::ConvSurface
            } else {
                done
            },
            BuildStage::ConvSurface => BuildStage::Import,
            BuildStage::Import => if ok {
                BuildStage::Kernel
            } else {
                done
            },
            BuildStage::Kernel => done,
            BuildStage::Unload => BuildStage::Ready,
            BuildStage::Ready => BuildStage::Ready,
            BuildStage::Failed => BuildStage::Failed,
        };
        match self.stage {
            BuildStage::Load => {
                if ok {
                    self.loaded = true;
                }
            },
            BuildStage::Unload => {
                if ok {
                    self.loaded = false;
                }
            },
            BuildStage::Kernel => {
                self.fused = ok;
            },
            _ => {},
        }
        let spared: bool = match self.stage {
            BuildStage::Import | BuildStage::Kernel | BuildStage::Ready => true,
            _ => false,
        };
        self.stage = if ok || spared {
            next
        } else {
            BuildStage::Failed
        };
    }
}

/// Every build comes to an end.
pub proof fn law_every_build_ends(build: LayerBuild, ok: bool)
    requires
        build.wf(),
        !(build.stage is Ready || build.stage is Failed),
    ensures
        build.after(ok).wf(),
        0 <= build.after(ok).distance() < build.distance(),
{
}

/// A convolution that the device declines does not keep a layer off the engine, and
/// nothing else can be declined.
pub proof fn law_only_the_convolution_can_be_missing(build: LayerBuild)
    requires
        build.wf(),
        !(build.stage is Failed),
    ensures
        build.after(false).stage is Failed <==> !(build.stage is Import || build.stage is Kernel
            || build.stage is Ready),
        !build.after(false).fused || build.fused,
{
}

/// What has become of a layer.
#[derive(Clone, Copy, Debug, PartialEq, Eq, Structural)]
pub enum GdnAneState {
    Uninitialized,
    Ready(GdnAneLayer),
    Disabled,
}

/// What is to be done to have a layer on the engine.
#[derive(Clone, Copy, Debug, PartialEq, Eq, Structural)]
pub enum WarmStep {
    /// It does not go there.
    Refused,
    /// It has to be built.
    Build,
    /// It is there.
    Ready,
}

impl GdnAneState {
    /// What the state holds is in order.
    pub open spec fn wf(self) -> bool {
        self matches GdnAneState::Ready(l) ==> l.wf()
    }

    /// Whether the layer is on the engine.
    pub fn active(&self) -> (r: bool)
        ensures
            r == (*self is Ready),
    {
        match self {
            GdnAneState::Ready(_) => true,
            _ => false,
        }
    }

    /// Whether its convolution follows on the device.
    pub fn fused_active(&self) -> (r: bool)
        ensures
            r == (*self matches GdnAneState::Ready(l) && l.fused),
    {
        match self {
            GdnAneState::Ready(l) => l.fused,
            _ => false,
        }
    }

    /// Whether what the engine computes stays on the device.
    pub fn stays_on_device(&self) -> (r: bool)
        ensures
            r == (*self matches GdnAneState::Ready(l) && l.gpu_tail),
    {
        match self {
            GdnAneState::Ready(l) => l.gpu_tail,
            _ => false,
        }
    }

    /// What is to be done to have a layer on the engine.
    pub fn warm(&self, settings: &Settings, on_apple: bool, layer: usize) -> (r: WarmStep)
        ensures
            r == (if !asked_for(*settings, on_apple, layer) {
                WarmStep::Refused
            } else {
                match *self {
                    GdnAneState::Disabled => WarmStep::Refused,
                    GdnAneState::Uninitialized => WarmStep::Build,
                    GdnAneState::Ready(_) => WarmStep::Ready,
                }
            }),
    {
        if !requested(settings, on_apple, layer) {
            return WarmStep::Refused;
        }
        match self {
            GdnAneState::Disabled => WarmStep::Refused,
            GdnAneState::Uninitialized => WarmStep::Build,
            GdnAneState::Ready(_) => WarmStep::Ready,
        }
    }

    /// Takes in what came of a build: a layer, or nothing, and then never again.
    pub fn built(&mut self, layer: Option<GdnAneLayer>) -> (r: bool)
        requires
            *old(self) is Uninitialized,
            layer matches Some(l) ==> l.wf(),
        ensures
            r == (layer is Some),
            *final(self) == (match layer {
                Some(l) => GdnAneState::Ready(l),
                None => GdnAneState::Disabled,
            }),
            final(self).wf(),
    {
        match layer {
            Some(l) => {
                *self = GdnAneState::Ready(l);
                true
            },
            None => {
                *self = GdnAneState::Disabled;
                false
            },
        }
    }

    /// Takes in whether the engine evaluated the layer. A layer that failed is not
    /// tried again.
    pub fn evaluated(&mut self, ok: bool) -> (r: bool)
        requires
            old(self).wf(),
        ensures
            r == (*old(self) is Ready && ok),
            *final(self) == (if *old(self) is Ready && !ok {
                GdnAneState::Disabled
            } else {
                *old(self)
            }),
            final(self).wf(),
    {
        match self {
            GdnAneState::Ready(_) => {
                if !ok {
                    *self = GdnAneState::Disabled;
                }
                ok
            },
            _ => false,
        }
    }

    /// What follows a sample of how long the engine took. A layer that is unloaded
    /// after every use is unloaded, which can fail. Any other is watched: slow samples
    /// weigh twice as much as quick ones, and past a limit the layer is taken off.
    pub open spec fn sampled(self, s: Settings, slow: bool, unloaded: bool) -> (GdnAneState, bool) {
        match self {
            GdnAneState::Ready(l) => if switch_enabled(
                s.value("QWEN_GDN_ANE_EPHEMERAL"@),
                false,
            ) {
                if unloaded {
                    (
                        GdnAneState::Ready(GdnAneLayer { channel: false, loaded: false, ..l }),
                        false,
                    )
                } else {
                    (GdnAneState::Disabled, true)
                }
            } else if !switch_enabled(s.value("QWEN_GDN_ANE_ADAPTIVE"@), true) {
                (self, false)
            } else {
                let samples = if l.samples == u32::MAX {
                    u32::MAX
                } else {
                    (l.samples + 1) as u32
                };
                let score = if slow {
                    if l.slow_score >= u32::MAX - 2 {
                        u32::MAX
                    } else {
                        (l.slow_score + 2) as u32
                    }
                } else if l.slow_score == 0 {
                    0u32
                } else {
                    (l.slow_score - 1) as u32
                };
                if samples >= 2 && score >= retire_score_of(s) {
                    (GdnAneState::Disabled, true)
                } else {
                    (
                        GdnAneState::Ready(GdnAneLayer { samples, slow_score: score, ..l }),
                        false,
                    )
                }
            },
            _ => (self, false),
        }
    }

    /// Takes in a sample of how long the engine took. Says whether the layer was taken
    /// off it.
    pub fn report_async_sample(&mut self, settings: &Settings, slow: bool, unloaded: bool) -> (r: bool)
        requires
            old(self).wf(),
        ensures
            (*final(self), r) == old(self).sampled(*settings, slow, unloaded),
            final(self).wf(),
    {
        let l: GdnAneLayer = match self {
            GdnAneState::Ready(l) => *l,
            _ => {
                return false;
            },
        };
        if ephemeral_enabled(settings) {
            if !unloaded {
                *self = GdnAneState::Disabled;
                return true;
            }
            *self = GdnAneState::Ready(GdnAneLayer { channel: false, loaded: false, ..l });
            return false;
        }
        if !adaptive_enabled(settings) {
            return false;
        }
        let samples: u32 = l.samples.saturating_add(1);
        let score: u32 = if slow {
            l.slow_score.saturating_add(2)
        } else {
            l.slow_score.saturating_sub(1)
        };
        if samples >= 2 && score >= retire_score(settings) {
            *self = GdnAneState::Disabled;
            return true;
        }
        *self = GdnAneState::Ready(GdnAneLayer { samples, slow_score: score, ..l });
        false
    }
}

/// How slow a layer must be to be taken off the engine.
pub open spec fn retire_score_of(s: Settings) -> u32 {
    match s.value("QWEN_GDN_ANE_SLOW_SCORE"@) {
        Some(v) => match parse_spec(v, u32::MAX as nat) {
            Some(n) => if n > 0 {
                n as u32
            } else {
                4
            },
            None => 4,
        },
        None => 4,
    }
}

/// How slow a layer must be to be taken off the engine.
pub fn retire_score(settings: &Settings) -> (r: u32)
    ensures
        r == retire_score_of(*settings),
        r >= 1,
{
    match settings.get("QWEN_GDN_ANE_SLOW_SCORE") {
        Some(v) => match parse_unsigned(&chars_of(v), u32::MAX as u64) {
            Some(n) => if n > 0 {
                n as u32
            } else {
                4
            },
            None => 4,
        },
        None => 4,
    }
}

/// A layer that was taken off the engine stays off it.
pub proof fn law_a_disabled_layer_stays_disabled(s: Settings, slow: bool, unloaded: bool)
    ensures
        GdnAneState::Disabled.sampled(s, slow, unloaded) == (GdnAneState::Disabled, false),
{
}

/// A layer that is quick is never taken off for being slow: its score only falls.
pub proof fn law_a_quick_layer_stays(l: GdnAneLayer, s: Settings)
    requires
        !switch_enabled(s.value("QWEN_GDN_ANE_EPHEMERAL"@), false),
        l.slow_score <= retire_score_of(s),
        retire_score_of(s) >= 1,
    ensures
        !GdnAneState::Ready(l).sampled(s, false, true).1,
{
}

/// The first sample alone takes no layer off the engine.
pub proof fn law_one_sample_is_not_enough(l: GdnAneLayer, s: Settings, slow: bool)
    requires
        l.samples == 0,
        !switch_enabled(s.value("QWEN_GDN_ANE_EPHEMERAL"@), false),
    ensures
        !GdnAneState::Ready(l).sampled(s, slow, true).1,
{
}

/// What is to be done next to hand a layer to the engine without waiting for it.
#[derive(Clone, Copy, Debug, PartialEq, Eq, Structural)]
pub enum SubmitStage {
    /// Load the program.
    Load,
    /// Write the input.
    Write,
    /// Advance the event.
    Advance,
    /// Make the event.
    MakeFence,
    /// Open the channel.
    Open(u64),
    /// Submit the request, to signal the value.
    Submit(u64),
    /// It is on its way, and will signal the value.
    Pending(u64),
    /// It was not handed over.
    Declined,
}

impl GdnAneLayer {
    /// Where handing a layer over begins.
    pub open spec fn first_stage(self) -> SubmitStage {
        if !self.gpu_tail {
            SubmitStage::Declined
        } else if !self.loaded {
            SubmitStage::Load
        } else {
            SubmitStage::Write
        }
    }

    /// What follows an event that has a value.
    pub open spec fn signalling(self, value: u64) -> (GdnAneLayer, SubmitStage) {
        (
            GdnAneLayer { fence: Some(value), ..self },
            if self.channel {
                SubmitStage::Submit(value)
            } else {
                SubmitStage::Open(value)
            },
        )
    }

    /// What follows a stage. The reply is the value of the event where the stage is
    /// about it, and nothing where the stage failed.
    pub open spec fn after(self, stage: SubmitStage, reply: Option<u64>) -> (GdnAneLayer, SubmitStage) {
        match (stage, reply) {
            (SubmitStage::Pending(v), _) => (self, stage),
            (_, None) => (self, SubmitStage::Declined),
            (SubmitStage::Load, Some(_)) => (
                GdnAneLayer { loaded: true, ..self },
                SubmitStage::Write,
            ),
            (SubmitStage::Write, Some(_)) => (
                self,
                if self.fence is Some {
                    SubmitStage::Advance
                } else {
                    SubmitStage::MakeFence
                },
            ),
            (SubmitStage::Advance, Some(v)) => self.signalling(v),
            (SubmitStage::MakeFence, Some(_)) => self.signalling(1),
            (SubmitStage::Open(v), Some(_)) => (
                GdnAneLayer { channel: true, ..self },
                SubmitStage::Submit(v),
            ),
            (SubmitStage::Submit(v), Some(_)) => (self, SubmitStage::Pending(v)),
            (SubmitStage::Declined, Some(_)) => (self, SubmitStage::Declined),
        }
    }

    /// Where handing a layer over begins.
    pub fn submit_start(&self) -> (r: SubmitStage)
        ensures
            r == self.first_stage(),
    {
        if !self.gpu_tail {
            SubmitStage::Declined
        } else if !self.loaded {
            SubmitStage::Load
        } else {
            SubmitStage::Write
        }
    }

    /// Goes on to the next stage.
    pub fn submit_step(&mut self, stage: SubmitStage, reply: Option<u64>) -> (r: SubmitStage)
        requires
            old(self).wf(),
        ensures
            (*final(self), r) == old(self).after(stage, reply),
            final(self).wf(),
    {
        let v: u64 = match reply {
            Some(v) => v,
            None => {
                return match stage {
                    SubmitStage::Pending(_) => stage,
                    _ => SubmitStage::Declined,
                };
            },
        };
        match stage {
            SubmitStage::Load => {
                self.loaded = true;
                SubmitStage::Write
            },
            SubmitStage::Write => match self.fence {
                Some(_) => SubmitStage::Advance,
                None => SubmitStage::MakeFence,
            },
            SubmitStage::Advance => self.signal(v),
            SubmitStage::MakeFence => self.signal(1),
            SubmitStage::Open(w) => {
                self.channel = true;
                SubmitStage::Submit(w)
            },
            SubmitStage::Submit(w) => SubmitStage::Pending(w),
            SubmitStage::Pending(_) => stage,
            SubmitStage::Declined => SubmitStage::Declined,
        }
    }

    fn signal(&mut self, value: u64) -> (r: SubmitStage)
        ensures
            (*final(self), r) == old(self).signalling(value),
    {
        self.fence = Some(value);
        if self.channel {
            SubmitStage::Submit(value)
        } else {
            SubmitStage::Open(value)
        }
    }
}

/// What is submitted signals the value that the event was given for it: the one that
/// the device will wait for.
pub proof fn law_a_request_signals_its_event(l: GdnAneLayer, stage: SubmitStage, reply: Option<u64>)
    requires
        stage matches SubmitStage::Open(v) ==> l.fence == Some(v),
        stage matches SubmitStage::Submit(v) ==> l.fence == Some(v),
        stage matches SubmitStage::Pending(v) ==> l.fence == Some(v),
    ensures
        ({
            let (m, next) = l.after(stage, reply);
            &&& next matches SubmitStage::Open(v) ==> m.fence == Some(v)
            &&& next matches SubmitStage::Submit(v) ==> m.fence == Some(v)
            &&& next matches SubmitStage::Pending(v) ==> m.fence == Some(v)
        }),
{
}

/// Why the convolution does not follow on the device.
#[derive(Clone, Copy, Debug, PartialEq, Eq, Structural)]
pub enum ConvFault {
    /// The layer has none there.
    Unavailable,
    /// The vectors are not as long as the layer has channels.
    Shape,
    /// The history is not as long as the layer remembers.
    State,
    /// The device failed.
    Failed,
}

/// What stands against the convolution on the device.
pub open spec fn conv_fault(l: GdnAneLayer, current: int, state: int, y: int) -> Option<ConvFault> {
    if !l.fused {
        Some(ConvFault::Unavailable)
    } else if current != l.qkv_rows || y != l.qkv_rows {
        Some(ConvFault::Shape)
    } else if state != l.qkv_rows * l.history() {
        Some(ConvFault::State)
    } else {
        None
    }
}

impl GdnAneLayer {
    fn remembered(&self) -> (r: usize)
        ensures
            r == self.history(),
    {
        if self.conv_kernel == 0 {
            0
        } else {
            self.conv_kernel - 1
        }
    }

    /// Prepares the convolution on the device: the history goes into the surface in
    /// which the engine left the current samples.
    pub fn conv_prepare(
        &self,
        current: &Vec<u32>,
        state: &Vec<u32>,
        y: &Vec<u32>,
        surface: &mut Vec<u8>,
    ) -> (r: Result<(), ConvFault>)
        requires
            self.wf(),
            self.qkv_rows * 64 <= old(surface)@.len(),
        ensures
            match r {
                Ok(()) => {
                    &&& conv_fault(
                        *self,
                        current@.len() as int,
                        state@.len() as int,
                        y@.len() as int,
                    ) is None
                    &&& final(surface)@ == with_history(
                        old(surface)@,
                        state@,
                        self.qkv_rows as int,
                        self.history(),
                    )
                },
                Err(e) => {
                    &&& conv_fault(
                        *self,
                        current@.len() as int,
                        state@.len() as int,
                        y@.len() as int,
                    ) == Some(e)
                    &&& *final(surface) == *old(surface)
                },
            },
    {
        if !self.fused {
            return Err(ConvFault::Unavailable);
        }
        if current.len() != self.qkv_rows || y.len() != self.qkv_rows {
            return Err(ConvFault::Shape);
        }
        let hist: usize = self.remembered();
        proof {
            assert(surface.len() == surface@.len());
            assert(self.qkv_rows * hist <= self.qkv_rows * 64) by (nonlinear_arith)
                requires
                    hist <= 64,
            ;
        }
        if state.len() != self.qkv_rows * hist {
            return Err(ConvFault::State);
        }
        write_history(surface, state, self.qkv_rows, hist);
        Ok(())
    }

    /// Takes in what came of the convolution: the device's result, and the current
    /// samples into the history. Where the device failed, nothing changes.
    pub fn conv_finish(
        &self,
        result: Option<&Vec<u8>>,
        current: &Vec<u32>,
        state: &mut Vec<u32>,
        y: &mut Vec<u32>,
    ) -> (r: Result<(), ConvFault>)
        requires
            self.wf(),
            conv_fault(
                *self,
                current@.len() as int,
                old(state)@.len() as int,
                old(y)@.len() as int,
            ) is None,
            result matches Some(map) ==> self.qkv_rows * 4 <= map@.len(),
        ensures
            match result {
                Some(map) => {
                    &&& r is Ok
                    &&& final(y)@.len() == self.qkv_rows
                    &&& forall|i: int|
                        0 <= i < self.qkv_rows ==> #[trigger] final(y)@[i] == le(map@, i * 4, 4)
                    &&& final(state)@ == (if self.history() == 0 {
                        old(state)@
                    } else {
                        shifted(current@, old(state)@, self.history())
                    })
                },
                None => {
                    &&& r == Err::<(), ConvFault>(ConvFault::Failed)
                    &&& *final(y) == *old(y)
                    &&& *final(state) == *old(state)
                },
            },
    {
        let map: &Vec<u8> = match result {
            Some(m) => m,
            None => {
                return Err(ConvFault::Failed);
            },
        };
        let mut i: usize = 0;
        while i < self.qkv_rows
            invariant
                i <= self.qkv_rows,
                y@.len() == self.qkv_rows,
                self.qkv_rows * 4 <= map@.len(),
                forall|k: int| 0 <= k < i ==> #[trigger] y@[k] == le(map@, k * 4, 4),
            decreases self.qkv_rows - i,
        {
            proof {
                assert(map.len() == map@.len());
                lemma_bases();
            }
            let v: u64 = read_le(map.as_slice(), i * 4, 4);
            y.set(i, v as u32);
            i = i + 1;
        }
        let hist: usize = self.remembered();
        if hist != 0 {
            shift_conv(current, state, hist);
        }
        Ok(())
    }
}

/// The sizes of the packed program that serves all layers.
#[derive(Clone, Copy, Debug, PartialEq, Eq, Structural)]
pub struct PackedSizes {
    pub qkv_input: usize,
    pub aux_input: usize,
    pub qkv: usize,
    pub z: usize,
    pub ab: usize,
}

/// The sizes of the surfaces of the packed program, where neither of its two inputs is
/// too wide for the engine.
pub fn packed_sizes(
    hidden: usize,
    qkv_rows: usize,
    z_rows: usize,
    ab_rows: usize,
    qkv_spatial: usize,
    aux_spatial: usize,
) -> (r: Option<PackedSizes>)
    requires
        qkv_spatial <= MAX_PACKED_SPATIAL && aux_spatial <= MAX_PACKED_SPATIAL ==> hidden
            * qkv_spatial * 4 <= usize::MAX && hidden * aux_spatial * 4 <= usize::MAX,
        qkv_rows * 64 <= usize::MAX,
        z_rows * 64 <= usize::MAX,
        ab_rows * 64 <= usize::MAX,
    ensures
        r is Some <==> qkv_spatial <= MAX_PACKED_SPATIAL && aux_spatial <= MAX_PACKED_SPATIAL,
        r matches Some(s) ==> {
            &&& s.qkv_input == hidden * qkv_spatial * 4
            &&& s.aux_input == hidden * aux_spatial * 4
            &&& s.qkv == qkv_rows * 64
            &&& s.z == z_rows * 64
            &&& s.ab == ab_rows * 64
        },
{
    if qkv_spatial > MAX_PACKED_SPATIAL || aux_spatial > MAX_PACKED_SPATIAL {
        return None;
    }
    Some(
        PackedSizes {
            qkv_input: hidden * qkv_spatial * 4,
            aux_input: hidden * aux_spatial * 4,
            qkv: qkv_rows * SPATIAL * 4,
            z: z_rows * SPATIAL * 4,
            ab: ab_rows * SPATIAL * 4,
        },
    )
}

/// What is to be done next to evaluate a layer with the packed program.
#[derive(Clone, Copy, Debug, PartialEq, Eq, Structural)]
pub enum PackedStage {
    /// Show the device both input surfaces.
    Import,
    /// Make what packs the weights of this layer on the device.
    MakePacker,
    /// Pack on the device.
    RunPacker,
    /// Pack on the host, one matrix after the other.
    PackQkv,
    PackZ,
    PackA,
    PackB,
    /// Write the input on the host, into both surfaces.
    WriteQkv,
    WriteAux,
    /// Make the two requests.
    RequestQkv,
    RequestAux,
    /// Evaluate them.
    EvaluateQkv,
    EvaluateAux,
    Done,
    /// The input is not as wide as the model.
    WrongWidth,
    Failed,
}

/// What is to be done next to hand a layer to the packed program without waiting.
#[derive(Clone, Copy, Debug, PartialEq, Eq, Structural)]
pub enum FlightStage {
    /// Show the device the input surfaces, one after the other.
    ImportQkv,
    ImportAux,
    /// Make what packs the weights of this layer.
    MakePacker,
    /// Make the event that orders the work.
    MakeFence,
    /// Open the two channels.
    OpenQkv,
    OpenAux,
    /// Advance the event, for the packing to signal.
    AdvancePack,
    /// Begin to pack, to signal the value.
    BeginPack(u64),
    /// Advance the event, for the first request to signal once the packing has.
    AdvanceQkv(u64),
    /// Submit the first request: it waits for the one value and signals the other.
    SubmitQkv(u64, u64),
    /// Advance the event, for the second request to signal once the first has.
    AdvanceAux(u64, u64),
    /// Submit the second request.
    SubmitAux(u64, u64, u64),
    /// All is on its way: the values of the packing and of the two requests.
    Pending(u64, u64, u64),
    /// The input is not as wide as the model.
    WrongWidth,
    Failed,
}

/// What the packed program keeps from layer to layer.
#[derive(Clone, Copy, Debug, PartialEq, Eq, Structural)]
pub struct PackedLink {
    /// The value of the event, once there is one.
    pub fence: Option<u64>,
    pub qkv_channel: bool,
    pub aux_channel: bool,
    /// Whether anything has been handed over yet.
    pub started: bool,
}

/// The packed program that serves all layers.
#[derive(Debug)]
pub struct GdnAneDynamicEngine {
    pub hidden: usize,
    /// Which layers have what packs their weights on the device.
    pub packers: Vec<bool>,
    pub link: PackedLink,
}

/// Whether a layer has what packs its weights.
pub open spec fn has_packer(packers: Seq<bool>, layer: int) -> bool {
    layer < packers.len() && packers[layer]
}

/// The packers once a layer has one.
pub open spec fn with_packer(packers: Seq<bool>, layer: int) -> Seq<bool> {
    Seq::new(
        if layer < packers.len() {
            packers.len()
        } else {
            (layer + 1) as nat
        },
        |i: int| i == layer || has_packer(packers, i),
    )
}

/// What follows a stage of an evaluation. The device is done without where it declines.
pub open spec fn packed_after(stage: PackedStage, ok: bool) -> PackedStage {
    match stage {
        PackedStage::Import => if ok {
            PackedStage::MakePacker
        } else {
            PackedStage::PackQkv
        },
        PackedStage::MakePacker => if ok {
            PackedStage::RunPacker
        } else {
            PackedStage::PackQkv
        },
        PackedStage::RunPacker => if ok {
            PackedStage::RequestQkv
        } else {
            PackedStage::PackQkv
        },
        PackedStage::Done => PackedStage::Done,
        PackedStage::WrongWidth => PackedStage::WrongWidth,
        PackedStage::Failed => PackedStage::Failed,
        _ => if !ok {
            PackedStage::Failed
        } else {
            match stage {
                PackedStage::PackQkv => PackedStage::PackZ,
                PackedStage::PackZ => PackedStage::PackA,
                PackedStage::PackA => PackedStage::PackB,
                PackedStage::PackB => PackedStage::WriteQkv,
                PackedStage::WriteQkv => PackedStage::WriteAux,
                PackedStage::WriteAux => PackedStage::RequestQkv,
                PackedStage::RequestQkv => PackedStage::RequestAux,
                PackedStage::RequestAux => PackedStage::EvaluateQkv,
                PackedStage::EvaluateQkv => PackedStage::EvaluateAux,
                _ => PackedStage::Done,
            }
        },
    }
}

/// How far an evaluation is from its end.
pub open spec fn packed_distance(stage: PackedStage) -> int {
    match stage {
        PackedStage::Import => 13,
        PackedStage::MakePacker => 12,
        PackedStage::RunPacker => 11,
        PackedStage::PackQkv => 10,
        PackedStage::PackZ => 9,
        PackedStage::PackA => 8,
        PackedStage::PackB => 7,
        PackedStage::WriteQkv => 6,
        PackedStage::WriteAux => 5,
        PackedStage::RequestQkv => 4,
        PackedStage::RequestAux => 3,
        PackedStage::EvaluateQkv => 2,
        PackedStage::EvaluateAux => 1,
        _ => 0,
    }
}

/// Where handing a layer over goes on once its weights can be packed.
pub open spec fn linking(link: PackedLink) -> FlightStage {
    if link.fence is None {
        FlightStage::MakeFence
    } else if !link.qkv_channel {
        FlightStage::OpenQkv
    } else if !link.aux_channel {
        FlightStage::OpenAux
    } else if link.started {
        FlightStage::AdvancePack
    } else {
        FlightStage::BeginPack(link.fence->0)
    }
}

/// What follows a stage of handing a layer over. The reply is the value of the event
/// where the stage is about it, and nothing where the stage failed.
pub open spec fn flight_after(link: PackedLink, stage: FlightStage, reply: Option<u64>) -> (
    PackedLink,
    FlightStage,
) {
    match (stage, reply) {
        (FlightStage::Pending(..), _) => (link, stage),
        (FlightStage::WrongWidth, _) => (link, stage),
        (_, None) => (link, FlightStage::Failed),
        (FlightStage::ImportQkv, Some(_)) => (link, FlightStage::ImportAux),
        (FlightStage::ImportAux, Some(_)) => (link, FlightStage::MakePacker),
        (FlightStage::MakePacker, Some(_)) => (link, linking(link)),
        (FlightStage::MakeFence, Some(v)) => {
            let next = PackedLink { fence: Some(v), ..link };
            (next, linking(next))
        },
        (FlightStage::OpenQkv, Some(_)) => {
            let next = PackedLink { qkv_channel: true, ..link };
            (next, linking(next))
        },
        (FlightStage::OpenAux, Some(_)) => {
            let next = PackedLink { aux_channel: true, ..link };
            (next, linking(next))
        },
        (FlightStage::AdvancePack, Some(v)) => (
            PackedLink { fence: Some(v), ..link },
            FlightStage::BeginPack(v),
        ),
        (FlightStage::BeginPack(p), Some(_)) => (
            PackedLink { started: true, ..link },
            FlightStage::AdvanceQkv(p),
        ),
        (FlightStage::AdvanceQkv(p), Some(v)) => (
            PackedLink { fence: Some(v), ..link },
            FlightStage::SubmitQkv(p, v),
        ),
        (FlightStage::SubmitQkv(p, q), Some(_)) => (link, FlightStage::AdvanceAux(p, q)),
        (FlightStage::AdvanceAux(p, q), Some(v)) => (
            PackedLink { fence: Some(v), ..link },
            FlightStage::SubmitAux(p, q, v),
        ),
        (FlightStage::SubmitAux(p, q, a), Some(_)) => (link, FlightStage::Pending(p, q, a)),
        (FlightStage::Failed, Some(_)) => (link, FlightStage::Failed),
    }
}

fn link_next(link: &PackedLink) -> (r: FlightStage)
    ensures
        r == linking(*link),
{
    match link.fence {
        None => FlightStage::MakeFence,
        Some(v) => if !link.qkv_channel {
            FlightStage::OpenQkv
        } else if !link.aux_channel {
            FlightStage::OpenAux
        } else if link.started {
            FlightStage::AdvancePack
        } else {
            FlightStage::BeginPack(v)
        },
    }
}

impl GdnAneDynamicEngine {
    /// The program before any layer.
    pub fn new(hidden: usize) -> (r: GdnAneDynamicEngine)
        ensures
            r.hidden == hidden,
            r.packers@ == Seq::<bool>::empty(),
            r.link == (PackedLink {
                fence: None,
                qkv_channel: false,
                aux_channel: false,
                started: false,
            }),
    {
        GdnAneDynamicEngine {
            hidden,
            packers: Vec::new(),
            link: PackedLink { fence: None, qkv_channel: false, aux_channel: false, started: false },
        }
    }

    fn packs(&self, layer: usize) -> (r: bool)
        ensures
            r == has_packer(self.packers@, layer as int),
    {
        layer < self.packers.len() && self.packers[layer]
    }

    fn add_packer(&mut self, layer: usize)
        requires
            layer < usize::MAX,
        ensures
            final(self).packers@ == with_packer(old(self).packers@, layer as int),
            final(self).hidden == old(self).hidden,
            final(self).link == old(self).link,
    {
        let ghost start = self.packers@;
        while self.packers.len() <= layer
            invariant
                layer < usize::MAX,
                self.hidden == old(self).hidden,
                self.link == old(self).link,
                start == old(self).packers@,
                start.len() <= self.packers@.len(),
                self.packers@.len() <= layer + 1 || self.packers@.len() == start.len(),
                forall|i: int| 0 <= i < start.len() ==> #[trigger] self.packers@[i] == start[i],
                forall|i: int| start.len() <= i < self.packers@.len() ==> !#[trigger] self.packers@[i],
            decreases layer + 1 - self.packers@.len(),
        {
            self.packers.push(false);
        }
        self.packers.set(layer, true);
        assert(self.packers@ =~= with_packer(start, layer as int));
    }

    /// Where the evaluation of a layer begins.
    pub fn evaluate_start(&self, settings: &Settings, layer: usize, input: usize) -> (r: PackedStage)
        ensures
            r == (if input != self.hidden {
                PackedStage::WrongWidth
            } else if !switch_enabled(settings.value("QWEN_GDN_ANE_DYNAMIC_GPU_PACK"@), true) {
                PackedStage::PackQkv
            } else if has_packer(self.packers@, layer as int) {
                PackedStage::RunPacker
            } else {
                PackedStage::Import
            }),
    {
        if input != self.hidden {
            PackedStage::WrongWidth
        } else if !settings.enabled("QWEN_GDN_ANE_DYNAMIC_GPU_PACK", true) {
            PackedStage::PackQkv
        } else if self.packs(layer) {
            PackedStage::RunPacker
        } else {
            PackedStage::Import
        }
    }

    /// Goes on to the next stage of an evaluation.
    pub fn evaluate_step(&mut self, layer: usize, stage: PackedStage, ok: bool) -> (r: PackedStage)
        requires
            layer < usize::MAX,
        ensures
            r == packed_after(stage, ok),
            final(self).packers@ == (if stage is MakePacker && ok {
                with_packer(old(self).packers@, layer as int)
            } else {
                old(self).packers@
            }),
            final(self).hidden == old(self).hidden,
            final(self).link == old(self).link,
    {
        let next: PackedStage = match stage {
            PackedStage::Import => PackedStage::MakePacker,
            PackedStage::MakePacker => PackedStage::RunPacker,
            PackedStage::RunPacker => PackedStage::RequestQkv,
            PackedStage::PackQkv => PackedStage::PackZ,
            PackedStage::PackZ => PackedStage::PackA,
            PackedStage::PackA => PackedStage::PackB,
            PackedStage::PackB => PackedStage::WriteQkv,
            PackedStage::WriteQkv => PackedStage::WriteAux,
            PackedStage::WriteAux => PackedStage::RequestQkv,
            PackedStage::RequestQkv => PackedStage::RequestAux,
            PackedStage::RequestAux => PackedStage::EvaluateQkv,
            PackedStage::EvaluateQkv => PackedStage::EvaluateAux,
            PackedStage::EvaluateAux => PackedStage::Done,
            PackedStage::Done => {
                return stage;
            },
            PackedStage::WrongWidth => {
                return stage;
            },
            PackedStage::Failed => {
                return stage;
            },
        };
        if ok {
            match stage {
                PackedStage::MakePacker => self.add_packer(layer),
                _ => {},
            }
            return next;
        }
        match stage {
            PackedStage::Import | PackedStage::MakePacker | PackedStage::RunPacker => {
                PackedStage::PackQkv
            },
            _ => PackedStage::Failed,
        }
    }

    /// Where handing a layer over begins.
    pub fn evaluate_async_start(&self, layer: usize, input: usize) -> (r: FlightStage)
        ensures
            r == (if input != self.hidden {
                FlightStage::WrongWidth
            } else if has_packer(self.packers@, layer as int) {
                linking(self.link)
            } else {
                FlightStage::ImportQkv
            }),
    {
        if input != self.hidden {
            FlightStage::WrongWidth
        } else if self.packs(layer) {
            link_next(&self.link)
        } else {
            FlightStage::ImportQkv
        }
    }

    /// Goes on to the next stage of handing a layer over.
    pub fn evaluate_async_step(&mut self, layer: usize, stage: FlightStage, reply: Option<u64>) -> (r:
        FlightStage)
        requires
            layer < usize::MAX,
        ensures
            (final(self).link, r) == flight_after(old(self).link, stage, reply),
            final(self).packers@ == (if stage is MakePacker && reply is Some {
                with_packer(old(self).packers@, layer as int)
            } else {
                old(self).packers@
            }),
            final(self).hidden == old(self).hidden,
    {
        let v: u64 = match reply {
            Some(v) => v,
            None => {
                return match stage {
                    FlightStage::Pending(..) => stage,
                    FlightStage::WrongWidth => stage,
                    _ => FlightStage::Failed,
                };
            },
        };
        match stage {
            FlightStage::ImportQkv => FlightStage::ImportAux,
            FlightStage::ImportAux => FlightStage::MakePacker,
            FlightStage::MakePacker => {
                self.add_packer(layer);
                link_next(&self.link)
            },
            FlightStage::MakeFence => {
                self.link.fence = Some(v);
                link_next(&self.link)
            },
            FlightStage::OpenQkv => {
                self.link.qkv_channel = true;
                link_next(&self.link)
            },
            FlightStage::OpenAux => {
                self.link.aux_channel = true;
                link_next(&self.link)
            },
            FlightStage::AdvancePack => {
                self.link.fence = Some(v);
                FlightStage::BeginPack(v)
            },
            FlightStage::BeginPack(p) => {
                self.link.started = true;
                FlightStage::AdvanceQkv(p)
            },
            FlightStage::AdvanceQkv(p) => {
                self.link.fence = Some(v);
                FlightStage::SubmitQkv(p, v)
            },
            FlightStage::SubmitQkv(p, q) => FlightStage::AdvanceAux(p, q),
            FlightStage::AdvanceAux(p, q) => {
                self.link.fence = Some(v);
                FlightStage::SubmitAux(p, q, v)
            },
            FlightStage::SubmitAux(p, q, a) => FlightStage::Pending(p, q, a),
            FlightStage::Pending(..) => stage,
            FlightStage::WrongWidth => stage,
            FlightStage::Failed => stage,
        }
    }
}

/// Every evaluation comes to an end, whatever the device and the engine say.
pub proof fn law_every_evaluation_ends(stage: PackedStage, ok: bool)
    requires
        packed_distance(stage) > 0,
    ensures
        0 <= packed_distance(packed_after(stage, ok)) < packed_distance(stage),
{
}

/// A device that declines to pack never makes an evaluation fail: the host packs.
pub proof fn law_the_host_packs_what_the_device_declines(stage: PackedStage)
    requires
        stage is Import || stage is MakePacker || stage is RunPacker,
    ensures
        packed_after(stage, false) is PackQkv,
{
}

/// What packs the weights of a layer is made once, and those of other layers stay.
pub proof fn law_a_packer_is_made_once(packers: Seq<bool>, layer: int, other: int)
    requires
        layer >= 0,
        other >= 0,
    ensures
        has_packer(with_packer(packers, layer), layer),
        other != layer ==> has_packer(with_packer(packers, layer), other) == has_packer(packers, other),
        with_packer(with_packer(packers, layer), layer) == with_packer(packers, layer),
{
    assert(with_packer(with_packer(packers, layer), layer) =~= with_packer(packers, layer));
}

/// The values that the event has been given stay in order.
pub open spec fn flight_in_order(link: PackedLink, stage: FlightStage) -> bool {
    match stage {
        FlightStage::BeginPack(p) => link.fence == Some(p),
        FlightStage::AdvanceQkv(p) => link.fence == Some(p),
        FlightStage::SubmitQkv(p, q) => p < q && link.fence == Some(q),
        FlightStage::AdvanceAux(p, q) => p < q && link.fence == Some(q),
        FlightStage::SubmitAux(p, q, a) => p < q && q < a && link.fence == Some(a),
        FlightStage::Pending(p, q, a) => p < q && q < a && link.fence == Some(a),
        FlightStage::AdvancePack => link.fence is Some,
        FlightStage::OpenQkv => link.fence is Some,
        FlightStage::OpenAux => link.fence is Some,
        _ => true,
    }
}

/// As long as every advance of the event makes its value larger, the packing comes
/// before the first request and the first request before the second.
pub proof fn law_work_is_done_in_order(link: PackedLink, stage: FlightStage, reply: Option<u64>)
    requires
        flight_in_order(link, stage),
        (stage is AdvancePack || stage is AdvanceQkv || stage is AdvanceAux) && reply is Some
            ==> link.fence is Some && reply->0 > link.fence->0,
    ensures
        ({
            let (next, s) = flight_after(link, stage, reply);
            flight_in_order(next, s)
        }),
{
}

} // verus!
