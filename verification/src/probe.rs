//! One expert of a checkpoint, read on its own: where its matrices lie in a shard, and
//! which number every code of them stands for.
//!
//! A matrix is stored as four-bit codes, eight to a word and the low ones first, with
//! one scale for every thirty-two columns.

use vstd::prelude::*;
use vstd::string::*;

use crate::json::{as_array_spec, as_u64_spec, member, Json, JsonView};
use crate::safetensors::{ends_in, ends_with, numbers, read_numbers};
use crate::settings::Settings;
use crate::text::{
    chars_of, decimal, parse_spec, parse_unsigned, push_decimal, same_text, starts_with,
    starts_with_spec,
};

verus! {

/// Whether a file of a checkpoint is a shard of it.
pub fn is_shard_name(name: &str) -> (r: bool)
    ensures
        r == (starts_with_spec(name@, "model-"@) && ends_in(name@, ".safetensors"@)),
{
    starts_with(name, "model-") && ends_with(name, ".safetensors")
}

/// The name of a projection of all experts of a layer.
pub open spec fn projection_text(layer: nat, projection: Seq<char>) -> Seq<char> {
    "language_model.model.layers."@ + decimal(layer) + ".mlp.switch_mlp."@ + projection
}

/// The name of a projection of all experts of a layer.
pub fn projection_name(layer: u32, projection: &str) -> (r: String)
    ensures
        r@ == projection_text(layer as nat, projection@),
{
    let mut s: String = String::from_str("language_model.model.layers.");
    push_decimal(&mut s, layer as u64);
    s.append(".mlp.switch_mlp.");
    s.append(projection);
    s
}

/// Where a projection of one expert lies in its shard.
#[derive(Clone, Copy, Debug, PartialEq, Eq, Structural)]
pub struct ExpertSlice {
    pub weights_at: u64,
    pub weights: u64,
    pub scales_at: u64,
    pub scales: u64,
    pub rows: u64,
    /// Words in a row.
    pub words: u64,
}

/// What a shard says of a projection of one expert.
#[derive(Clone, Copy, Debug, PartialEq, Eq, Structural)]
pub enum Located {
    /// It does not have it.
    Absent,
    /// What it says makes no sense.
    Malformed,
    At(ExpertSlice),
}

/// The numbers of a list under a name.
pub open spec fn list_under(v: JsonView, name: Seq<char>) -> Option<Seq<u64>> {
    match as_array_spec(member(v, name)) {
        Some(a) => numbers(a),
        None => None,
    }
}

/// Where the data of a tensor begins.
pub open spec fn begins_at(v: JsonView) -> Option<u64> {
    match as_array_spec(member(v, "data_offsets"@)) {
        Some(a) => if a.len() > 0 {
            as_u64_spec(Some(a[0]))
        } else {
            None
        },
        None => None,
    }
}

/// Where an expert of a tensor begins in its file.
pub open spec fn expert_begins(header: nat, begin: u64, expert: nat, size: nat) -> nat {
    8 + header + begin as nat + expert * size
}

/// What a header says of a projection of one expert, where both tensors are there.
pub open spec fn located_in(w: JsonView, s: JsonView, header: nat, expert: nat) -> Located {
    match (list_under(w, "shape"@), list_under(s, "shape"@)) {
        (Some(wshape), Some(sshape)) => if wshape.len() != 3 || expert >= wshape[0] {
            Located::Absent
        } else if sshape.len() < 3 {
            Located::Malformed
        } else {
            let size = (wshape[1] * wshape[2] * 4) as nat;
            let groups = (sshape[2] * sshape[1]) as nat;
            let per = groups / (if sshape[0] == 0 {
                1nat
            } else {
                sshape[0] as nat
            });
            match (begins_at(w), begins_at(s)) {
                (Some(a), Some(b)) => if size <= u64::MAX && groups <= u64::MAX && expert_begins(
                    header,
                    a,
                    expert,
                    size,
                ) <= u64::MAX && expert_begins(header, b, expert, per) <= u64::MAX {
                    Located::At(
                        ExpertSlice {
                            weights_at: expert_begins(header, a, expert, size) as u64,
                            weights: size as u64,
                            scales_at: expert_begins(header, b, expert, per) as u64,
                            scales: per as u64,
                            rows: wshape[1],
                            words: wshape[2],
                        },
                    )
                } else {
                    Located::Malformed
                },
                _ => Located::Malformed,
            }
        },
        _ => Located::Malformed,
    }
}

/// What a header says of a projection of one expert.
pub open spec fn located(doc: JsonView, header: nat, name: Seq<char>, expert: nat) -> Located {
    match (member(doc, name + ".weight"@), member(doc, name + ".scales"@)) {
        (Some(w), Some(s)) => located_in(w, s, header, expert),
        _ => Located::Absent,
    }
}

fn read_list(v: &Json, name: &str) -> (r: Option<Vec<u64>>)
    ensures
        match r {
            Some(a) => list_under(v@, name@) == Some(a@),
            None => list_under(v@, name@) is None,
        },
{
    match v.get_array(name) {
        Some(a) => read_numbers(a),
        None => None,
    }
}

fn read_begin(v: &Json) -> (r: Option<u64>)
    ensures
        r == begins_at(v@),
{
    match v.get_array("data_offsets") {
        Some(a) => if a.len() > 0 {
            a[0].as_u64()
        } else {
            None
        },
        None => None,
    }
}

fn place(header: u64, begin: u64, expert: u32, size: u64) -> (r: Option<u64>)
    ensures
        match r {
            Some(p) => p == expert_begins(header as nat, begin, expert as nat, size as nat),
            None => expert_begins(header as nat, begin, expert as nat, size as nat) > u64::MAX,
        },
{
    proof {
        let (e, s) = (expert as int, size as int);
        assert(e * s >= 0) by (nonlinear_arith)
            requires
                e >= 0,
                s >= 0,
        ;
    }
    let skip: u64 = match (expert as u64).checked_mul(size) {
        Some(n) => n,
        None => {
            return None;
        },
    };
    match header.checked_add(8) {
        Some(a) => match a.checked_add(begin) {
            Some(b) => b.checked_add(skip),
            None => None,
        },
        None => None,
    }
}

/// Where a projection of one expert lies, as the header of a shard says.
pub fn locate_expert(doc: &Json, header: u64, name: &str, expert: u32) -> (r: Located)
    ensures
        r == located(doc@, header as nat, name@, expert as nat),
{
    let mut weight: String = String::from_str(name);
    weight.append(".weight");
    let mut scales: String = String::from_str(name);
    scales.append(".scales");
    let (w, s): (&Json, &Json) = match (doc.get(weight.as_str()), doc.get(scales.as_str())) {
        (Some(w), Some(s)) => (w, s),
        _ => {
            return Located::Absent;
        },
    };
    let (wshape, sshape): (Vec<u64>, Vec<u64>) = match (read_list(w, "shape"), read_list(s, "shape")) {
        (Some(a), Some(b)) => (a, b),
        _ => {
            return Located::Malformed;
        },
    };
    if wshape.len() != 3 || expert as u64 >= wshape[0] {
        return Located::Absent;
    }
    if sshape.len() < 3 {
        return Located::Malformed;
    }
    let (begin, sbegin): (u64, u64) = match (read_begin(w), read_begin(s)) {
        (Some(a), Some(b)) => (a, b),
        _ => {
            return Located::Malformed;
        },
    };
    let cells: u64 = match wshape[1].checked_mul(wshape[2]) {
        Some(n) => n,
        None => {
            return Located::Malformed;
        },
    };
    let size: u64 = match cells.checked_mul(4) {
        Some(n) => n,
        None => {
            return Located::Malformed;
        },
    };
    let groups: u64 = match sshape[2].checked_mul(sshape[1]) {
        Some(n) => n,
        None => {
            return Located::Malformed;
        },
    };
    let share: u64 = if sshape[0] == 0 {
        1
    } else {
        sshape[0]
    };
    let per: u64 = groups / share;
    match (place(header, begin, expert, size), place(header, sbegin, expert, per)) {
        (Some(a), Some(b)) => Located::At(
            ExpertSlice {
                weights_at: a,
                weights: size,
                scales_at: b,
                scales: per,
                rows: wshape[1],
                words: wshape[2],
            },
        ),
        _ => Located::Malformed,
    }
}

/// The code of a column.
pub open spec fn code_at(weights: Seq<u8>, col: int) -> int {
    if col % 2 == 0 {
        weights[col / 2] as int % 16
    } else {
        weights[col / 2] as int / 16
    }
}

/// The scale of a column: one where none is stored.
pub open spec fn scale_at(scales: Seq<u8>, col: int) -> int {
    if col / 32 < scales.len() {
        scales[col / 32] as int
    } else {
        127
    }
}

/// The pattern of a code times a power of two: `code % 8` picks one of 0, 0.5, 1, 1.5,
/// 2, 3, 4 and 6, `code / 8` the sign, and the scale is the exponent field of a single.
/// There is none for zero times infinity.
pub open spec fn scaled(code: int, scale: int) -> Option<u32> {
    let m = code % 8;
    let sign = if code >= 8 {
        0x8000_0000int
    } else {
        0
    };
    let half = if m == 3 || m == 5 || m == 7 {
        0x40_0000int
    } else {
        0
    };
    let e = scale + (if m == 1 {
        -1int
    } else if m < 4 {
        0int
    } else if m < 6 {
        1int
    } else {
        2int
    });
    if m == 0 && scale == 255 {
        None
    } else if m == 0 || scale == 0 {
        Some(sign as u32)
    } else if scale == 255 || e >= 255 {
        Some((sign + 0x7f80_0000) as u32)
    } else if e == 0 {
        Some((sign + 0x40_0000) as u32)
    } else {
        Some((sign + e * 0x80_0000 + half) as u32)
    }
}

/// The pattern of a code times a power of two.
pub fn scale_code(code: u8, scale: u8) -> (r: Option<u32>)
    requires
        code < 16,
    ensures
        r == scaled(code as int, scale as int),
{
    let m: u8 = code % 8;
    let sign: u32 = if code >= 8 {
        0x8000_0000
    } else {
        0
    };
    if m == 0 {
        return if scale == 255 {
            None
        } else {
            Some(sign)
        };
    }
    if scale == 0 {
        return Some(sign);
    }
    let half: u32 = if m == 3 || m == 5 || m == 7 {
        0x40_0000
    } else {
        0
    };
    let e: u32 = if m == 1 {
        scale as u32 - 1
    } else if m < 4 {
        scale as u32
    } else if m < 6 {
        scale as u32 + 1
    } else {
        scale as u32 + 2
    };
    if scale == 255 || e >= 255 {
        Some(sign + 0x7f80_0000)
    } else if e == 0 {
        Some(sign + 0x40_0000)
    } else {
        Some(sign + e * 0x80_0000 + half)
    }
}

/// The numbers that the codes of a matrix stand for, one for every column of every row.
pub fn decode_expert(weights: &Vec<u8>, scales: &Vec<u8>) -> (r: Vec<Option<u32>>)
    requires
        weights@.len() * 2 <= usize::MAX,
    ensures
        r@.len() == weights@.len() * 2,
        forall|col: int|
            0 <= col < r@.len() ==> #[trigger] r@[col] == scaled(
                code_at(weights@, col),
                scale_at(scales@, col),
            ),
{
    let mut r: Vec<Option<u32>> = Vec::new();
    let n: usize = weights.len() * 2;
    let mut col: usize = 0;
    while col < n
        invariant
            n == weights@.len() * 2,
            col <= n,
            r@.len() == col,
            forall|k: int|
                0 <= k < col ==> #[trigger] r@[k] == scaled(
                    code_at(weights@, k),
                    scale_at(scales@, k),
                ),
        decreases n - col,
    {
        let b: u8 = weights[col / 2];
        let code: u8 = if col % 2 == 0 {
            b % 16
        } else {
            b / 16
        };
        let scale: u8 = if col / 32 < scales.len() {
            scales[col / 32]
        } else {
            127
        };
        r.push(scale_code(code, scale));
        col = col + 1;
    }
    r
}

/// Zero is zero whatever its scale, and doubling the scale of any other code adds one to
/// the exponent, as long as the result is an ordinary number.
pub proof fn law_a_scale_is_a_power_of_two(code: int, scale: int)
    requires
        0 <= code < 16,
        2 <= scale < 252,
    ensures
        code % 8 == 0 ==> scaled(code, scale) == scaled(code, scale + 1),
        code % 8 != 0 ==> scaled(code, scale + 1)->0 == scaled(code, scale)->0 + 0x80_0000,
{
}

/// What the program that compares an expert is asked.
#[derive(Debug)]
pub struct ProbeArgs {
    pub coordinator: String,
    pub model: String,
    pub layer: u32,
    pub expert: u32,
    pub family: String,
}

/// Why the program cannot start.
#[derive(Clone, Copy, Debug, PartialEq, Eq, Structural)]
pub enum ProbeFault {
    Layer,
    Expert,
    /// An option stands at the end without a value.
    NoValue,
}

/// A path with the home directory in place of a tilde at its head.
pub open spec fn expanded(path: Seq<char>, home: Option<Seq<char>>) -> Seq<char> {
    if starts_with_spec(path, "~/"@) {
        match home {
            Some(h) => h + "/"@ + path.skip(2),
            None => path,
        }
    } else {
        path
    }
}

/// A path with the home directory in place of a tilde at its head.
pub fn shellexpand(path: &str, settings: &Settings) -> (r: String)
    ensures
        r@ == expanded(path@, settings.value("HOME"@)),
{
    if !starts_with(path, "~/") {
        return String::from_str(path);
    }
    proof {
        reveal_strlit("~/");
    }
    let home: &str = match settings.get("HOME") {
        Some(h) => h,
        None => {
            return String::from_str(path);
        },
    };
    let mut out: String = String::from_str(home);
    out.append("/");
    let c: Vec<char> = chars_of(path);
    assert(c@.len() >= 2);
    out.append(path.substring_char(2, c.len()));
    assert(path@.subrange(2, path@.len() as int) =~= path@.skip(2));
    out
}

/// The arguments that are asked for, by name.
pub struct ArgsView {
    pub coordinator: Seq<char>,
    pub model: Seq<char>,
    pub layer: u32,
    pub expert: u32,
    pub family: Seq<char>,
}

impl View for ProbeArgs {
    type V = ArgsView;

    open spec fn view(&self) -> ArgsView {
        ArgsView {
            coordinator: self.coordinator@,
            model: self.model@,
            layer: self.layer,
            expert: self.expert,
            family: self.family@,
        }
    }
}

/// What the arguments from a place on ask for, given what was asked before. An argument
/// that is none of the options ends the list.
pub open spec fn args_from(
    args: Seq<Seq<char>>,
    i: int,
    home: Option<Seq<char>>,
    so_far: ArgsView,
) -> Result<ArgsView, ProbeFault>
    decreases args.len() - i,
{
    if i < 0 || i >= args.len() {
        Ok(so_far)
    } else {
        let known = args[i] == "--coordinator"@ || args[i] == "--model"@ || args[i] == "--layer"@
            || args[i] == "--expert"@ || args[i] == "--family"@;
        if !known {
            Ok(so_far)
        } else if i + 1 >= args.len() {
            Err(ProbeFault::NoValue)
        } else {
            let v = args[i + 1];
            if args[i] == "--coordinator"@ {
                args_from(args, i + 2, home, ArgsView { coordinator: v, ..so_far })
            } else if args[i] == "--model"@ {
                args_from(args, i + 2, home, ArgsView { model: expanded(v, home), ..so_far })
            } else if args[i] == "--layer"@ {
                match parse_spec(v, u32::MAX as nat) {
                    Some(n) => args_from(args, i + 2, home, ArgsView { layer: n as u32, ..so_far }),
                    None => Err(ProbeFault::Layer),
                }
            } else if args[i] == "--expert"@ {
                match parse_spec(v, u32::MAX as nat) {
                    Some(n) => args_from(args, i + 2, home, ArgsView { expert: n as u32, ..so_far }),
                    None => Err(ProbeFault::Expert),
                }
            } else {
                args_from(args, i + 2, home, ArgsView { family: v, ..so_far })
            }
        }
    }
}

/// What the program is asked for before any argument.
pub open spec fn args_before(s: Settings) -> ArgsView {
    ArgsView {
        coordinator: match s.value("LOGAN_POOL_COORDINATOR"@) {
            Some(v) => v,
            None => "http://127.0.0.1:8080"@,
        },
        model: match s.value("LOGAN_POOL_MODEL"@) {
            Some(v) => v,
            None => "~/models/Qwen3.6-35B-A3B-mxfp4"@,
        },
        layer: 34,
        expert: 3,
        family: "qwen36"@,
    }
}

/// The views of a list of texts.
pub open spec fn args_seen(v: Seq<String>) -> Seq<Seq<char>> {
    v.map_values(|s: String| s@)
}

/// What the program is asked for: the settings, and then its arguments after its name.
pub fn probe_args(args: &Vec<String>, settings: &Settings) -> (r: Result<ProbeArgs, ProbeFault>)
    ensures
        match r {
            Ok(p) => args_from(
                args_seen(args@),
                1,
                settings.value("HOME"@),
                args_before(*settings),
            ) == Ok::<ArgsView, ProbeFault>(p@),
            Err(e) => args_from(
                args_seen(args@),
                1,
                settings.value("HOME"@),
                args_before(*settings),
            ) == Err::<ArgsView, ProbeFault>(e),
        },
{
    let mut p: ProbeArgs = ProbeArgs {
        coordinator: String::from_str(
            settings.text("LOGAN_POOL_COORDINATOR", "http://127.0.0.1:8080"),
        ),
        model: String::from_str(settings.text("LOGAN_POOL_MODEL", "~/models/Qwen3.6-35B-A3B-mxfp4")),
        layer: 34,
        expert: 3,
        family: String::from_str("qwen36"),
    };
    let ghost seen = args_seen(args@);
    let ghost home = settings.value("HOME"@);
    let ghost want = args_from(seen, 1, home, args_before(*settings));
    let mut i: usize = 1;
    proof {
        assert(p@ == args_before(*settings));
    }
    while i < args.len()
        invariant
            seen == args_seen(args@),
            home == settings.value("HOME"@),
            want == args_from(seen, 1, home, args_before(*settings)),
            i >= 1,
            want == args_from(seen, i as int, home, p@),
        decreases args@.len() - i,
    {
        assert(args.len() == args@.len());
        proof {
            assert(seen[i as int] == args@[i as int]@);
            reveal_strlit("--coordinator");
            reveal_strlit("--model");
            reveal_strlit("--layer");
            reveal_strlit("--expert");
            reveal_strlit("--family");
        }
        let is_coordinator: bool = same_text(args[i].as_str(), "--coordinator");
        let is_model: bool = same_text(args[i].as_str(), "--model");
        let is_layer: bool = same_text(args[i].as_str(), "--layer");
        let is_expert: bool = same_text(args[i].as_str(), "--expert");
        let is_family: bool = same_text(args[i].as_str(), "--family");
        if !(is_coordinator || is_model || is_layer || is_expert || is_family) {
            return Ok(p);
        }
        if i + 1 >= args.len() {
            return Err(ProbeFault::NoValue);
        }
        assert(seen[i + 1] == args@[i + 1]@);
        let v: &str = args[i + 1].as_str();
        if is_coordinator {
            p.coordinator = String::from_str(v);
        } else if is_model {
            p.model = shellexpand(v, settings);
        } else if is_layer {
            match parse_unsigned(&chars_of(v), u32::MAX as u64) {
                Some(n) => {
                    p.layer = n as u32;
                },
                None => {
                    return Err(ProbeFault::Layer);
                },
            }
        } else if is_expert {
            match parse_unsigned(&chars_of(v), u32::MAX as u64) {
                Some(n) => {
                    p.expert = n as u32;
                },
                None => {
                    return Err(ProbeFault::Expert);
                },
            }
        } else {
            p.family = String::from_str(v);
        }
        i = i + 2;
    }
    Ok(p)
}

/// A byte of an expert's weights is the codes of two columns, the even one in its lower half, and
/// thirty-two columns share a scale.
pub proof fn law_two_codes_make_up_a_byte(weights: Seq<u8>, scales: Seq<u8>, k: int, g: int, i: int)
    requires
        0 <= k < weights.len(),
        0 <= g,
        0 <= i < 32,
    ensures
        weights[k] == code_at(weights, 2 * k) + 16 * code_at(weights, 2 * k + 1),
        0 <= code_at(weights, 2 * k) < 16,
        g < scales.len() ==> scale_at(scales, 32 * g + i) == scales[g],
        g >= scales.len() ==> scale_at(scales, 32 * g + i) == 127,
{
    assert((2 * k) / 2 == k && (2 * k + 1) / 2 == k && (32 * g + i) / 32 == g);
}

/// Twice the size of a code's number before it is scaled.
pub open spec fn twice_the_size(code: int) -> int {
    seq![0int, 1, 2, 3, 4, 6, 8, 12][code % 8]
}

/// A code stands for its number times two to the power of its scale less 127: the pattern has that many
/// parts of its own power of two, and its sign.
pub proof fn law_a_pattern_is_the_scaled_number(code: int, scale: int)
    requires
        0 <= code < 16,
        2 <= scale <= 252,
        code % 8 != 0,
    ensures
        scaled(code, scale) is Some,
        ({
            let bits = scaled(code, scale)->0 as int;
            let size = bits % 0x8000_0000;
            let e = size / 0x80_0000;
            let part = 0x80_0000 + size % 0x80_0000;
            &&& bits >= 0x8000_0000 <==> code >= 8
            &&& scale - 1 <= e <= scale + 2
            &&& e == scale - 1 ==> part == twice_the_size(code) * 0x80_0000
            &&& e == scale ==> part * 2 == twice_the_size(code) * 0x80_0000
            &&& e == scale + 1 ==> part * 4 == twice_the_size(code) * 0x80_0000
            &&& e == scale + 2 ==> part * 8 == twice_the_size(code) * 0x80_0000
        }),
{
    let m = code % 8;
    assert(m == 1 || m == 2 || m == 3 || m == 4 || m == 5 || m == 6 || m == 7);
}

/// The experts of a projection stand one behind the other, their weights behind the header and their scales
/// likewise.
pub proof fn law_experts_stand_one_behind_the_other(w: JsonView, s: JsonView, header: nat, expert: nat)
    requires
        located_in(w, s, header, expert) is At,
        located_in(w, s, header, expert + 1) is At,
        located_in(w, s, header, 0) is At,
    ensures
        ({
            let a = located_in(w, s, header, expert)->At_0;
            let b = located_in(w, s, header, expert + 1)->At_0;
            let first = located_in(w, s, header, 0)->At_0;
            &&& a.weights_at + a.weights == b.weights_at
            &&& a.scales_at + a.scales == b.scales_at
            &&& a.weights == a.rows * a.words * 4
            &&& (a.rows, a.words, a.weights, a.scales) == (b.rows, b.words, b.weights, b.scales)
            &&& begins_at(w) == Some((first.weights_at - 8 - header) as u64)
            &&& begins_at(s) == Some((first.scales_at - 8 - header) as u64)
        }),
{
    let a = located_in(w, s, header, expert)->At_0;
    let (x, y) = (a.weights as int, a.scales as int);
    assert((expert + 1) * x == expert * x + x) by (nonlinear_arith);
    assert((expert + 1) * y == expert * y + y) by (nonlinear_arith);
    assert(0 * x == 0 && 0 * y == 0) by (nonlinear_arith);
}

/// What stands behind an option is its value, a later one counts in place of an earlier one, and the first
/// thing that is no option ends them.
pub proof fn law_what_stands_behind_an_option(
    args: Seq<Seq<char>>,
    i: int,
    home: Option<Seq<char>>,
    a: ArgsView,
    n: nat,
)
    requires
        0 <= i,
        i + 1 < args.len(),
    ensures
        args[i] == "--coordinator"@ ==> args_from(args, i, home, a) == args_from(
            args,
            i + 2,
            home,
            ArgsView { coordinator: args[i + 1], ..a },
        ),
        args[i] == "--family"@ ==> args_from(args, i, home, a) == args_from(
            args,
            i + 2,
            home,
            ArgsView { family: args[i + 1], ..a },
        ),
        args[i] == "--model"@ && home is None ==> args_from(args, i, home, a) == args_from(
            args,
            i + 2,
            home,
            ArgsView { model: args[i + 1], ..a },
        ),
        args[i] == "--layer"@ && args[i + 1] == decimal(n) && n <= u32::MAX ==> args_from(args, i, home, a)
            == args_from(args, i + 2, home, ArgsView { layer: n as u32, ..a }),
        args[i] == "--expert"@ && args[i + 1] == decimal(n) && n <= u32::MAX ==> args_from(args, i, home, a)
            == args_from(args, i + 2, home, ArgsView { expert: n as u32, ..a }),
        args[i].len() < 7 ==> args_from(args, i, home, a) == Ok::<ArgsView, ProbeFault>(a),
{
    crate::text::law_a_number_reads_back(n, u32::MAX as nat);
    reveal_strlit("--coordinator");
    reveal_strlit("--model");
    reveal_strlit("--layer");
    reveal_strlit("--expert");
    reveal_strlit("--family");
    let (c, m, l) = ("--coordinator"@, "--model"@, "--layer"@);
    let (e, f) = ("--expert"@, "--family"@);
    assert(c[2] == 'c' && m[2] == 'm' && l[2] == 'l' && e[2] == 'e' && f[2] == 'f');
}

/// A path in the home directory begins with it in place of the tilde; any other path stays as it is.
pub proof fn law_the_tilde_stands_for_home(rest: Seq<char>, path: Seq<char>, home: Seq<char>)
    ensures
        expanded("~/"@ + rest, Some(home)) == home + "/"@ + rest,
        expanded("~/"@ + rest, None) == "~/"@ + rest,
        path.len() > 0 && path[0] != '~' ==> expanded(path, Some(home)) == path,
{
    reveal_strlit("~/");
    let p = "~/"@ + rest;
    assert(p.take(2) =~= "~/"@);
    assert(p.skip(2) =~= rest);
    if path.len() > 0 && path[0] != '~' && path.len() >= 2 {
        assert(path.take(2)[0] == path[0]);
    }
}

/// A tensor begins at the first of its two offsets, and what is probed where nothing is said.
pub proof fn law_where_a_tensor_begins(v: JsonView, s: Settings)
    ensures
        as_array_spec(member(v, "data_offsets"@)) matches Some(a) ==> (a.len() > 0 ==> begins_at(v)
            == as_u64_spec(Some(a[0]))),
        as_array_spec(member(v, "data_offsets"@)) is None ==> begins_at(v) is None,
        args_before(s).layer == 34 && args_before(s).expert == 3,
        args_before(s).family == "qwen36"@,
        s.value("LOGAN_POOL_COORDINATOR"@) is None ==> args_before(s).coordinator
            == "http://127.0.0.1:8080"@,
        s.value("LOGAN_POOL_COORDINATOR"@) matches Some(c) ==> args_before(s).coordinator == c,
        s.value("LOGAN_POOL_MODEL"@) matches Some(m) ==> args_before(s).model == m,
{
}

/// An expert is looked for among as many as there are; where it is one of them it is located, if all that is
/// needed is said and the numbers are not too large.
pub proof fn law_when_an_expert_is_located(w: JsonView, s: JsonView, header: nat, expert: nat)
    ensures
        located_in(w, s, header, expert) is At ==> {
            &&& list_under(w, "shape"@) matches Some(shape) && shape.len() == 3 && expert < shape[0]
            &&& begins_at(w) is Some && begins_at(s) is Some
        },
        list_under(w, "shape"@) is Some && list_under(s, "shape"@) is Some ==> (located_in(
            w,
            s,
            header,
            expert,
        ) is Absent <==> (list_under(w, "shape"@)->0).len() != 3 || expert >= (list_under(w, "shape"@)->0)[0]),
        list_under(w, "shape"@) is None || list_under(s, "shape"@) is None ==> located_in(w, s, header, expert)
            is Malformed,
        ({
            let (a, b) = (list_under(w, "shape"@)->0, list_under(s, "shape"@)->0);
            located_in(w, s, header, expert) matches Located::At(x) ==> {
                &&& x.rows == a[1] && x.words == a[2]
                &&& b.len() >= 3
                &&& b[0] > 0 ==> x.scales * b[0] <= b[1] * b[2] < (x.scales + 1) * b[0]
            }
        }),
{
    let b = list_under(s, "shape"@)->0;
    if b.len() >= 3 && b[0] > 0 {
        let groups = (b[2] * b[1]) as int;
        let d = b[0] as int;
        assert(groups >= 0) by (nonlinear_arith)
            requires
                groups == b[2] * b[1],
        ;
        assert(b[1] * b[2] == b[2] * b[1]) by (nonlinear_arith);
        vstd::arithmetic::div_mod::lemma_fundamental_div_mod(groups, d);
        let q = groups / d;
        assert(q * d == d * q && (q + 1) * d == d * q + d) by (nonlinear_arith);
    }
}

} // verus!
