use logan_qwen4::digest::{frame_scores, logits_digest};
use logan_qwen4::gate::{
    gate_inputs, parse_tokens, probe_tokens, prompt_asked, reference_case, run_kind, same_tokens,
    split_words, GateFault, RunKind, Verdict,
};
use logan_qwen4::gdn_ane::{
    ane_cache_dir, bf16_to_fp16, dynamic_async_enabled, dynamic_enabled, ephemeral_enabled,
    materialize, packed_sizes, plan_layer, premaps, read_column, requested, retire_score, submit_mode,
    write_history, write_input, BuildStage, ConvFault, FlightStage, GdnAneDynamicEngine,
    GdnAneLayer, GdnAneState, LayerBuild, NarrowFault, PackedStage, SubmitStage, SurfaceFault,
    WarmStep,
};
use logan_qwen4::greedy::{argmax, generate_trace, next_token, run_greedy, Decode, Start};
use logan_qwen4::json::read_json;
use logan_qwen4::mlx_affine_cuda::{AffineCall, AffineStage, ResidentAffine};
use logan_qwen4::probe::{
    decode_expert, is_shard_name, locate_expert, probe_args, projection_name, scale_code,
    shellexpand, Located, ProbeFault,
};
use logan_qwen4::settings::Settings;
use std::cell::RefCell;

fn set(list: &[(&str, &str)]) -> Settings {
    Settings {
        entries: list
            .iter()
            .map(|&(n, v)| (n.to_string(), v.to_string()))
            .collect(),
    }
}

fn bits(values: &[f32]) -> Vec<u32> {
    values.iter().map(|v| v.to_bits()).collect()
}

#[test]
fn switches_of_the_neural_engine() {
    let s = set(&[
        ("QWEN_GDN_ANE", "1"),
        ("QWEN_GDN_ANE_LAYERS", "2,4-5"),
        ("QWEN_GDN_ANE_DYNAMIC", "1"),
        ("QWEN_GDN_ANE_ASYNC_DIRECT", "1"),
    ]);
    assert!(requested(&s, true, 4) && !requested(&s, true, 3) && !requested(&s, false, 4));
    assert!(requested(&set(&[("QWEN_GDN_ANE", "1")]), true, 0));
    assert!(dynamic_enabled(&s, true) && !dynamic_enabled(&s, false));
    assert!(!dynamic_async_enabled(&s, true) && !ephemeral_enabled(&s));
    assert_eq!(submit_mode(&s), 1);
    assert_eq!(submit_mode(&Settings::empty()), 0);
    assert_eq!(submit_mode(&set(&[("QWEN_GDN_ANE_ASYNC_REALTIME", "1")])), 2);
    assert!(premaps(&s, true) && !premaps(&s, false));
    assert_eq!(ane_cache_dir(&Settings::empty()), None);
    assert_eq!(ane_cache_dir(&set(&[("HOME", "/h")])).unwrap(), "/h/.cache/logan/ane");
    assert_eq!(
        ane_cache_dir(&set(&[("HOME", "/h"), ("XDG_CACHE_HOME", "/c/")])).unwrap(),
        "/c/logan/ane"
    );
    assert_eq!(ane_cache_dir(&set(&[("LOGAN_ANE_CACHE_DIR", "/x")])).unwrap(), "/x");
    assert_eq!(
        ane_cache_dir(&set(&[("LOGAN_ANE_CACHE_DIR", "/x"), ("LOGAN_ANE_NOCACHE", "1")])),
        None
    );
}

#[test]
fn weights_become_halves_unless_they_are_odd_or_infinite() {
    assert_eq!(bf16_to_fp16(&vec![0x80, 0x3f, 0x40, 0xc0]).unwrap(), vec![0x3c00, 0xc200]);
    assert_eq!(bf16_to_fp16(&vec![1]).err(), Some(NarrowFault::OddBytes));
    assert_eq!(bf16_to_fp16(&vec![0x80, 0x7f]).err(), Some(NarrowFault::NotFinite));
    assert_eq!(NarrowFault::OddBytes.message(), "BF16 byte count is not even");
}

#[test]
fn surfaces_hold_every_value_sixteen_times() {
    let x = bits(&[1.5, -2.0]);
    let map = write_input(&x, 2).unwrap();
    assert_eq!(map.len(), 128);
    assert_eq!(&map[60..68], &[0, 0, 0xc0, 0x3f, 0, 0, 0, 0xc0]);
    let mut back = vec![0; 2];
    read_column(&map, 2, &mut back).unwrap();
    assert_eq!(back, x);
    assert_eq!(read_column(&map, 2, &mut vec![0; 3]).err(), Some(SurfaceFault::Rows));
    assert_eq!(
        write_input(&x, 3).err(),
        Some(SurfaceFault::Input { given: 2, hidden: 3 })
    );
    let (mut q, mut z, mut a, mut b) = (vec![0; 2], vec![0; 1], vec![0; 1], vec![0; 2]);
    assert!(materialize((&map, &map, &map, &map), (2, 1, 1), &mut q, &mut z, &mut a, &mut b).is_err());
    assert_eq!((q, z, a, b), (x.clone(), vec![x[0]], vec![x[0]], vec![0; 2]));
    let mut surface = write_input(&bits(&[9.0, 9.0]), 2).unwrap();
    write_history(&mut surface, &bits(&[1.0, 2.0, 3.0, 4.0]), 2, 2);
    let mut first = vec![0; 2];
    read_column(&surface, 2, &mut first).unwrap();
    assert_eq!(first, bits(&[1.0, 3.0]));
    assert_eq!(&surface[8..12], &9.0f32.to_le_bytes());
}

fn ready() -> GdnAneLayer {
    GdnAneLayer {
        hidden: 2,
        qkv_rows: 2,
        z_rows: 1,
        ab_rows: 1,
        conv_kernel: 2,
        fused: true,
        gpu_tail: true,
        loaded: false,
        fence: None,
        channel: false,
        slow_score: 0,
        samples: 0,
    }
}

#[test]
fn a_layer_is_built_step_by_step() {
    let w = vec![0x80, 0x3f];
    let s = set(&[("QWEN_GDN_ANE_EPHEMERAL", "1")]);
    let plan = plan_layer(&s, 2, 2, 1, 1, &w, &w, &w, &w, 4, 2).unwrap();
    assert_eq!(plan.qkv, vec![0x3c00]);
    assert_eq!((plan.input_bytes, plan.conv_bytes), (128, Some(8)));
    let mut build = LayerBuild::start(&plan);
    for _ in 0..7 {
        build.step(true);
    }
    build.step(false);
    assert_eq!(build.stage, BuildStage::Unload);
    assert!(!build.fused);
    build.step(true);
    assert_eq!(build.stage, BuildStage::Ready);
    let mut failed = LayerBuild::start(&plan);
    failed.step(false);
    assert_eq!(failed.stage, BuildStage::Failed);
    assert_eq!(
        plan_layer(&s, 2, 2, 1, 1, &w, &vec![1], &w, &w, 4, 2).err(),
        Some(NarrowFault::OddBytes)
    );
}

#[test]
fn a_layer_that_fails_or_is_slow_is_taken_off() {
    let on = set(&[("QWEN_GDN_ANE", "1")]);
    let mut state = GdnAneState::Uninitialized;
    assert_eq!(state.warm(&on, true, 0), WarmStep::Build);
    assert_eq!(state.warm(&on, true, 1), WarmStep::Refused);
    assert!(state.built(Some(ready())));
    assert!(state.active() && state.fused_active() && state.stays_on_device());
    assert_eq!(state.warm(&on, true, 0), WarmStep::Ready);
    assert!(!state.report_async_sample(&on, true, true));
    assert!(state.report_async_sample(&on, true, true));
    assert_eq!(state, GdnAneState::Disabled);
    assert_eq!(state.warm(&on, true, 0), WarmStep::Refused);
    assert!(!state.report_async_sample(&on, true, true));
    let mut state = GdnAneState::Ready(ready());
    for _ in 0..9 {
        assert!(!state.report_async_sample(&on, false, true));
    }
    assert!(state.evaluated(true));
    assert!(!state.evaluated(false));
    assert!(!state.active());
    let mut state = GdnAneState::Uninitialized;
    assert!(!state.built(None));
    assert_eq!(state, GdnAneState::Disabled);
    let ephemeral = set(&[("QWEN_GDN_ANE_EPHEMERAL", "1")]);
    let mut state = GdnAneState::Ready(ready());
    assert!(!state.report_async_sample(&ephemeral, true, true));
    assert!(state.report_async_sample(&ephemeral, true, false));
    assert_eq!(retire_score(&Settings::empty()), 4);
    assert_eq!(retire_score(&set(&[("QWEN_GDN_ANE_SLOW_SCORE", "0")])), 4);
    assert_eq!(retire_score(&set(&[("QWEN_GDN_ANE_SLOW_SCORE", "9")])), 9);
}

#[test]
fn a_request_signals_the_value_of_its_event() {
    let mut l = ready();
    let mut stage = l.submit_start();
    assert_eq!(stage, SubmitStage::Load);
    for _ in 0..5 {
        stage = l.submit_step(stage, Some(40));
    }
    assert_eq!(stage, SubmitStage::Pending(1));
    assert!(l.channel && l.loaded && l.fence == Some(1));
    stage = l.submit_start();
    stage = l.submit_step(stage, Some(0));
    assert_eq!(stage, SubmitStage::Advance);
    stage = l.submit_step(stage, Some(2));
    assert_eq!(stage, SubmitStage::Submit(2));
    assert_eq!(l.submit_step(stage, None), SubmitStage::Declined);
}

#[test]
fn the_convolution_follows_on_the_device_where_shapes_fit() {
    let l = ready();
    let mut surface = vec![0u8; 128];
    let (cur, mut state, mut y) = (bits(&[5.0, 6.0]), bits(&[1.0, 2.0]), vec![0u32; 2]);
    assert!(l.conv_prepare(&cur, &state, &y, &mut surface).is_ok());
    assert_eq!(
        l.conv_prepare(&cur, &vec![0; 3], &y, &mut surface).err(),
        Some(ConvFault::State)
    );
    assert_eq!(
        l.conv_prepare(&vec![0], &state, &y, &mut surface).err(),
        Some(ConvFault::Shape)
    );
    let plain = GdnAneLayer { fused: false, ..l };
    assert_eq!(
        plain.conv_prepare(&cur, &state, &y, &mut surface).err(),
        Some(ConvFault::Unavailable)
    );
    assert_eq!(
        l.conv_finish(None, &cur, &mut state, &mut y).err(),
        Some(ConvFault::Failed)
    );
    assert_eq!(state, bits(&[1.0, 2.0]));
    let mut out = 7.0f32.to_le_bytes().to_vec();
    out.extend_from_slice(&8.0f32.to_le_bytes());
    l.conv_finish(Some(&out), &cur, &mut state, &mut y).unwrap();
    assert_eq!(y, bits(&[7.0, 8.0]));
    assert_eq!(state, bits(&[5.0, 6.0]));
}

#[test]
fn the_packed_program_serves_every_layer() {
    assert!(packed_sizes(2, 2, 1, 1, 16385, 1).is_none());
    let sizes = packed_sizes(2, 2, 1, 1, 10, 20).unwrap();
    assert_eq!((sizes.qkv_input, sizes.aux_input, sizes.qkv), (80, 160, 128));
    let none = Settings::empty();
    let mut e = GdnAneDynamicEngine::new(2);
    assert_eq!(e.evaluate_start(&none, 3, 1), PackedStage::WrongWidth);
    let mut stage = e.evaluate_start(&none, 3, 2);
    assert_eq!(stage, PackedStage::Import);
    let mut turns = 0;
    while !matches!(stage, PackedStage::Done) {
        stage = e.evaluate_step(3, stage, true);
        turns += 1;
        assert!(turns < 20);
    }
    assert_eq!(e.packers, vec![false, false, false, true]);
    assert_eq!(e.evaluate_start(&none, 3, 2), PackedStage::RunPacker);
    assert_eq!(e.evaluate_step(3, PackedStage::RunPacker, false), PackedStage::PackQkv);
    assert_eq!(e.evaluate_step(3, PackedStage::PackZ, false), PackedStage::Failed);
    let off = set(&[("QWEN_GDN_ANE_DYNAMIC_GPU_PACK", "0")]);
    assert_eq!(e.evaluate_start(&off, 3, 2), PackedStage::PackQkv);
}

#[test]
fn work_in_flight_is_ordered_by_one_event() {
    let mut e = GdnAneDynamicEngine::new(2);
    assert_eq!(e.evaluate_async_start(0, 3), FlightStage::WrongWidth);
    let mut value = 1u64;
    for layer in 0..2usize {
        let mut stage = e.evaluate_async_start(layer, 2);
        let mut turns = 0;
        while !matches!(stage, FlightStage::Pending(..)) {
            let advances = matches!(
                stage,
                FlightStage::AdvancePack | FlightStage::AdvanceQkv(_) | FlightStage::AdvanceAux(..)
            );
            if advances {
                value += 1;
            }
            stage = e.evaluate_async_step(layer, stage, Some(value));
            turns += 1;
            assert!(turns < 20);
        }
        match stage {
            FlightStage::Pending(p, q, a) => {
                assert!(p < q && q < a);
                assert_eq!(p, if layer == 0 { 1 } else { 4 });
            }
            _ => unreachable!(),
        }
    }
    assert!(e.link.started);
    assert_eq!(e.evaluate_async_step(0, FlightStage::MakeFence, None), FlightStage::Failed);
}

#[test]
fn the_last_of_equal_scores_is_the_next_token() {
    assert_eq!(next_token(&bits(&[1.0, 3.0, 3.0, 2.0])), 2);
    assert_eq!(next_token(&bits(&[-0.0, 0.0])), 1);
    assert_eq!(next_token(&bits(&[0.0, -0.0])), 1);
    assert_eq!(argmax(&bits(&[1.0, 3.0, 3.0, f32::NAN])), 1);
    assert_eq!(argmax(&bits(&[f32::NEG_INFINITY])), 0);
    assert_eq!(argmax(&vec![]), 0);
}

fn model(fed: &RefCell<Vec<(u32, usize)>>) -> impl Fn(u32, usize) -> Vec<u32> + '_ {
    move |token, pos| {
        fed.borrow_mut().push((token, pos));
        let mut scores = vec![0.0f32; 16];
        scores[((token + 3) % 16) as usize] = 1.0;
        bits(&scores)
    }
}

#[test]
fn greedy_decoding_feeds_every_position_once() {
    let fed = RefCell::new(vec![]);
    assert_eq!(run_greedy(&model(&fed), &vec![1, 2], 3), vec![5, 8, 11]);
    assert_eq!(*fed.borrow(), vec![(1, 0), (2, 1), (5, 2), (8, 3)]);
    assert!(run_greedy(&model(&fed), &vec![], 3).is_empty());
    assert!(run_greedy(&model(&fed), &vec![1], 0).is_empty());
    let fed = RefCell::new(vec![]);
    assert_eq!(generate_trace(&model(&fed), &vec![1, 2], 2), vec![5, 8]);
    assert_eq!(*fed.borrow(), vec![(1, 0), (2, 1), (2, 2), (5, 3)]);
    let mut d = Decode::new(&vec![7], 1, Start::FromPrompt).unwrap();
    assert_eq!(d.next(), Some((7, 0)));
    assert!(d.decides());
    assert!(!Decode::new(&vec![7], 1, Start::Again).unwrap().decides());
    d.take(&bits(&[0.0, 1.0]));
    assert_eq!(d.next(), None);
    assert_eq!(d.out, vec![1]);
    assert!(Decode::new(&vec![], 1, Start::Again).is_none());
}

#[test]
fn tokens_and_prompts_are_read_from_text() {
    assert_eq!(parse_tokens(" 1\t22\n3 "), Some(vec![1, 22, 3]));
    assert_eq!(parse_tokens(""), Some(vec![]));
    assert_eq!(parse_tokens("1 x"), None);
    assert_eq!(parse_tokens("4294967296"), None);
    let words = split_words(&"a  bc".chars().collect());
    assert_eq!(words, vec![vec!['a'], vec!['b', 'c']]);
    assert_eq!(prompt_asked(&Settings::empty()), Some((vec![1, 2, 3, 4, 5], 8)));
    assert_eq!(prompt_asked(&set(&[("QWEN_MAX_NEW", "x")])), None);
    assert_eq!(prompt_asked(&set(&[("QWEN_PROMPT", "7"), ("QWEN_MAX_NEW", "2")])), Some((vec![7], 2)));
}

#[test]
fn what_to_do_with_a_directory() {
    let none = Settings::empty();
    assert_eq!(run_kind(&none, false, false, false), RunKind::Cached);
    assert_eq!(
        run_kind(&set(&[("QWEN_SCHED", "1")]), false, false, false),
        RunKind::Scheduled
    );
    assert_eq!(run_kind(&none, true, false, false), RunKind::Greedy);
    assert_eq!(run_kind(&none, false, true, true), RunKind::Reference { package: false });
    assert_eq!(run_kind(&none, false, false, true), RunKind::Reference { package: true });
}

#[test]
fn reference_texts_are_read_and_compared() {
    let doc = read_json(
        b"{\"cases\": {\"short\": {\"prompt_ids\": [1, 2], \"greedy_new_ids\": [3, 4294967297], \"max_new_tokens\": 2}, \"mixed\": {\"prompt_ids\": [1]}}}",
    )
    .unwrap();
    let c = reference_case(&doc, "short").unwrap();
    assert_eq!((c.prompt.clone(), c.expected.clone(), c.max_new), (vec![1, 2], vec![3, 1], 2));
    assert!(reference_case(&doc, "mixed").is_none());
    assert!(reference_case(&doc, "none").is_none());
    assert!(same_tokens(&c.expected, &vec![3, 1]));
    assert!(!same_tokens(&c.expected, &vec![3]));
}

#[test]
fn a_comparison_starts_from_tokens_and_fails_in_words() {
    let none = Settings::empty();
    let g = gate_inputs(&none, true).unwrap();
    assert_eq!((g.prefix, g.suffix), (vec![1, 2, 3, 4, 5], vec![7, 9, 11]));
    assert_eq!(g.dirty, vec![2, 3, 4, 5, 6]);
    assert_eq!((g.new_tokens, g.reuse_existing), (8, false));
    let full = set(&[("QWEN_GATE_PREFIX", "4294967295")]);
    assert_eq!(gate_inputs(&full, false).unwrap().dirty, vec![u32::MAX]);
    assert_eq!(
        gate_inputs(&set(&[("QWEN_GATE_SUFFIX", " ")]), false).err(),
        Some(GateFault::Empty)
    );
    assert_eq!(
        gate_inputs(&set(&[("QWEN_GATE_PREFIX", "a")]), false).err(),
        Some(GateFault::BadToken)
    );
    let zero = set(&[("QWEN_GATE_NEW", "0")]);
    assert_eq!(gate_inputs(&zero, true).err(), Some(GateFault::NoNewTokens));
    assert_eq!(gate_inputs(&zero, false).unwrap().new_tokens, 0);
    assert_eq!(GateFault::Empty.message(), "gate prefix and suffix must be non-empty");
    let v = Verdict {
        replay: true,
        restored: true,
        tokens: true,
        logits: true,
        final_state: true,
        perf: true,
    };
    assert!(v.passes());
    let w = Verdict { logits: false, ..v };
    assert!(!w.passes());
    assert_eq!(
        w.failure_text(),
        "GATE: FAIL replay_exact=true restored_exact=true tokens=true logits=false final_state=true perf=true"
    );
    assert_eq!(probe_tokens(2, 10), vec![1, 0]);
    assert_eq!(probe_tokens(1, 0), vec![1]);
}

#[test]
fn digests_hash_the_length_and_the_patterns() {
    let frame = frame_scores(&vec![1, 0x0102_0304]);
    assert_eq!(frame, vec![2, 0, 0, 0, 0, 0, 0, 0, 1, 0, 0, 0, 4, 3, 2, 1]);
    let empty = logits_digest(&vec![]);
    assert_eq!(
        &empty[..8],
        &[0xaf, 0x55, 0x70, 0xf5, 0xa1, 0x81, 0x0b, 0x7a]
    );
    assert_ne!(logits_digest(&vec![0]), logits_digest(&vec![0, 0]));
    assert_eq!(logits_digest(&vec![5]), logits_digest(&vec![5]));
}

#[test]
fn products_of_packed_codes_are_checked_and_uploaded_once() {
    let call = AffineCall {
        bits: 4,
        group_size: 32,
        cols: 64,
        rows: 3,
        x: 64,
        y: 3,
        weights: 96,
        scales: 12,
        biases: 12,
    };
    assert!(call.accepts());
    assert!(!AffineCall { bits: 3, ..call }.accepts());
    assert!(!AffineCall { group_size: 0, ..call }.accepts());
    assert!(!AffineCall { scales: 10, ..call }.accepts());
    assert!(!AffineCall { x: 63, ..call }.accepts());
    let mut r = ResidentAffine { resident: false, uploads: 0 };
    for round in 0..2 {
        let mut stage = r.start(&call);
        let mut turns = 0;
        while !matches!(stage, AffineStage::Done) {
            stage = r.step(stage, true);
            turns += 1;
        }
        assert_eq!(turns, if round == 0 { 9 } else { 6 });
    }
    assert_eq!(r.weight_uploads(), 1);
    assert_eq!(r.step(AffineStage::Launch, false), AffineStage::Declined);
    assert_eq!(r.start(&AffineCall { rows: 0, ..call }), AffineStage::Declined);
}

#[test]
fn an_expert_is_found_in_its_shard() {
    assert!(is_shard_name("model-00001-of-00002.safetensors"));
    assert!(!is_shard_name("model.safetensors") && !is_shard_name("model-1.bin"));
    let name = projection_name(34, "gate_proj");
    assert_eq!(name, "language_model.model.layers.34.mlp.switch_mlp.gate_proj");
    let text = format!(
        "{{\"{name}.weight\": {{\"shape\": [4, 2, 3], \"data_offsets\": [100, 196]}}, \"{name}.scales\": {{\"shape\": [1, 2, 5], \"data_offsets\": [200, 210]}}}}"
    );
    let doc = read_json(text.as_bytes()).unwrap();
    match locate_expert(&doc, 50, &name, 3) {
        Located::At(s) => {
            assert_eq!((s.weights, s.rows, s.words), (24, 2, 3));
            assert_eq!(s.weights_at, 58 + 100 + 72);
            assert_eq!((s.scales_at, s.scales), (58 + 200 + 30, 10));
        }
        other => panic!("{other:?}"),
    }
    assert_eq!(locate_expert(&doc, 50, &name, 4), Located::Absent);
    assert_eq!(locate_expert(&doc, 50, "other", 0), Located::Absent);
    let bad = read_json(text.replace("[1, 2, 5]", "[1]").as_bytes()).unwrap();
    assert_eq!(locate_expert(&bad, 50, &name, 0), Located::Malformed);
    assert_eq!(locate_expert(&doc, u64::MAX, &name, 0), Located::Malformed);
}

#[test]
fn codes_times_scales_are_exact_singles() {
    const MAG: [f32; 8] = [0.0, 0.5, 1.0, 1.5, 2.0, 3.0, 4.0, 6.0];
    for code in 0..16u8 {
        for scale in 0..=255u8 {
            let mag = MAG[(code & 7) as usize];
            let v = (if code & 8 != 0 { -mag } else { mag }) * f32::from_bits((scale as u32) << 23);
            match scale_code(code, scale) {
                Some(b) => assert_eq!(b, v.to_bits(), "{code} {scale}"),
                None => assert!(v.is_nan()),
            }
        }
    }
    let out = decode_expert(&vec![0x21; 20], &vec![128]);
    assert_eq!(out.len(), 40);
    assert_eq!(out[0], Some(1.0f32.to_bits()));
    assert_eq!(out[1], Some(2.0f32.to_bits()));
    assert_eq!(out[33], Some(1.0f32.to_bits()));
}

#[test]
fn the_probe_reads_its_arguments() {
    let args = |list: &[&str]| -> Vec<String> { list.iter().map(|s| s.to_string()).collect() };
    let home = set(&[("HOME", "/h")]);
    let p = probe_args(
        &args(&["probe", "--layer", "3", "--model", "~/m", "--family", "f", "stop", "--expert", "9"]),
        &home,
    )
    .unwrap();
    assert_eq!((p.layer, p.expert), (3, 3));
    assert_eq!((p.model.as_str(), p.family.as_str()), ("/h/m", "f"));
    assert_eq!(p.coordinator, "http://127.0.0.1:8080");
    assert_eq!(
        probe_args(&args(&["p", "--layer", "x"]), &home).err(),
        Some(ProbeFault::Layer)
    );
    assert_eq!(
        probe_args(&args(&["p", "--expert", "x"]), &home).err(),
        Some(ProbeFault::Expert)
    );
    assert_eq!(
        probe_args(&args(&["p", "--layer"]), &home).err(),
        Some(ProbeFault::NoValue)
    );
    assert_eq!(shellexpand("~/a", &Settings::empty()), "~/a");
    assert_eq!(shellexpand("/a", &home), "/a");
}
