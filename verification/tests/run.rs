use logan_qwen4::attention::{
    asks_device_for_output, attention_device_weights, attention_rows, builds_device_weights,
    check_rows, chunk_projects_together, fused_index_rows, host_projection, kv_head,
    output_projection, projects_index, rope_pair, split_chunk, split_projection, store_kv, AttnRows,
    AttnRun, AttnStage, OutputBy,
};
use logan_qwen4::config::{load_cfg, Cfg, CfgFloats};
use logan_qwen4::experts::{
    cache_cap, default_cache_cap_for_ram, event_to_wait_for, issue_step, make_expert_store,
    physical_ram_bytes, prefetches, preload_start, preload_step, reported_ram, IssueStage,
    PreloadStage, StoreKind,
};
use logan_qwen4::gdn::{
    chunk_is_batched, chunk_start, chunk_step, conv_window, device_reply, device_weights, flatten_rows, q8_choice,
    quantize_gdn_runtime_mxfp4, quantize_gdn_runtime_q8, scale_policy, shift_conv, split_heads,
    ChunkStage, GdnMatrix, GdnReply, GdnRun, GdnShape, GdnStage, Q8Choice, QuantReport,
};
use logan_qwen4::model::Layer;
use logan_qwen4::moe::{
    expert_from, load_step, planned_slot, shared_plan, slot_descriptor, slot_matrices, slot_offsets, ExpertFrom, LoadFault, LoadStage, MoeRun, MoeStage,
};
use logan_qwen4::performance::{apply_apple_runtime_defaults, apply_max_performance_defaults};
use logan_qwen4::plan::PlannedExpert;
use logan_qwen4::prefill::{
    batch_start, batch_step, batches_experts, chunk_parts, gather_rows, group_rows, place_rows, prefill_plan, unique_experts,
    BatchStage, PrefillFault, PrefillPlan, RowPart,
};
use logan_qwen4::route::{cold_experts, qsa_positions, topk, RouteHistory};
use logan_qwen4::runtime::{
    aligned_len, check_keeps, check_memory, fresh_ring, head_backend, head_fallback, init_token_stream, layer_parts,
    layer_state, layer_states, memory_conv_len, rehome_lm_head_bf16,
    tail_parts, warm_selected_gdn_ane, HeadBackend, LayerPart, ModelIds, TailPart,
};
use logan_qwen4::sched::{SchedForward, Scheduler};
use logan_qwen4::settings::{layer_selected, name_selected, Settings};
use logan_qwen4::token::{forward_scheduled, token_parts, TokenEvent, TokenPart, TokenRun};
use logan_qwen4::weights::{Packed, Wt, WtBytes};

fn set(list: &[(&str, &str)]) -> Settings {
    Settings {
        entries: list
            .iter()
            .map(|&(n, v)| (n.to_string(), v.to_string()))
            .collect(),
    }
}

#[test]
fn expert_cache_leaves_uma_headroom_on_16g_apple_silicon() {
    const GIB: u64 = 1024 * 1024 * 1024;
    assert_eq!(default_cache_cap_for_ram(true, Some(16 * GIB)), 128);
    assert_eq!(default_cache_cap_for_ram(true, Some(32 * GIB)), 256);
    assert_eq!(default_cache_cap_for_ram(true, None), 256);
    assert_eq!(default_cache_cap_for_ram(false, Some(16 * GIB)), 256);
}

#[test]
fn explicit_opt_out_is_preserved() {
    let name = "LOGAN_TEST_PERF_DEFAULT";
    let mut settings = set(&[(name, "0")]);
    settings.set_if_unset(name, "1");
    assert_eq!(settings.get(name).unwrap(), "0");
}

#[test]
fn defaults_are_given_where_nothing_is_set() {
    let mut s = set(&[("QWEN_PREFIX_CACHE", "0")]);
    apply_max_performance_defaults(&mut s, false);
    assert_eq!(s.get("QWEN_PREFIX_CACHE"), Some("0"));
    assert_eq!(s.get("QWEN_PREFIX_CACHE_WRITE"), Some("1"));
    assert_eq!(s.get("QWEN_GDN_METAL"), None);
    let once = s.entries.len();
    apply_max_performance_defaults(&mut s, false);
    assert_eq!(s.entries.len(), once);
    apply_max_performance_defaults(&mut s, true);
    assert_eq!(s.get("QWEN_GDN_METAL"), Some("0"));
    let mut s = Settings::empty();
    apply_apple_runtime_defaults(&mut s, false);
    assert!(s.entries.is_empty());
    apply_apple_runtime_defaults(&mut s, true);
    assert_eq!(s.get("QWEN_SHARED_MXFP4_FULL"), Some("1"));
    assert_eq!(s.entries.len(), 4);
}

#[test]
fn settings_read_as_switches_numbers_and_lists() {
    let s = set(&[("A", "FALSE"), ("B", "0"), ("N", "+12"), ("X", "1x")]);
    assert!(s.on("A", false) && !s.enabled("A", true));
    assert!(!s.on("B", true) && !s.enabled("B", true));
    assert!(s.on("C", true) && !s.enabled("C", false));
    assert_eq!(s.number("N", 3), 12);
    assert_eq!(s.number("X", 3), 3);
    assert_eq!(s.text("N", "z"), "+12");
    assert_eq!(s.text("Q", "z"), "z");
    assert!(s.is_set("A") && !s.is_set("Q"));
    assert!(layer_selected(" All ", 9));
    assert!(layer_selected("1, 3-5", 4) && !layer_selected("1, 3-5", 2));
    assert!(!layer_selected("", 0) && !layer_selected("5-3", 4) && !layer_selected("a-b", 0));
    assert!(name_selected("all", "qkv") && name_selected("z, qkv", "qkv"));
    assert!(!name_selected("z", "qkv"));
}

#[test]
fn caches_are_sized_by_settings_and_memory() {
    const GIB: u64 = 1 << 30;
    let none = Settings::empty();
    assert_eq!(physical_ram_bytes(&set(&[("RAM_GB", " 8 ")]), None), Some(8 * GIB));
    assert_eq!(physical_ram_bytes(&set(&[("RAM_GB", "x")]), Some(5)), Some(5));
    assert_eq!(
        physical_ram_bytes(&set(&[("RAM_GB", "18446744073709551615")]), Some(5)),
        None
    );
    assert_eq!(reported_ram("17179869184\n"), Some(16 * GIB));
    assert_eq!(reported_ram("many"), None);
    assert_eq!(cache_cap(&set(&[("QWEN4_CACHE", "0")]), true, None), 1);
    assert_eq!(cache_cap(&set(&[("QWEN4_CACHE", "77")]), true, None), 77);
    assert_eq!(cache_cap(&none, true, Some(8 * GIB)), 128);
    assert_eq!(
        make_expert_store(&none, true, Some(8 * GIB), 40, 0),
        StoreKind::Layered { layers: 40, per_layer: 1 }
    );
    assert_eq!(
        make_expert_store(&none, false, Some(8 * GIB), 40, 4),
        StoreKind::Flat { cap: 256 }
    );
    assert_eq!(
        make_expert_store(&set(&[("QWEN4_CACHE_PER_LAYER", "3")]), false, None, 40, 4),
        StoreKind::Layered { layers: 40, per_layer: 3 }
    );
    assert_eq!(
        make_expert_store(&set(&[("QWEN4_CACHE_PER_LAYER", "0")]), true, Some(1), 40, 4),
        StoreKind::Flat { cap: 128 }
    );
    // A capacity that is set wins over the machine and over what is set for layers.
    let both = set(&[("QWEN4_CACHE", "77"), ("QWEN4_CACHE_PER_LAYER", "3")]);
    for settings in [&set(&[("QWEN4_CACHE", "77")]), &both] {
        assert_eq!(
            make_expert_store(settings, true, Some(8 * GIB), 40, 4),
            StoreKind::Flat { cap: 77 }
        );
    }
}

#[test]
fn an_expert_is_held_or_missing_after_finitely_many_stages() {
    assert_eq!(issue_step(IssueStage::Look, true), IssueStage::Held);
    let mut stage = IssueStage::Look;
    let mut seen = vec![stage];
    for ok in [false, true, true, true, true, true, true, true] {
        stage = issue_step(stage, ok);
        seen.push(stage);
    }
    assert_eq!(*seen.last().unwrap(), IssueStage::Held);
    assert!(seen.contains(&IssueStage::Insert));
    assert_eq!(issue_step(IssueStage::Address, false), IssueStage::Free);
    assert_eq!(issue_step(IssueStage::Free, true), IssueStage::Missing);
    assert_eq!(issue_step(IssueStage::Shard, false), IssueStage::Missing);
    assert_eq!(event_to_wait_for(None), None);
    assert_eq!(event_to_wait_for(Some(0)), None);
    assert_eq!(event_to_wait_for(Some(4)), Some(4));
    assert!(prefetches(&set(&[("QWEN_PREV_ROUTE_PREFETCH", "1")]), false));
    assert!(!prefetches(&set(&[("QWEN_PREV_ROUTE_PREFETCH", "1")]), true));
}

#[test]
fn a_set_of_experts_is_brought_in_together_or_one_by_one() {
    assert_eq!(preload_start(false, 2, 9), PreloadStage::Failed);
    assert_eq!(preload_start(true, 10, 9), PreloadStage::Failed);
    let run = |answers: &[bool]| {
        let mut stage = preload_start(true, 2, 9);
        for &ok in answers {
            stage = preload_step(2, stage, ok);
        }
        stage
    };
    assert_eq!(run(&[true, true, false]), PreloadStage::Done);
    assert_eq!(run(&[true, false]), PreloadStage::Failed);
    assert_eq!(run(&[true, true, true, true, true, true]), PreloadStage::Done);
    assert_eq!(run(&[true, true, true, false]), PreloadStage::WaitOne(0));
    assert_eq!(run(&[true, true, true, false, true, true]), PreloadStage::Done);
    assert_eq!(run(&[true, true, true, true, false]), PreloadStage::Failed);
}

#[test]
fn a_planned_load_ends_in_a_slot_or_a_fault() {
    let fault = |stage| match load_step(stage, false) {
        LoadStage::Fault(f) => Some(f),
        _ => None,
    };
    assert_eq!(fault(LoadStage::Package), Some(LoadFault::NoPackage));
    assert_eq!(fault(LoadStage::Shard), Some(LoadFault::ShardMissing));
    assert_eq!(fault(LoadStage::Open), Some(LoadFault::Unavailable));
    assert_eq!(fault(LoadStage::Start), Some(LoadFault::NoSlot));
    assert_eq!(load_step(LoadStage::Address, false), LoadStage::Free);
    assert_eq!(fault(LoadStage::Free), Some(LoadFault::NoMemory));
    assert_eq!(fault(LoadStage::Wait), Some(LoadFault::Failed));
    assert_eq!(load_step(LoadStage::Arrived, true), LoadStage::Done);
    assert_eq!(slot_offsets(17, 16), (32, 48));
    assert_eq!(slot_offsets(0, 0), (0, 0));
    let p = PlannedExpert {
        shard_id: 1,
        regions: [(0, 17), (64, 16), (128, 9)],
        dims: [(1, 2), (3, 4), (5, 6)],
    };
    let e = planned_slot(&p, 4, 9, 1000);
    assert_eq!((e.up_offset, e.down_offset, e.down_bytes), (32, 48, 9));
    assert_eq!((e.rows, e.cols), ([1, 3, 5], [2, 4, 6]));
    assert_eq!((e.slot, e.pending, e.address), (4, 9, 1000));
    assert_eq!(expert_from(false, false, false), ExpertFrom::Model);
    assert_eq!(expert_from(false, true, true), ExpertFrom::Slot);
    assert_eq!(expert_from(false, true, false), ExpertFrom::Package);
    assert_eq!(expert_from(true, true, false), ExpertFrom::Nowhere);
    let d = slot_descriptor(&e.ref_view());
    assert_eq!((d.slot, d.gate_offset, d.gate_bytes), (4, 0, 17));
    assert_eq!((d.up_offset, d.up_bytes, d.down_offset, d.down_bytes), (32, 16, 48, 9));
    let raw: Vec<u8> = (0..57).collect();
    let (gate, up, down) = slot_matrices(&e.ref_view(), &raw);
    assert_eq!((gate.len(), up[0], up.len()), (17, 32, 16));
    assert_eq!((down[0], down.len()), (48, 9));
}

#[test]
fn experts_run_on_the_device_or_fall_back_to_the_host() {
    let none = Settings::empty();
    let mut run = MoeRun::start(&none, false, true, true, 4, false);
    for _ in 0..60 {
        run.step(true);
    }
    assert!(matches!(run.stage, MoeStage::Output));
    assert!(run.shared && run.made_by.is_some());
    for bits in 0..64u32 {
        let mut run = MoeRun::start(&none, true, true, true, 2, bits % 2 == 0);
        let mut turn = 0;
        while !matches!(run.stage, MoeStage::Output) {
            run.step((bits >> (turn % 6)) & 1 == 1);
            turn += 1;
            assert!(turn < 200);
        }
        assert!(run.shared && run.made_by.is_some());
    }
}

fn codes(o: usize, i: usize) -> Wt {
    Wt {
        f: vec![],
        bytes: Some(WtBytes::Mxfp4 {
            weights: vec![0; o * i / 2],
            scales: vec![127; o * i / 32],
            metal_tensor: 0,
        }),
        o,
        i,
    }
}

fn brain(o: usize, i: usize, fill: u8) -> Wt {
    Wt {
        f: vec![],
        bytes: Some(WtBytes::Bf16 {
            weights: vec![fill; o * i * 2],
            metal_tensor: 0,
        }),
        o,
        i,
    }
}

#[test]
fn the_shared_expert_is_computed_as_its_weights_allow() {
    let none = Settings::empty();
    let (c, b) = (codes(32, 32), brain(2, 2, 0));
    assert!(shared_plan(&none, &c, &c, &c).full);
    let p = shared_plan(&none, &c, &c, &b);
    assert!(!p.full && p.fused);
    let p = shared_plan(&set(&[("QWEN_SHARED_FUSED_INPUT", "0")]), &c, &c, &b);
    assert!(!p.full && !p.fused);
}

#[test]
fn routes_are_the_best_scores_in_order() {
    let s: Vec<u32> = [0.1f32, 0.9, 0.9, -1.0, 0.5].iter().map(|v| v.to_bits()).collect();
    assert_eq!(topk(&s, 3), vec![1, 2, 4]);
    let nan = f32::NAN.to_bits();
    assert_eq!(topk(&vec![nan, s[0], s[1]], 2), vec![0, 2]);
    assert_eq!(topk(&vec![s[0], nan, s[1]], 3), vec![2, 1, 0]);
    assert_eq!(cold_experts(&vec![4, 2, 7], &vec![true, false, false]), vec![2, 7]);
    assert!(cold_experts(&vec![4], &vec![true]).is_empty());
}

#[test]
fn overlaps_are_counted_where_they_are_asked_for() {
    let mut h = RouteHistory {
        previous: vec![vec![], vec![1, 2]],
        common: vec![0, 0],
        total: vec![0, 0],
        pairs: vec![0, 0],
    };
    h.record(&Settings::empty(), 2, 1, vec![2, 3]);
    assert_eq!(h.total[1], 0);
    h.record(&set(&[("QWEN_ROUTE_OVERLAP", "1")]), 2, 1, vec![3, 2]);
    assert_eq!((h.common[1], h.total[1], h.pairs[1]), (2, 2, 1));
    assert_eq!(h.previous[1], vec![3, 2]);
}

#[test]
fn sparse_attention_looks_at_the_best_blocks_and_the_open_one() {
    let s: Vec<u32> = [0.1f32, 0.9, 0.5].iter().map(|v| v.to_bits()).collect();
    let p = qsa_positions(&s, 7, 2, 4);
    assert!(p.iter().all(|&x| x < 7));
    assert!(p.contains(&2) && p.contains(&3) && p.contains(&6));
    let all = qsa_positions(&s, 7, 2, 1000);
    let mut sorted = all.clone();
    sorted.sort_unstable();
    assert_eq!(sorted, (0..7).collect::<Vec<_>>());
}

#[test]
fn a_chunk_is_planned_by_the_lanes_of_the_model() {
    assert!(matches!(prefill_plan(&[], 0, true, true, 2), Ok(PrefillPlan::Nothing)));
    assert!(matches!(
        prefill_plan(&[1], 0, true, true, 2),
        Err(PrefillFault::Scheduled)
    ));
    assert!(matches!(
        prefill_plan(&[1], 0, true, false, 2),
        Ok(PrefillPlan::LayerMajor)
    ));
    match prefill_plan(&[5, 6], 3, true, false, 0) {
        Ok(PrefillPlan::TokenWise(steps)) => {
            assert_eq!((steps[0].token, steps[0].pos, steps[0].logits), (5, 3, false));
            assert_eq!((steps[1].token, steps[1].pos, steps[1].logits), (6, 4, true));
        }
        _ => panic!("one lane is fed token by token"),
    }
}

#[test]
fn all_rows_finish_a_phase_before_any_goes_on() {
    assert_eq!(
        chunk_parts(2, false),
        vec![
            (RowPart::Mix, 0),
            (RowPart::Mix, 1),
            (RowPart::Attend, 0),
            (RowPart::Attend, 1),
            (RowPart::InjectAttention, 0),
            (RowPart::ExpertMix, 0),
            (RowPart::InjectAttention, 1),
            (RowPart::ExpertMix, 1),
            (RowPart::Route, 0),
            (RowPart::Route, 1),
            (RowPart::Experts, 0),
            (RowPart::InjectExperts, 0),
            (RowPart::Experts, 1),
            (RowPart::InjectExperts, 1),
        ]
    );
    let order = chunk_parts(3, true);
    assert_eq!(order[..3], [(RowPart::Token, 0), (RowPart::Memory, 0), (RowPart::Mix, 0)]);
    let row: Vec<RowPart> = order.iter().filter(|p| p.1 == 1).map(|p| p.0).collect();
    assert_eq!(row[3..], chunk_parts(1, true).iter().map(|p| p.0).collect::<Vec<_>>()[3..]);
}

#[test]
fn the_experts_of_a_chunk_run_together_or_row_by_row() {
    assert_eq!(batch_start(false), BatchStage::RowWise);
    let run = |n: usize, answers: &[bool]| {
        let mut stage = batch_start(true);
        for &ok in answers {
            stage = batch_step(n, stage, ok);
        }
        stage
    };
    assert_eq!(run(2, &[true, true, true]), BatchStage::Run);
    assert_eq!(run(2, &[true, true, true, true, false]), BatchStage::Done);
    assert_eq!(run(2, &[true, true, true, false]), BatchStage::RowWise);
    assert_eq!(run(2, &[true, false]), BatchStage::RowWise);
    assert_eq!(run(2, &[false]), BatchStage::RowWise);
    assert_eq!(run(0, &[true]), BatchStage::Run);
}

#[test]
fn rows_are_grouped_by_expert_and_put_back() {
    let routes = vec![vec![4, 2], vec![2, 9]];
    let experts = unique_experts(&routes, 2);
    assert_eq!(experts, vec![4, 2, 9]);
    let g = group_rows(&routes, &experts, 2).unwrap();
    assert_eq!(g.row_offsets, vec![0, 1, 3, 4]);
    assert_eq!(g.scatter, vec![(0, 0), (0, 1), (1, 0), (1, 1)]);
    let inputs = vec![vec![1, 2], vec![3, 4]];
    let gathered = gather_rows(&inputs, &g.scatter, 2);
    assert_eq!(gathered, vec![1, 2, 1, 2, 3, 4, 3, 4]);
    let back = place_rows(&gathered, &g.scatter, 2, 2, 2, 0);
    assert_eq!(back, vec![1, 2, 1, 2, 3, 4, 3, 4]);
    assert_eq!(place_rows(&vec![7], &vec![(1, 0)], 2, 1, 1, 0), vec![0, 7]);
    let on = set(&[("QWEN_PREFILL_MOE_BATCH", "1")]);
    assert!(batches_experts(&on, true, true, true, 3, 3));
    assert!(!batches_experts(&on, true, true, true, 4, 3));
    assert!(!batches_experts(&Settings::empty(), true, true, true, 1, 3));
}

#[test]
fn projections_are_cut_where_their_rows_end() {
    let rows = AttnRows { q: 2, kv: 1, index: 2 };
    let p = split_projection(&vec![1, 2, 3, 4, 5, 6], rows, 2);
    assert_eq!((p.qg, p.k, p.v, p.index_qk), (vec![1, 2], vec![3], vec![4], Some(vec![5, 6])));
    assert!(p.metal_ok);
    let c = split_chunk(&vec![1, 2, 3, 4], &vec![5, 6], &vec![7, 8], None, 2, rows);
    assert_eq!((c[1].qg.clone(), c[1].k.clone(), c[1].v.clone()), (vec![3, 4], vec![6], vec![8]));
    assert_eq!(fused_index_rows(rows, 6), 2);
    assert_eq!(fused_index_rows(rows, 5), 0);
    assert!(host_projection(&Settings::empty(), rows).fused);
    assert!(!host_projection(&Settings::empty(), rows).fused_index);
    assert!(projects_index(&Settings::empty(), true) && !projects_index(&Settings::empty(), false));
    let mut cache = vec![0; 2 * 3 * 2];
    store_kv(&mut cache, &vec![1, 2, 3, 4], 2, 3, 2, 1);
    assert_eq!(cache, vec![0, 0, 1, 2, 0, 0, 0, 0, 3, 4, 0, 0]);
    assert_eq!(rope_pair(1, 8, true), (2, 3));
    assert_eq!(rope_pair(1, 8, false), (1, 5));
    assert_eq!(kv_head(5, 8, 2), 1);
}

const DOC: &str = "{\"hidden_size\": 4, \"num_hidden_layers\": 3, \"num_attention_heads\": 2, \"num_key_value_heads\": 1, \"head_dim\": 4, \"linear_num_key_heads\": 1, \"linear_key_head_dim\": 2, \"linear_num_value_heads\": 2, \"linear_value_head_dim\": 2, \"linear_conv_kernel_dim\": 3, \"max_position_embeddings\": 16, \"vocab_size\": 8, \"indexer_n_heads\": 2, \"indexer_kv_heads\": 1, \"indexer_head_dim\": 2, \"layer_types\": [\"linear_attention\", \"full_attention\", \"other\"]}";

fn config() -> Cfg {
    let f = CfgFloats { theta: 0, eps: 0, rotary_dim: 2 };
    load_cfg(DOC.as_bytes(), &Settings::empty(), f).unwrap()
}

#[test]
fn a_layer_keeps_what_its_kind_needs() {
    let c = config();
    let s = layer_states(&c);
    assert_eq!((s[0].conv, s[0].heads, s[0].cache, s[0].index), ((4 + 4) * 2, 2 * 2 * 2, 0, 0));
    assert_eq!((s[1].conv, s[1].heads, s[1].cache, s[1].index), (0, 0, 16 * 4, 16 * 2));
    assert_eq!(s[2].index, 0);
    assert_eq!(layer_state(&c, false, true), s[1]);
    let r = attention_rows(&c, true, true);
    assert_eq!((r.q, r.kv, r.index), (16, 4, 6));
    assert_eq!(memory_conv_len(8, 4, 3), 8 * 10);
    assert_eq!(memory_conv_len(8, 1, 0), 8);
    assert_eq!(fresh_ring(0, 7), vec![7]);
    assert_eq!(fresh_ring(3, 7), vec![7, 7, 7]);
}

#[test]
fn model_numbers_are_given_once() {
    let mut ids = ModelIds::new();
    assert_eq!(ids.next_metal_model_id(), 1);
    assert_eq!(ids.next_metal_model_id(), 2);
    let mut last = ModelIds { next: u64::MAX };
    assert_eq!(last.next_metal_model_id(), u64::MAX);
    assert_eq!(last.next, 0);
}

#[test]
fn the_head_moves_once_and_only_whole() {
    let none = Settings::empty();
    let (mut head, mut aligned) = (brain(3, 2, 7), None);
    assert!(!rehome_lm_head_bf16(&none, &mut head, &mut aligned, 4, 2));
    assert!(head.bf16_bytes().is_some());
    assert!(rehome_lm_head_bf16(&none, &mut head, &mut aligned, 3, 2));
    assert!(head.bytes.is_none());
    assert_eq!(aligned.as_ref().unwrap(), &vec![7u8; 12]);
    assert!(rehome_lm_head_bf16(&none, &mut head, &mut aligned, 9, 9));
    let (mut head, mut aligned) = (brain(3, 2, 7), None);
    let off = set(&[("QWEN_LM_HEAD_ALIGNED", "0")]);
    assert!(!rehome_lm_head_bf16(&off, &mut head, &mut aligned, 3, 2));
    assert!(!rehome_lm_head_bf16(&none, &mut head, &mut aligned, usize::MAX, 2));
    assert_eq!(aligned_len(0), None);
    assert_eq!(aligned_len(1), Some(16384));
    assert_eq!(aligned_len(16385), Some(32768));
    assert_eq!(head_backend(&none, false), HeadBackend::Plain);
    assert_eq!(head_backend(&none, true), HeadBackend::Host);
    let metal = set(&[("QWEN_LM_HEAD_BACKEND", "Metal")]);
    assert_eq!(head_backend(&metal, true), HeadBackend::Metal);
    assert_eq!(
        head_backend(&set(&[("QWEN_LM_HEAD_BACKEND", "bnns")]), true),
        HeadBackend::Bnns
    );
    assert_eq!(head_fallback(HeadBackend::Metal, false), Some(HeadBackend::Host));
    assert_eq!(head_fallback(HeadBackend::Metal, true), None);
    assert_eq!(head_fallback(HeadBackend::Host, false), None);
}

#[test]
fn a_layer_goes_through_its_parts_in_order() {
    assert_eq!(
        layer_parts(0, true, false, true),
        vec![
            LayerPart::Norm,
            LayerPart::Linear,
            LayerPart::AddAttention,
            LayerPart::ExpertNorm,
            LayerPart::Experts,
            LayerPart::AddExperts,
        ]
    );
    let p = layer_parts(4, false, true, true);
    assert_eq!(p[0], LayerPart::Memory);
    assert_eq!(p[2], LayerPart::Sparse);
    assert_eq!(*p.last().unwrap(), LayerPart::InjectExperts);
    assert_eq!(layer_parts(0, false, true, false)[1], LayerPart::Full);
    assert_eq!(tail_parts(0, false), vec![TailPart::ShiftedNorm, TailPart::Head]);
    assert_eq!(tail_parts(2, true), vec![TailPart::Mix, TailPart::Norm, TailPart::Head]);
    assert_eq!(tail_parts(2, false), vec![TailPart::Mix, TailPart::Head]);
    assert_eq!(init_token_stream(&vec![1, 2], 3), vec![1, 2, 1, 2, 1, 2]);
    assert_eq!(init_token_stream(&vec![1, 2], 0), vec![1, 2]);
    let s = set(&[("QWEN_GDN_ANE", "1"), ("QWEN_GDN_ANE_LAYERS", "0-2")]);
    assert_eq!(warm_selected_gdn_ane(&s, true, &vec![true, false, true, true]), vec![0, 2]);
    assert!(warm_selected_gdn_ane(&s, false, &vec![true]).is_empty());
}

#[test]
fn a_convolution_sees_its_history_and_slides() {
    let current = vec![9, 8];
    let mut state = vec![1, 2, 3, 4];
    assert_eq!(conv_window(&current, &state, 2, 1), vec![3, 4, 8]);
    shift_conv(&current, &mut state, 2);
    assert_eq!(state, vec![2, 9, 4, 8]);
    let shape = GdnShape { k_dim: 1, k_heads: 1, v_dim: 2, v_heads: 2, kernel: 3 };
    let p = split_heads(&vec![10, 20, 1, 2, 3, 4], shape, false);
    assert_eq!(p.q, vec![10, 10]);
    assert_eq!(p.k, vec![20, 20]);
    assert_eq!(p.v, vec![1, 2, 3, 4]);
    assert_eq!(flatten_rows(&vec![vec![1], vec![2, 3]]), vec![1, 2, 3]);
    let rows = vec![vec![0u32; 4]; 2];
    assert!(chunk_is_batched(&Settings::empty(), true, 4, &rows, &rows));
    assert!(!chunk_is_batched(&Settings::empty(), true, 3, &rows, &rows));
}

#[test]
fn rows_go_through_a_layer_together_or_one_by_one() {
    assert_eq!(chunk_start(true, None), ChunkStage::Declined);
    assert_eq!(chunk_start(true, Some(false)), ChunkStage::Declined);
    assert_eq!(chunk_start(false, Some(true)), ChunkStage::Declined);
    let run = |answers: &[bool]| {
        let mut stage = chunk_start(true, Some(true));
        for &ok in answers {
            stage = chunk_step(stage, ok);
        }
        stage
    };
    assert_eq!(run(&[]), ChunkStage::Project(GdnMatrix::Qkv));
    assert_eq!(run(&[true, true, true, false]), ChunkStage::Declined);
    assert_eq!(run(&[true, true, true, true]), ChunkStage::Rows);
    assert_eq!(run(&[true, true, true, true, true, true]), ChunkStage::Done);
    assert_eq!(run(&[true, true, true, true, false, false]), ChunkStage::HostOutput);
    assert_eq!(run(&[true, true, true, true, false, false, false]), ChunkStage::Done);
}

#[test]
fn a_step_of_linear_attention_ends_done_or_broken() {
    assert_eq!(device_reply(3), GdnReply::Done);
    assert_eq!(device_reply(0), GdnReply::Declined);
    assert_eq!(device_reply(-1), GdnReply::Failed);
    let s = set(&[("QWEN_GDN_METAL", "1")]);
    for reply in [GdnReply::Done, GdnReply::Declined, GdnReply::Failed] {
        for neural in [false, true] {
            for device in [None, Some(false), Some(true)] {
                let mut run = GdnRun::start(&s, neural, device);
                let mut turns = 0;
                while !matches!(run.stage, GdnStage::Done | GdnStage::Broken) {
                    run.step(reply);
                    turns += 1;
                    assert!(turns < 20);
                }
                if matches!(run.stage, GdnStage::Done) {
                    assert!(run.updated);
                }
            }
        }
    }
}

#[test]
fn weights_go_to_the_device_as_brain_floats_or_not_at_all() {
    let mut layer = Layer::empty();
    assert!(device_weights(&mut layer, &Settings::empty()).is_none());
    layer.is_gdn = true;
    layer.gdn_in_qkv = brain(2, 2, 1);
    layer.gdn_in_z = brain(2, 2, 2);
    layer.gdn_in_a = brain(1, 2, 3);
    layer.gdn_in_b = brain(1, 2, 4);
    layer.gdn_out = brain(2, 2, 5);
    let w = device_weights(&mut layer, &Settings::empty()).unwrap();
    assert_eq!((w.qkv, w.out), (vec![1u8; 8], vec![5u8; 8]));
    let mut full = Layer::empty();
    full.attn_q = brain(2, 4, 1);
    full.attn_k = brain(1, 4, 2);
    full.attn_v = brain(1, 4, 3);
    full.attn_o = brain(4, 2, 4);
    let d = attention_device_weights(&full, &config()).unwrap();
    assert_eq!(d.qkv_rows, 4);
    assert_eq!(d.qkv.len(), 32);
    let rows = vec![vec![0u32; 4]; 2];
    let none = Settings::empty();
    assert!(chunk_projects_together(&none, &full, 4, 0, &rows));
    assert!(!chunk_projects_together(&none, &full, 4, 2, &rows));
    assert!(!chunk_projects_together(&none, &full, 5, 0, &rows));
    let off = set(&[("QWEN_PREFILL_ATTN_BATCH", "0")]);
    assert!(!chunk_projects_together(&off, &full, 4, 0, &rows));
    full.is_gdn = true;
    assert!(attention_device_weights(&full, &config()).is_none());
    assert!(!chunk_projects_together(&none, &full, 4, 0, &rows));
}

fn stages(mut run: AttnRun, replies: &[GdnReply]) -> Vec<AttnStage> {
    let mut seen = vec![run.stage];
    for &reply in replies {
        run.step(reply);
        seen.push(run.stage);
    }
    seen
}

#[test]
fn attention_is_projected_by_the_first_way_that_is_taken() {
    let rows = AttnRows { q: 2, kv: 1, index: 2 };
    let none = Settings::empty();
    let (done, declined) = (GdnReply::Done, GdnReply::Declined);
    // The device holds the index as well: one stage.
    let run = AttnRun::start(&none, rows, true, Some(6));
    assert_eq!(stages(run, &[done]), vec![AttnStage::Device, AttnStage::Done]);
    // It does not: the index comes alone, and the device counts as having projected.
    let mut run = AttnRun::start(&none, rows, true, Some(5));
    assert_eq!(stages(run, &[done, done]), vec![AttnStage::Device, AttnStage::Index, AttnStage::Done]);
    run.step(done);
    assert!(run.metal_ok && run.projected && !run.index);
    // A device that fails ends it, one that declines is followed by the host.
    assert_eq!(stages(run_of(&none, rows), &[GdnReply::Failed, done]), vec![AttnStage::Device, AttnStage::Broken, AttnStage::Broken]);
    let both = set(&[("QWEN_QSA_FUSED_INPUT", "1")]);
    assert_eq!(
        stages(run_of(&both, rows), &[declined, declined, declined, done, done]),
        vec![AttnStage::Device, AttnStage::FusedWithIndex, AttnStage::Fused, AttnStage::Each, AttnStage::Index, AttnStage::Done]
    );
    assert_eq!(
        stages(run_of(&both, rows), &[declined, done]),
        vec![AttnStage::Device, AttnStage::FusedWithIndex, AttnStage::Done]
    );
    assert_eq!(
        stages(run_of(&none, rows), &[declined, done, done]),
        vec![AttnStage::Device, AttnStage::Fused, AttnStage::Index, AttnStage::Done]
    );
    let off = set(&[("QWEN_ATTN_METAL", "0"), ("QWEN_ATTN_FUSED_INPUT", "0")]);
    let plain = AttnRows { q: 2, kv: 1, index: 0 };
    assert_eq!(
        stages(AttnRun::start(&off, plain, false, Some(9)), &[done]),
        vec![AttnStage::Each, AttnStage::Done]
    );
    assert!(builds_device_weights(&none, false, false, true));
    assert!(!builds_device_weights(&none, true, false, true));
    assert!(!builds_device_weights(&off, false, false, true));
}

fn run_of(settings: &Settings, rows: AttnRows) -> AttnRun {
    AttnRun::start(settings, rows, true, Some(6))
}

type Packer = fn(&Vec<u8>, usize, usize) -> Option<Packed>;

fn gdn_layer() -> Layer {
    let mut layer = Layer::empty();
    layer.is_gdn = true;
    layer.gdn_in_qkv = brain(2, 32, 0);
    layer.gdn_in_z = brain(2, 32, 0);
    layer.gdn_in_a = codes(32, 32);
    layer.gdn_in_b = brain(1, 32, 0);
    layer.gdn_out = brain(32, 2, 0);
    layer
}

#[test]
fn runtime_quantization_follows_its_switches() {
    let none = Settings::empty();
    let mut layers = vec![gdn_layer(), Layer::empty(), gdn_layer()];
    assert_eq!(
        quantize_gdn_runtime_mxfp4(&mut layers, &none, None::<&Packer>),
        QuantReport::Off
    );
    let on = set(&[
        ("QWEN_GDN_RUNTIME_MXFP4", "1"),
        ("QWEN_GDN_RUNTIME_MXFP4_LAYERS", "0-1"),
        ("QWEN_GDN_RUNTIME_MXFP4_SCOPE", "qkv, a,b"),
    ]);
    assert_eq!(
        quantize_gdn_runtime_mxfp4(&mut layers, &on, None::<&Packer>),
        QuantReport::Converted(2)
    );
    assert!(layers[0].gdn_in_qkv.bf16_bytes().is_none());
    assert!(layers[0].gdn_in_z.bf16_bytes().is_some());
    assert!(layers[2].gdn_in_qkv.bf16_bytes().is_some());
    assert_eq!(
        quantize_gdn_runtime_mxfp4(&mut layers, &on, None::<&Packer>),
        QuantReport::Converted(0)
    );
    let all = set(&[("QWEN_GDN_RUNTIME_MXFP4", "1")]);
    layers[2].gdn_in_b = Wt { f: vec![], bytes: None, o: 0, i: 0 };
    assert_eq!(
        quantize_gdn_runtime_mxfp4(&mut layers, &all, None::<&Packer>),
        QuantReport::Failed { layer: 2, matrix: GdnMatrix::B }
    );
    assert!(layers[2].gdn_in_qkv.bf16_bytes().is_none());
    assert!(layers[2].gdn_out.bf16_bytes().is_some());
    let never: Packer = |_, _, _| None;
    layers[2] = gdn_layer();
    let by_error = set(&[
        ("QWEN_GDN_RUNTIME_MXFP4", "1"),
        ("QWEN_GDN_RUNTIME_MXFP4_MSE", "1"),
        ("QWEN_GDN_RUNTIME_MXFP4_RESIDUAL2", "1"),
    ]);
    assert_eq!(
        quantize_gdn_runtime_mxfp4(&mut layers, &by_error, Some(&never)),
        QuantReport::Failed { layer: 2, matrix: GdnMatrix::Qkv }
    );
    let ours: Packer = |w, _, _| {
        Some(Packed {
            codes: vec![w[0]],
            scales: vec![9],
            left: vec![7; w.len()],
        })
    };
    layers.truncate(1);
    layers[0] = gdn_layer();
    assert_eq!(
        quantize_gdn_runtime_mxfp4(&mut layers, &by_error, Some(&ours)),
        QuantReport::Converted(4)
    );
    match &layers[0].gdn_in_qkv.bytes {
        Some(WtBytes::Mxfp4 { weights, scales, .. }) => {
            assert_eq!((weights.len(), weights[1]), (2, 7));
            assert_eq!(scales, &vec![9, 9]);
        }
        _ => panic!("two layers of codes"),
    }
    assert_eq!(scale_policy(&none), "max");
    assert_eq!(scale_policy(&set(&[("QWEN_GDN_RUNTIME_MXFP4_MSE", "1")])), "mse:r3");
}

#[test]
fn blocks_of_signed_bytes_are_made_where_they_are_supported() {
    let none = Settings::empty();
    let pack: Packer = |w, o, i| {
        Some(Packed {
            codes: vec![w[0]; o * i],
            scales: vec![0; o * i / 8],
            left: vec![],
        })
    };
    let mut layers = vec![gdn_layer()];
    assert_eq!(
        quantize_gdn_runtime_q8(&mut layers, &none, &pack),
        Ok(QuantReport::Off)
    );
    let on = |block: &str, residuals: &str| {
        set(&[
            ("QWEN_GDN_RUNTIME_Q8", "1"),
            ("QWEN_GDN_RUNTIME_Q8_BLOCK", block),
            ("QWEN_GDN_RUNTIME_Q8_RESIDUALS", residuals),
        ])
    };
    assert_eq!(
        quantize_gdn_runtime_q8(&mut layers, &on("5", "0"), &pack),
        Err(Q8Choice::BadBlock(5))
    );
    assert_eq!(
        quantize_gdn_runtime_q8(&mut layers, &on("16", "1"), &pack),
        Err(Q8Choice::BadResiduals)
    );
    assert_eq!(q8_choice(&none), Q8Choice::Off);
    assert_eq!(
        quantize_gdn_runtime_q8(&mut layers, &on("32", "1"), &pack),
        Ok(QuantReport::Failed { layer: 0, matrix: GdnMatrix::A })
    );
    layers[0].gdn_in_a = brain(1, 32, 0);
    assert_eq!(
        quantize_gdn_runtime_q8(&mut layers, &on("32", "1"), &pack),
        Ok(QuantReport::Converted(3))
    );
    assert!(matches!(
        layers[0].gdn_out.bytes,
        Some(WtBytes::Q8Block { block: 32, residuals: 1, .. })
    ));
}

#[test]
fn a_stopped_token_goes_on_with_the_state_it_stopped_with() {
    let mut s: Scheduler<u32> = Scheduler::new();
    assert!(!s.block(true, vec![3]));
    s.enable_sched_mode();
    assert!(!s.block(true, vec![]));
    assert!(s.block(true, vec![3, 4]));
    assert!(s.pause_at(2, vec![1], vec![], vec![5, 6], 10, 7));
    match s.answer(vec![]) {
        SchedForward::NeedExperts { layer, experts } => {
            assert_eq!(layer, 2);
            assert_eq!(experts, vec![3, 4]);
        }
        SchedForward::Logits(_) => panic!("the token has stopped"),
    }
    let p = s.resume(10, 7).unwrap();
    assert_eq!((p.layer, p.stream.clone()), (2, vec![5, 6]));
    assert!(s.block(true, vec![8]));
    assert!(s.pause_again(p).is_none());
    assert!(s.resume(10, 8).is_none());
    assert!(s.resume(10, 7).is_none());
    assert!(matches!(s.answer(vec![1]), SchedForward::Logits(_)));
}

#[test]
fn a_token_that_stops_goes_its_way_all_the_same() {
    let c = config();
    let way = token_parts(&c, false, true);
    assert_eq!(way[0], TokenPart::Begin);
    assert_eq!(*way.last().unwrap(), TokenPart::Tail(TailPart::Head));
    assert!(token_parts(&c, false, false).len() < way.len());
    let mut run = TokenRun::new(&c, false, true);
    let mut seen = vec![];
    let mut held = 0;
    let mut stops = vec![];
    loop {
        match run.next() {
            Some(part) => {
                let asks = matches!(part, TokenPart::Layer { part: LayerPart::Experts, .. });
                if asks && held < 2 {
                    held += 1;
                    run.step(TokenEvent::HeldUp);
                } else {
                    held = 0;
                    run.step(TokenEvent::HeldUp);
                    if run.stopped {
                        run.step(TokenEvent::Resumed);
                    }
                    seen.push(part);
                    run.step(TokenEvent::Ran);
                }
            }
            None if run.stopped => {
                let again = match run.way[run.at] {
                    TokenPart::Layer { layer, .. } => TokenRun::at_experts(&c, false, layer),
                    other => panic!("{other:?}"),
                };
                assert_eq!(again.at, run.at);
                stops.push(run.at);
                run.step(TokenEvent::Ran);
                run.step(TokenEvent::Resumed);
            }
            None => break,
        }
    }
    assert_eq!(seen, way);
    assert_eq!(stops.len(), 2 * c.layers);
}

#[test]
fn a_scheduled_token_is_taken_up_in_front_of_its_experts() {
    let c = config();
    let mut s: Scheduler<u32> = Scheduler::new();
    s.enable_sched_mode();
    assert!(s.block(true, vec![4]));
    assert!(s.pause_at(c.layers - 1, vec![1], vec![2], vec![3], 9, 5));
    let (run, pause) = forward_scheduled(&mut s, &c, true, 9, 5);
    assert_eq!(pause.unwrap().stream, vec![3]);
    assert_eq!(
        run.next(),
        Some(TokenPart::Layer {
            layer: c.layers - 1,
            part: LayerPart::Experts
        })
    );
    let (fresh, none) = forward_scheduled(&mut s, &c, true, 9, 5);
    assert!(none.is_none());
    assert_eq!(fresh.next(), Some(TokenPart::Begin));
}

/// One part of a row, on numbers: a memory and an attention that remember what they are given.
fn toy_part(part: RowPart, layer: u64, memory: &mut u64, attention: &mut u64, row: &mut u64) {
    match part {
        RowPart::Token => *memory = memory.wrapping_mul(31).wrapping_add(*row),
        RowPart::Memory => *row = row.wrapping_mul(7).wrapping_add(*memory),
        RowPart::Attend => {
            *attention = attention.wrapping_mul(17).wrapping_add(*row);
            *row = row.wrapping_add(*attention);
        }
        RowPart::Route => *row ^= layer,
        _ => *row = row.wrapping_mul(3).wrapping_add(layer + 1),
    }
}

#[test]
fn a_chunk_leaves_what_its_tokens_leave() {
    let (layers, ple, n) = (3usize, 1usize, 4usize);
    let start: Vec<u64> = vec![5, 11, 2, 9];
    let mut by_layer = (vec![1u64; layers], vec![2u64; layers], start.clone());
    for l in 0..layers {
        for (part, row) in chunk_parts(n, l == ple) {
            toy_part(part, l as u64, &mut by_layer.0[l], &mut by_layer.1[l], &mut by_layer.2[row]);
        }
    }
    let mut by_token = (vec![1u64; layers], vec![2u64; layers], start.clone());
    for row in 0..n {
        for l in 0..layers {
            for (part, _) in chunk_parts(1, l == ple) {
                toy_part(part, l as u64, &mut by_token.0[l], &mut by_token.1[l], &mut by_token.2[row]);
            }
        }
    }
    assert_eq!(by_layer, by_token);
    assert_ne!(by_layer.2, start);
}

#[test]
fn stopping_changes_neither_state_nor_streams() {
    let before = |l: usize, state: &mut u64, stream: &[u64]| -> (Vec<u64>, Vec<u64>, Vec<u64>) {
        *state = state.wrapping_mul(13).wrapping_add(stream[0] + l as u64);
        (vec![*state, stream[1]], vec![l as u64 + 2], stream.to_vec())
    };
    let rest = |l: usize, x: &[u64], inj: &[u64], stream: &[u64]| -> Vec<u64> {
        stream.iter().zip(x).map(|(s, v)| s + inj[0] * (v + l as u64)).collect()
    };
    let layers = 3;
    let mut straight = (1u64, vec![4u64, 6]);
    for l in 0..layers {
        let (x, inj, stream) = before(l, &mut straight.0, &straight.1);
        straight.1 = rest(l, &x, &inj, &stream);
    }
    let mut s: Scheduler<u64> = Scheduler::new();
    s.enable_sched_mode();
    let mut state = 1u64;
    let mut stream = vec![4u64, 6];
    let mut stops = 0;
    for l in 0..layers {
        let (x, inj, kept) = before(l, &mut state, &stream);
        assert!(s.block(true, vec![l as u32]));
        assert!(s.pause_at(l, x, inj, kept, 10, 7));
        let first = s.resume(10, 7).unwrap();
        assert!(s.block(true, vec![l as u32 + 1]));
        assert!(s.pause_again(first).is_none());
        let second = s.resume(10, 7).unwrap();
        assert_eq!(second.experts, vec![l as u32 + 1]);
        let p = s.pause_again(second).unwrap();
        stream = rest(p.layer, &p.x, &p.inj, &p.stream);
        stops += 2;
    }
    assert_eq!(stops, 6);
    assert_eq!((state, stream), straight);
}

#[test]
fn attention_is_projected_back_by_the_device_or_the_host() {
    let replies = [GdnReply::Done, GdnReply::Declined, GdnReply::Failed];
    for held in [false, true] {
        assert!(!asks_device_for_output(false, held));
        for reply in replies {
            assert_eq!(output_projection(false, held, reply), OutputBy::Host);
        }
    }
    assert!(asks_device_for_output(true, true));
    assert_eq!(
        replies.map(|reply| output_projection(true, true, reply)),
        [OutputBy::Device, OutputBy::Host, OutputBy::Broken]
    );
    assert!(!asks_device_for_output(true, false));
    assert_eq!(replies.map(|reply| output_projection(true, false, reply)), [OutputBy::Nobody; 3]);
    // A device that has projected holds weights, so that somebody projects back.
    let mut run = run_of(&Settings::empty(), AttnRows { q: 2, kv: 1, index: 2 });
    run.step(GdnReply::Done);
    assert_eq!(output_projection(run.metal_ok, true, GdnReply::Done), OutputBy::Device);
}

#[test]
fn sizes_are_tested_before_they_are_counted() {
    let c = config();
    assert!(check_keeps(&c) && check_rows(&c));
    let wide = |change: fn(&mut Cfg)| {
        let mut c = config();
        change(&mut c);
        (check_keeps(&c), check_rows(&c))
    };
    assert_eq!(wide(|c| c.max_t = usize::MAX), (false, true));
    assert_eq!(wide(|c| c.heads = usize::MAX / 2 + 1), (true, false));
    assert_eq!(wide(|c| c.idx_n_heads = usize::MAX), (true, false));
    assert!(!wide(|c| c.lin_v_heads = usize::MAX).0);
    let shape = GdnShape { k_dim: 2, k_heads: 2, v_dim: 3, v_heads: 4, kernel: 4 };
    assert!(shape.check());
    assert!(!GdnShape { v_heads: 0, ..shape }.check());
    assert!(!GdnShape { v_heads: 5, ..shape }.check());
    assert!(!GdnShape { k_heads: 0, ..shape }.check());
    assert!(!GdnShape { kernel: 0, ..shape }.check());
    assert!(!GdnShape { kernel: usize::MAX, ..shape }.check());
    assert!(GdnShape { k_dim: 0, v_dim: 0, kernel: usize::MAX, ..shape }.check());
    assert!(check_memory(8, 4, 3));
    assert!(!check_memory(8, 0, 3));
    assert!(check_memory(0, usize::MAX, 1));
    assert!(!check_memory(0, usize::MAX, 2));
    assert!(!check_memory(2, usize::MAX, 1));
}
