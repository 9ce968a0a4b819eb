use logan_qwen4::edge0_router::{
    append_halves, append_onehot, head_tensor, rank_by_score, resolve_weights_path, Edge0Router,
    HeadPart, RouterFault,
    WeightsAt, WeightsFault, DEFAULT_EDGE0_TOPK, EDGE0_OWNER_FIRST, EDGE0_START_LAYER,
};
use logan_qwen4::edge0_train_trace::{
    make_run_id, record_bytes, route_to_fixed, validate_existing_header, write_header,
    write_manifest, HeaderFault, Pending, TraceCollector, TraceFault,
};
use logan_qwen4::floatbits::{f16_to_f32, f32_to_f16_bits};

#[test]
fn f16_roundtrip_known_values() {
    for &value in &[0.0f32, -0.0, 1.0, -2.0, 0.5, 65504.0] {
        assert_eq!(
            f32::from_bits(f16_to_f32(f32_to_f16_bits(value.to_bits()))),
            value
        );
    }
}

#[test]
fn onehot_is_a_set() {
    let mut v = Vec::new();
    append_onehot(&mut v, &vec![3, 1, 3], 5);
    let got: Vec<f32> = v
        .into_iter()
        .map(|h| f32::from_bits(f16_to_f32(h)))
        .collect();
    assert_eq!(got, vec![0.0, 1.0, 0.0, 1.0, 0.0]);
}

#[test]
fn softmax_topk_is_normalized_and_stable() {
    let logits = [0.0f32, 3.0, 2.0, 3.0, -1.0];
    let max = logits.iter().copied().fold(f32::NEG_INFINITY, f32::max);
    let mut probs: Vec<f32> = logits.iter().map(|&x| (x - max).exp()).collect();
    let denom: f32 = probs.iter().sum();
    for p in &mut probs {
        *p /= denom;
    }
    let bits: Vec<u32> = probs.iter().map(|p| p.to_bits()).collect();
    let ranked = rank_by_score(&bits, 3);
    let experts: Vec<usize> = ranked.iter().map(|c| c.expert).collect();
    let mut scores: Vec<f32> = ranked.iter().map(|c| f32::from_bits(c.score)).collect();
    let selected: f32 = scores.iter().sum();
    for s in &mut scores {
        *s /= selected;
    }
    assert_eq!(experts, vec![1, 3, 2]);
    assert!((scores.iter().sum::<f32>() - 1.0).abs() < 1e-6);
}

#[test]
fn record_size_matches_layout() {
    assert_eq!(record_bytes(2048, 4), 4144);
    assert_eq!(record_bytes(2048, 6), 4160);
}

#[test]
fn missing_route_is_sentinel_padded_to_requested_k() {
    assert_eq!(
        route_to_fixed(&vec![3, 9], 4),
        vec![3, 9, u16::MAX, u16::MAX]
    );
    assert_eq!(
        route_to_fixed(&vec![3, 9], 6),
        vec![3, 9, u16::MAX, u16::MAX, u16::MAX, u16::MAX]
    );
}

#[test]
fn f16_known_values() {
    assert_eq!(f32_to_f16_bits(0.0f32.to_bits()), 0x0000);
    assert_eq!(f32_to_f16_bits(1.0f32.to_bits()), 0x3c00);
    assert_eq!(f32_to_f16_bits((-2.0f32).to_bits()), 0xc000);
}

const HIDDEN_FOR_TEST: usize = 2048;

#[test]
fn token_boundary_promotes_next_without_aliasing_new_owner_write() {
    let layers = 40;
    let k = 6;
    let mut collector = TraceCollector {
        hidden: HIDDEN_FOR_TEST,
        k,
        record_bytes: record_bytes(HIDDEN_FOR_TEST, k),
        active: true,
        generation: 0,
        run_id: 1,
        current: (0..layers).map(|_| None).collect(),
        next: (0..layers).map(|_| None).collect(),
        previous_routes: (0..layers).map(|_| Vec::new()).collect(),
        samples: 0,
    };
    collector.next[7] = Some(Pending {
        generation: 0,
        hidden: vec![0; HIDDEN_FOR_TEST],
        current: vec![1, 2, 3, 4, 5, 6],
        previous: vec![7, 8, 9, 10, 11, 12],
    });
    collector.begin_token();
    assert_eq!(collector.generation, 1);
    assert_eq!(
        collector.current[7].as_ref().map(|p| p.generation),
        Some(0),
        "token t's feature must be consumable during token t+1"
    );
    assert!(
        collector.next[7].is_none(),
        "token t+1 needs a distinct slot for its new owner feature"
    );
}

#[test]
fn a_sample_is_complete_one_token_and_one_layer_later() {
    let mut c = TraceCollector::from_env(40, 2048, 256, Some("2"), 77).unwrap();
    let hidden = vec![1.0f32.to_bits(); 2048];
    let (route, shares) = (vec![3usize, 9], vec![0x3800u16, 0x3800]);
    assert!(c.observe(6, &hidden, &route, &shares).unwrap().is_none());
    c.begin_decode();
    assert!(c.observe(6, &hidden, &route, &shares).unwrap().is_none());
    c.begin_token();
    let (owner, bytes) = c
        .observe(7, &hidden, &route, &shares)
        .unwrap()
        .expect("a complete sample");
    assert_eq!(owner, 6);
    assert_eq!(bytes.len() as u32, record_bytes(2048, 2));
    assert_eq!(c.samples, 1);
    assert!(!c.flush_due());
    c.samples = 4096;
    assert!(c.flush_due());
}

#[test]
fn a_collector_refuses_other_shapes_and_widths() {
    assert_eq!(
        TraceCollector::from_env(39, 2048, 256, None, 1).err(),
        Some(TraceFault::Geometry {
            layers: 39,
            hidden: 2048,
            experts: 256
        })
    );
    assert_eq!(
        TraceCollector::from_env(40, 2048, 256, Some("x"), 1).err(),
        Some(TraceFault::NotANumber)
    );
    assert_eq!(
        TraceCollector::from_env(40, 2048, 256, Some("0"), 1).err(),
        Some(TraceFault::Width { k: 0, experts: 256 })
    );
    let mut c = TraceCollector::from_env(40, 2048, 256, Some("2"), 1).unwrap();
    c.begin_decode();
    assert_eq!(
        c.observe(6, &vec![0; 2048], &vec![1], &vec![0]).err(),
        Some(TraceFault::RouteWidth {
            layer: 6,
            ids: 1,
            weights: 1
        })
    );
    assert_eq!(
        c.observe(6, &vec![0; 3], &vec![1, 2], &vec![0, 0]).err(),
        Some(TraceFault::HiddenWidth {
            layer: 6,
            got: 3,
            want: 2048
        })
    );
}

#[test]
fn a_header_fits_what_it_was_written_for_and_nothing_else() {
    let record = record_bytes(2048, 4);
    let header = write_header(6, 2048, 256, 4, record);
    assert_eq!(header.len(), 32);
    assert!(validate_existing_header(&header, 6, 2048, 256, 4, record).is_ok());
    assert!(matches!(
        validate_existing_header(&header, 7, 2048, 256, 4, record),
        Err(HeaderFault::Mismatch(f)) if f.owner == 6
    ));
    assert_eq!(
        validate_existing_header(&header[..31], 6, 2048, 256, 4, record),
        Err(HeaderFault::Short)
    );
    let mut other = header.clone();
    other[0] ^= 1;
    assert!(validate_existing_header(&other, 6, 2048, 256, 4, record).is_err());
}

#[test]
fn a_run_is_described_in_json() {
    assert_eq!(make_run_id(5, 1), 5 ^ (1u64 << 32));
    let text = write_manifest(9, 40, 2048, 256, 4, 4144);
    assert!(text.contains("\"run_id\": 9"));
    assert!(text.contains("\"record_bytes\": 4144"));
    assert!(text.contains("native K4"));
}

fn probs() -> Vec<u32> {
    (0..256)
        .map(|i| (1.0f32 / (1.0 + i as f32)).to_bits())
        .collect()
}

#[test]
fn a_prediction_is_for_the_next_layer_of_the_next_token() {
    let mut r = Edge0Router::load(40, 2048, 256, 512, 8, None).unwrap();
    assert_eq!(r.route_k(), DEFAULT_EDGE0_TOPK);
    let shares = vec![0u32; DEFAULT_EDGE0_TOPK];
    let (consumer, ranked) =
        r.predict_next_ranked(EDGE0_OWNER_FIRST, &vec![4, 2], &probs(), shares, 6);
    assert_eq!(consumer, EDGE0_START_LAYER);
    assert_eq!(ranked.len(), 6);
    assert!(r.prediction(consumer).is_none());
    r.begin_token();
    assert_eq!(r.prediction(consumer).unwrap().experts, vec![0, 1, 2, 3]);
    r.begin_token();
    assert!(r.prediction(consumer).is_none());
    r.reset();
    assert_eq!(r.token_generation, 0);
}

#[test]
fn features_hold_the_input_and_two_routes() {
    let mut r = Edge0Router::load(40, 2048, 256, 512, 8, Some("2")).unwrap();
    let hidden = vec![1.0f32.to_bits(); 2048];
    let f = r.features(6, &hidden, &vec![5]).unwrap().unwrap();
    assert_eq!(f.len(), 2048 + 256 + 256);
    assert_eq!(f[0], 0x3c00);
    assert_eq!(f[2048 + 5], 0x3c00);
    assert!(f[2048 + 256..].iter().all(|&h| h == 0));
    r.predict_next_ranked(6, &vec![5], &probs(), vec![0, 0], 2);
    let f = r.features(6, &hidden, &vec![9]).unwrap().unwrap();
    assert_eq!(f[2048 + 256 + 5], 0x3c00);
    assert!(r.features(3, &hidden, &vec![5]).unwrap().is_none());
    assert_eq!(
        r.features(6, &vec![0; 4], &vec![5]).err(),
        Some(RouterFault::HiddenWidth { got: 4, want: 2048 })
    );
}

#[test]
fn a_router_refuses_other_shapes_and_widths() {
    assert_eq!(
        Edge0Router::load(40, 1024, 256, 512, 8, None).err(),
        Some(RouterFault::Geometry {
            layers: 40,
            hidden: 1024,
            experts: 256,
            moe_inter: 512
        })
    );
    assert_eq!(
        Edge0Router::load(40, 2048, 256, 512, 8, Some("-")).err(),
        Some(RouterFault::NotANumber)
    );
    assert_eq!(
        Edge0Router::load(40, 2048, 256, 512, 8, Some("9")).err(),
        Some(RouterFault::RouteK { k: 9, topk: 8 })
    );
}

#[test]
fn weights_are_looked_for_in_order() {
    assert_eq!(
        resolve_weights_path(Some(true), None, None),
        Ok(WeightsAt::Setting)
    );
    assert_eq!(
        resolve_weights_path(Some(false), Some(true), None),
        Err(WeightsFault::SettingMissing)
    );
    assert_eq!(
        resolve_weights_path(None, Some(true), Some(true)),
        Ok(WeightsAt::Beside)
    );
    assert_eq!(
        resolve_weights_path(None, Some(false), Some(true)),
        Ok(WeightsAt::Inside)
    );
    assert_eq!(
        resolve_weights_path(None, None, None),
        Err(WeightsFault::NotFound)
    );
}

#[test]
fn halves_are_appended_one_for_each_single() {
    let mut out = vec![7u16];
    append_halves(&mut out, &vec![1.0f32.to_bits(), (-0.5f32).to_bits()]);
    assert_eq!(out, vec![7, 0x3c00, 0xb800]);
}

#[test]
fn the_matrices_of_a_head_have_names_and_shapes() {
    let (name, shape) = head_tensor(HeadPart::First, 6, 2048, 256);
    assert_eq!((name.as_str(), shape), ("layers.6.fc1.weight", [512, 2560]));
    let (name, shape) = head_tensor(HeadPart::Second, 38, 2048, 256);
    assert_eq!((name.as_str(), shape), ("layers.38.fc2.weight", [256, 512]));
    let (name, shape) = head_tensor(HeadPart::Linear, 38, 2048, 256);
    assert_eq!(
        (name.as_str(), shape),
        ("layers.38.linear_init.weight", [256, 2560])
    );
}
