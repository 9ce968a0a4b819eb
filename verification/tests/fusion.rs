use logan_qwen4::fusion::{
    fuse_candidates, fusion_sums, peak, FusionArm, Predictor, RankedCandidate, StageConfig,
};
use logan_qwen4::hybrid_stage::StageArena;
use logan_qwen4::rank::{push_unique, rank, rank_single};

const RRF_K: f32 = 60.0;

fn cand(list: &[(usize, f32)]) -> Vec<RankedCandidate> {
    list.iter()
        .map(|&(expert, score)| RankedCandidate {
            expert,
            score: score.to_bits(),
        })
        .collect()
}

fn scored(list: &[(usize, f32)]) -> Vec<(usize, u32)> {
    list.iter().map(|&(e, s)| (e, s.to_bits())).collect()
}

fn scaled(score: u32, best: u32) -> f32 {
    if best == 0 {
        f32::from_bits(score)
    } else {
        f32::from_bits(score) / f32::from_bits(best)
    }
}

fn fuse(
    edge0: &Vec<RankedCandidate>,
    routescout: &Vec<(usize, u32)>,
    arm: FusionArm,
    w_edge0: f32,
    w_routescout: f32,
    budget: usize,
) -> Vec<usize> {
    let e0: Vec<(usize, u32)> = edge0.iter().map(|c| (c.expert, c.score)).collect();
    let (peak_e0, peak_rs) = (peak(&e0), peak(routescout));
    let sums: Vec<(usize, u32)> = fusion_sums(edge0, routescout)
        .iter()
        .map(|(expert, addends)| {
            let mut sum: Option<f32> = None;
            for &(from, place) in addends {
                let x = match (arm, from) {
                    (FusionArm::ReciprocalRank, _) => 1.0 / (RRF_K + place as f32),
                    (_, Predictor::Edge0) => scaled(edge0[place].score, peak_e0) * w_edge0,
                    (_, Predictor::RouteScout) => {
                        scaled(routescout[place].1, peak_rs) * w_routescout
                    }
                };
                sum = Some(sum.map_or(x, |s| s + x));
            }
            (*expert, sum.unwrap_or(0.0).to_bits())
        })
        .collect();
    fuse_candidates(edge0, routescout, arm, &sums, budget)
}

#[test]
fn edge0_arm_takes_only_edge0_in_rank_order() {
    let e0 = cand(&[(7, 0.5), (3, 0.3), (9, 0.2)]);
    let rs = scored(&[(1, 9.0), (2, 8.0)]);
    assert_eq!(fuse(&e0, &rs, FusionArm::Edge0, 1.0, 1.0, 2), vec![7, 3]);
}

#[test]
fn routescout_arm_ignores_edge0_entirely() {
    let e0 = cand(&[(7, 0.5), (3, 0.3)]);
    let rs = scored(&[(1, 9.0), (2, 8.0)]);
    assert_eq!(fuse(&e0, &rs, FusionArm::RouteScout, 1.0, 1.0, 2), vec![1, 2]);
}

#[test]
fn union_interleaves_and_deduplicates() {
    let e0 = cand(&[(5, 0.9), (7, 0.5)]);
    let rs = scored(&[(5, 1.0), (2, 0.5)]);
    assert_eq!(fuse(&e0, &rs, FusionArm::Union, 1.0, 1.0, 4), vec![5, 7, 2]);
}

#[test]
fn reciprocal_rank_is_scale_free() {
    let e0 = cand(&[(5, 0.001), (7, 0.0009)]);
    let rs = scored(&[(5, 900.0), (7, 800.0)]);
    assert_eq!(
        fuse(&e0, &rs, FusionArm::ReciprocalRank, 1.0, 1.0, 2),
        vec![5, 7]
    );
}

#[test]
fn weighted_fusion_peak_normalizes_each_source() {
    let e0 = cand(&[(5, 0.001), (7, 0.0005)]);
    let rs = scored(&[(9, 4.0), (7, 2.0)]);
    assert_eq!(
        fuse(&e0, &rs, FusionArm::Weighted, 1.0, 1.0, 3),
        vec![5, 7, 9]
    );
}

#[test]
fn zero_weight_source_contributes_nothing() {
    let e0 = cand(&[(5, 0.9), (7, 0.5)]);
    let rs = scored(&[(1, 9.0), (2, 8.0)]);
    assert_eq!(fuse(&e0, &rs, FusionArm::Weighted, 1.0, 0.0, 4), vec![5, 7]);
}

fn arms() -> [FusionArm; 5] {
    [
        FusionArm::Edge0,
        FusionArm::RouteScout,
        FusionArm::Union,
        FusionArm::ReciprocalRank,
        FusionArm::Weighted,
    ]
}

#[test]
fn fusion_never_exceeds_budget() {
    let e0 = cand(&[(1, 0.9), (2, 0.8), (3, 0.7), (4, 0.6)]);
    let rs = scored(&[(5, 1.0), (6, 0.9)]);
    for arm in arms() {
        assert_eq!(
            fuse(&e0, &rs, arm, 1.0, 1.0, 2).len(),
            2,
            "arm {arm:?} exceeded its budget"
        );
    }
}

#[test]
fn no_duplicate_expert_id_consumes_two_slots() {
    let e0 = cand(&[(5, 0.9), (7, 0.5)]);
    let rs = scored(&[(5, 900.0), (2, 800.0)]);
    for arm in arms() {
        let got = fuse(&e0, &rs, arm, 1.0, 1.0, 8);
        let mut sorted = got.clone();
        sorted.sort_unstable();
        let before = sorted.len();
        sorted.dedup();
        assert_eq!(
            before,
            sorted.len(),
            "arm {arm:?} emitted a duplicate expert"
        );
    }
    let mut arena = StageArena::for_test(1, 4, 1024);
    let (first, _, fresh_a) = arena.claim_stage(0, 5).expect("first");
    let (second, _, fresh_b) = arena.claim_stage(0, 5).expect("second");
    assert!(fresh_a && !fresh_b);
    assert_eq!(first, second);
}

#[test]
fn an_arm_is_known_by_its_name_and_by_others() {
    for arm in arms() {
        assert_eq!(FusionArm::from_env(Some(arm.name())), arm);
    }
    assert_eq!(FusionArm::from_env(Some(" RS ")), FusionArm::RouteScout);
    assert_eq!(
        FusionArm::from_env(Some("reciprocal")),
        FusionArm::ReciprocalRank
    );
    assert_eq!(FusionArm::from_env(Some("nothing")), FusionArm::Weighted);
    assert_eq!(FusionArm::from_env(None), FusionArm::Weighted);
}

#[test]
fn the_settings_of_staging_have_bounds_and_defaults() {
    let c = StageConfig::from_env(None, None, None, None, None, None);
    assert_eq!(c.candidates, 4);
    assert_eq!(c.arm, FusionArm::Weighted);
    assert_eq!(c.w_edge0, 1.0f32.to_bits());
    assert!(c.enabled && c.resident_prior);
    let c = StageConfig::from_env(
        Some("1000"),
        Some("union"),
        Some(f32::NAN.to_bits()),
        Some(2.5f32.to_bits()),
        Some("0"),
        Some(""),
    );
    assert_eq!(c.candidates, 64);
    assert_eq!(c.w_edge0, 1.0f32.to_bits());
    assert_eq!(c.w_routescout, 2.5f32.to_bits());
    assert!(!c.enabled && !c.resident_prior);
    assert_eq!(
        StageConfig::from_env(Some("0"), None, None, None, None, None).candidates,
        1
    );
}

#[test]
fn ranking_puts_equal_scores_in_order_of_their_ids() {
    let list = scored(&[(9, 1.0), (2, 1.0), (4, 3.0), (1, -1.0), (6, f32::NAN)]);
    assert_eq!(rank_single(&list, 9), vec![4, 2, 9]);
    let all: Vec<usize> = rank(&scored(&[(1, 0.5), (0, 0.5), (2, 0.75)]))
        .iter()
        .map(|c| c.0)
        .collect();
    assert_eq!(all, vec![2, 0, 1]);
    let mut out = vec![3];
    push_unique(&mut out, 3, 4);
    push_unique(&mut out, 5, 2);
    push_unique(&mut out, 6, 2);
    assert_eq!(out, vec![3, 5]);
}

#[test]
fn nothing_is_fused_without_a_budget() {
    let e0 = cand(&[(1, 0.9)]);
    for arm in arms() {
        assert!(fuse(&e0, &vec![], arm, 1.0, 1.0, 0).is_empty());
    }
    assert_eq!(peak(&scored(&[(0, f32::INFINITY), (1, -3.0)])), 0);
}

#[test]
fn rank_arms_look_at_the_order_alone() {
    let edge0 = |scores: [f32; 2]| -> Vec<RankedCandidate> {
        [4usize, 7]
            .into_iter()
            .zip(scores)
            .map(|(expert, s)| RankedCandidate { expert, score: s.to_bits() })
            .collect()
    };
    let scout = |scores: [f32; 2]| -> Vec<(usize, u32)> {
        [7usize, 1].into_iter().zip(scores).map(|(e, s)| (e, s.to_bits())).collect()
    };
    let (a, b) = (edge0([3.0, 2.0]), scout([9.0, 1.0]));
    let (c, d) = (edge0([-5.0, 80.0]), scout([0.5, f32::NAN]));
    assert_eq!(fusion_sums(&a, &b), fusion_sums(&c, &d));
    assert_eq!(
        fuse_candidates(&a, &b, FusionArm::Union, &vec![], 3),
        fuse_candidates(&c, &d, FusionArm::Union, &vec![(1, 0)], 3)
    );
    assert_eq!(fuse_candidates(&a, &b, FusionArm::Union, &vec![], 3), vec![4, 7, 1]);
}
