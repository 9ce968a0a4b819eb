use logan_qwen4::hybrid_stage::{
    classify_staged, SlotTag, StageArena, StageArenaError, StageBlock, StageStats, StagedTake, FREE,
};

#[test]
fn staged_bytes_are_served_to_the_next_token() {
    let mut arena = StageArena::for_test(1, 4, 1024);
    assert!(arena.claim_stage(0, 7).is_some());
    arena.set_event(0, 7, 1);
    arena.begin_token(&vec![]);
    assert!(
        matches!(arena.lookup(0, 7, None), Some(StagedTake::Hit { .. })),
        "an expert staged during token t must be a hit at t+1"
    );
}

#[test]
fn an_end_to_end_stage_then_consume_cycle_actually_stages() {
    let mut arena = StageArena::for_test(2, 4, 1024);
    let mut hits = 0u64;
    assert!(arena.claim_stage(1, 5).is_some());
    arena.set_event(1, 5, 1);
    arena.begin_token(&vec![]);
    if let Some(StagedTake::Hit { .. }) = arena.lookup(1, 5, None) {
        hits += 1;
    }
    assert_eq!(hits, 1, "a staged expert must be servable one token later");
    assert_eq!(
        arena.stats.unplaced, 0,
        "staging must never run out of slots"
    );
}

#[test]
fn filling_all_m_candidates_while_the_consumer_has_not_run_yet_places_all() {
    let mut arena = StageArena::for_test(2, 4, 1024);
    for expert in 0..4u32 {
        assert!(
            arena.claim_stage(1, expert).is_some(),
            "candidate {expert} of M=4 must find a slot"
        );
    }
    assert_eq!(arena.stats.unplaced, 0);
}

#[test]
fn a_slot_staged_for_the_next_token_is_not_served_to_this_one() {
    let mut arena = StageArena::for_test(1, 4, 1024);
    assert!(arena.claim_stage(0, 7).is_some());
    assert!(
        matches!(arena.lookup(0, 7, None), Some(StagedTake::Miss)),
        "a prediction must never be visible to the token that produced it"
    );
}

#[test]
fn a_new_request_rejects_every_previous_slot() {
    let mut arena = StageArena::for_test(1, 4, 1024);
    assert!(arena.claim_stage(0, 7).is_some());
    arena.set_event(0, 7, 1);
    arena.begin_token(&vec![]);
    assert!(matches!(
        arena.lookup(0, 7, None),
        Some(StagedTake::Hit { .. })
    ));
    arena.begin_request(&vec![]);
    assert!(
        matches!(arena.lookup(0, 7, None), Some(StagedTake::Miss)),
        "a previous request's bytes must never be served"
    );
}

#[test]
fn stale_rejection_is_counted_when_the_expert_is_held_under_another_generation() {
    let mut arena = StageArena::for_test(1, 4, 1024);
    assert!(arena.claim_stage(0, 7).is_some());
    assert!(matches!(arena.lookup(0, 7, None), Some(StagedTake::Miss)));
    assert_eq!(
        arena.stats.stale_rejected, 0,
        "a next-token prediction is in another parity, not a stale entry"
    );
    let mut arena = StageArena::for_test(1, 4, 1024);
    assert!(arena.claim_stage(0, 9).is_some());
    arena.set_event(0, 9, 1);
    arena.token_generation = 3;
    assert!(matches!(arena.lookup(0, 9, None), Some(StagedTake::Miss)));
    assert_eq!(
        arena.stats.stale_rejected, 1,
        "an expert held under a mismatched tag in the served parity must be counted"
    );
}

#[test]
fn an_incomplete_staged_load_is_late_not_a_miss() {
    assert_eq!(classify_staged(99, Some(false)), Some(false));
    assert_eq!(classify_staged(99, Some(true)), Some(true));
    assert_eq!(classify_staged(0, None), None);
    assert_eq!(classify_staged(0, Some(true)), None);
    assert_eq!(classify_staged(7, None), Some(true));
}

#[test]
fn a_claimed_but_unsubmitted_slot_is_a_miss() {
    let mut arena = StageArena::for_test(1, 4, 1024);
    assert!(arena.claim_stage(0, 7).is_some());
    arena.begin_token(&vec![]);
    assert!(matches!(arena.lookup(0, 7, None), Some(StagedTake::Miss)));
}

#[test]
fn claim_stage_is_idempotent_for_one_generation() {
    let mut arena = StageArena::for_test(1, 4, 1024);
    let (first, _, fresh_a) = arena.claim_stage(0, 7).expect("first claim");
    let (second, _, fresh_b) = arena.claim_stage(0, 7).expect("second claim");
    assert!(fresh_a);
    assert!(!fresh_b, "re-claiming one expert must not be a fresh read");
    assert_eq!(first, second, "re-claim must return the same slot");
}

#[test]
fn a_parity_never_places_more_candidates_than_it_is_wide() {
    let mut arena = StageArena::for_test(1, 2, 1024);
    assert!(arena.claim_stage(0, 1).is_some());
    assert!(arena.claim_stage(0, 2).is_some());
    assert!(arena.claim_stage(0, 3).is_none());
    assert_eq!(arena.stats.unplaced, 1);
}

#[test]
fn both_parities_are_allocated_and_counted() {
    let arena = StageArena::for_test(3, 4, 1000);
    assert_eq!(arena.bytes(), 3 * 2 * 4 * 1000);
}

fn ratio(parts: (u64, u64)) -> f64 {
    parts.0 as f64 / parts.1 as f64
}

#[test]
fn route_coverage_and_recall_are_recorded_per_layer() {
    let mut arena = StageArena::for_test(2, 4, 1024);
    arena.record_route(4, 4);
    arena.record_route(2, 4);
    assert_eq!(arena.stats.full_route_layer_count(), 1);
    assert_eq!(arena.stats.route_layers, 2);
    assert!((ratio(arena.stats.candidate_recall()) - 0.75).abs() < 1e-9);
    assert!((ratio(arena.stats.full_route_coverage()) - 0.5).abs() < 1e-9);
}

#[test]
fn a_disabled_arena_never_serves_or_claims() {
    let mut arena = StageArena::for_test(1, 4, 1024);
    arena.set_enabled(false);
    assert!(arena.claim_stage(0, 7).is_none());
    assert!(arena.lookup(0, 7, None).is_none());
    assert!(arena.claim_demand(0, 7).is_none());
    assert!(!arena.is_enabled());
}

#[test]
fn a_partially_covered_route_loads_exactly_the_missing_experts() {
    let mut arena = StageArena::for_test(1, 4, 1024);
    let route = [5u32, 9, 12, 30];
    for &expert in &[5u32, 9, 30] {
        assert!(arena.claim_stage(0, expert).is_some());
        arena.set_event(0, expert, 1);
        arena.record_submit(0, 1024);
    }
    arena.begin_token(&vec![]);
    let mut staged = 0usize;
    let mut demand: Vec<u32> = Vec::new();
    for &expert in &route {
        match arena.lookup(0, expert, None) {
            Some(StagedTake::Hit { .. }) => {
                arena.consume(0, expert);
                arena.record_hit(0, 1024, false);
                staged += 1;
            }
            Some(StagedTake::Late { .. }) => panic!("no load was left in flight"),
            Some(StagedTake::Miss) | None => demand.push(expert),
        }
    }
    assert_eq!(staged, 3, "the three staged experts must be hits");
    assert_eq!(
        demand,
        vec![12],
        "exactly the missing expert must be demand-read"
    );
    assert_eq!(arena.stats.duplicate_reads, 0);
    assert_eq!(arena.stats.hits, 3);
}

#[test]
fn a_full_route_coverage_claim_requires_every_executed_expert() {
    let mut arena = StageArena::for_test(1, 4, 1024);
    arena.record_route(3, 4);
    assert_eq!(arena.stats.full_route_layer_count(), 0);
    arena.record_route(4, 4);
    assert_eq!(arena.stats.full_route_layer_count(), 1);
    assert!((ratio(arena.stats.full_route_coverage()) - 0.5).abs() < 1e-9);
}

#[test]
fn a_load_in_flight_is_late_and_carries_its_event() {
    let mut arena = StageArena::for_test(1, 2, 64);
    let (slot, _, _) = arena.claim_stage(0, 3).unwrap();
    arena.set_event(0, 3, 42);
    arena.begin_token(&vec![]);
    match arena.lookup(0, 3, Some(false)) {
        Some(StagedTake::Late { slot: s, event }) => {
            assert_eq!(s, slot);
            assert_eq!(event, 42);
        }
        _ => panic!("a load in flight must be late"),
    }
    assert_eq!(arena.probe_slot(0, 3), Some(slot));
}

#[test]
fn slots_in_flight_are_kept_when_their_row_comes_round_again() {
    let mut arena = StageArena::for_test(1, 2, 64);
    let (busy, _, _) = arena.claim_stage(0, 1).unwrap();
    arena.set_event(0, 1, 5);
    arena.begin_token(&vec![]);
    assert_eq!(arena.stale_slots(), vec![busy]);
    arena.begin_token(&vec![busy]);
    let (demand, offset) = arena.claim_demand(0, 8).unwrap();
    assert_eq!(offset % 64, 0);
    assert!(arena.buf_for(0, demand).is_none());
    assert!(arena.buf_for(0, -77).is_none());
}

#[test]
fn a_consumed_slot_is_consumed_once() {
    let mut arena = StageArena::for_test(1, 2, 64);
    arena.claim_stage(0, 4).unwrap();
    arena.set_event(0, 4, 1);
    arena.begin_token(&vec![]);
    assert!(arena.consume(0, 4));
    assert!(!arena.consume(0, 5));
    arena.record_consume(0, 64);
    assert_eq!(arena.stats.consumed_bytes, 64);
}

#[test]
fn demand_reads_are_counted_and_duplicates_told_apart() {
    let mut arena = StageArena::for_test(2, 2, 64);
    arena.record_demand(1, true, 10);
    arena.record_demand(1, false, 20);
    assert_eq!(arena.stats.demand_reads, 2);
    assert_eq!(arena.stats.demand_bytes, 30);
    assert_eq!(arena.stats.duplicate_reads, 1);
    arena.record_submit(0, 64);
    assert_eq!(arena.stats.staged_bytes, 64);
    assert_eq!(arena.stats.wasted_bytes(), 64);
}

#[test]
fn an_arena_needs_a_geometry_and_a_block_for_every_row() {
    assert!(matches!(
        StageArena::new(1, 0, 64, &vec![]),
        Err(StageArenaError::EmptyGeometry)
    ));
    let blocks = vec![
        StageBlock { slot: 1, buf: 100 },
        StageBlock { slot: 2, buf: 200 },
    ];
    let arena = StageArena::new(1, 1, 64, &blocks).unwrap();
    assert_eq!(arena.candidates(), 1);
    assert_eq!(arena.stride(), 64);
    assert_eq!(arena.block_bytes(), 64);
    let bad = vec![
        StageBlock { slot: 1, buf: 100 },
        StageBlock { slot: -1, buf: 0 },
    ];
    match StageArena::new(1, 1, 64, &bad) {
        Err(e) => {
            assert!(!e.message().is_empty());
            assert!(matches!(e, StageArenaError::SlotAllocation { .. }));
        }
        Ok(_) => panic!("a missing slot must be refused"),
    }
}

#[test]
fn the_tags_of_two_tokens_differ_by_one() {
    let mut arena = StageArena::for_test(1, 1, 1);
    let before: SlotTag = arena.stage_tag();
    arena.begin_token(&vec![]);
    assert_eq!(arena.consume_tag(), before);
    assert_eq!(arena.token_generation(), before.token_generation);
    arena.begin_request(&vec![]);
    assert_eq!(arena.request_generation(), before.request_generation + 1);
    assert_eq!(FREE, u32::MAX);
}

#[test]
fn fresh_statistics_divide_by_something() {
    let stats = StageStats::new(3);
    assert_eq!(stats.per_layer.len(), 3);
    assert_eq!(stats.stats_denominator(), 0);
    let (_, d) = stats.efficiency();
    assert!(d >= 1);
}

fn two_rows() -> StageArena {
    let blocks = (0..4).map(|slot| StageBlock { slot, buf: 10 * slot as u64 }).collect();
    StageArena::new(1, 2, 64, &blocks).unwrap()
}

#[test]
fn a_new_request_leaves_slots_that_a_load_still_writes_to() {
    let mut arena = two_rows();
    let (served, _, _) = arena.claim_stage(0, 1).unwrap();
    arena.set_event(0, 1, 5);
    arena.claim_stage(0, 2).unwrap();
    arena.set_event(0, 2, 6);
    arena.begin_token(&vec![]);
    let (filled, _, _) = arena.claim_stage(0, 3).unwrap();
    arena.set_event(0, 3, 7);
    let mut asked = arena.loading_slots();
    asked.sort_unstable();
    assert_eq!(asked, vec![0, 2, 3]);
    assert_eq!(arena.stale_slots().len(), 2);
    let kept = (arena.rows[1].stage[0], arena.rows[0].stage[0]);
    arena.begin_request(&vec![served, filled]);
    assert_eq!((arena.rows[1].stage[0], arena.rows[0].stage[0]), kept);
    let free = arena.rows[1].stage[1];
    assert_eq!((free.expert, free.event, free.consumed), (FREE, 0, false));
    assert_eq!(free.tag, arena.consume_tag());
    // What was kept is served to nobody, now or later, and its slot is given to nobody.
    for expert in 1..4 {
        assert!(matches!(arena.lookup(0, expert, None), Some(StagedTake::Miss)));
    }
    let (slot, _, fresh) = arena.claim_stage(0, 1).unwrap();
    assert!(fresh && slot != served && slot != filled);
    assert!(arena.claim_stage(0, 9).is_none());
    arena.begin_token(&vec![]);
    arena.begin_token(&vec![]);
    assert!(matches!(arena.lookup(0, 1, None), Some(StagedTake::Miss)));
    assert!(arena.loading_slots().is_empty());
}

#[test]
fn releasing_a_row_keeps_only_loads_in_flight() {
    let mut arena = two_rows();
    arena.claim_stage(0, 1).unwrap();
    arena.set_event(0, 1, 5);
    arena.claim_stage(0, 2).unwrap();
    let (busy, before) = (arena.rows[1].slots[0], arena.rows[1].stage[0]);
    // The second slot is listed as well, but no load was submitted for it.
    let listed = vec![busy, arena.rows[1].slots[1]];
    arena.rows[1].release_all(&listed);
    assert_eq!(arena.rows[1].stage[0], before);
    assert_eq!(arena.rows[1].stage[1].expert, FREE);
    arena.rows[1].release_all(&vec![]);
    assert!(arena.rows[1].stage.iter().all(|e| e.expert == FREE && e.event == 0 && !e.consumed));
}

#[test]
fn a_row_takes_as_many_experts_as_it_is_wide() {
    let mut arena = two_rows();
    arena.claim_stage(0, 7).unwrap();
    arena.set_event(0, 7, 1);
    arena.begin_token(&vec![]);
    for (k, expert) in [5u32, 9].into_iter().enumerate() {
        let slot = arena.rows[0].slots[k];
        assert_eq!(arena.claim_stage(0, expert), Some((slot, 0, true)));
    }
    assert_eq!(arena.stats.unplaced, 0);
    assert_eq!(arena.claim_stage(0, 11), None);
    assert_eq!(arena.stats.unplaced, 1);
    // An expert that is there already is not placed again, and nothing changes.
    let before: Vec<_> = arena.rows[0].stage.clone();
    assert_eq!(arena.claim_stage(0, 9).map(|c| c.2), Some(false));
    assert_eq!(arena.rows[0].stage, before);
    assert_eq!(arena.lookup(0, 7, None), Some(StagedTake::Hit { slot: 2 }));
}

#[test]
fn no_expert_has_two_slots_for_one_token() {
    let mut arena = StageArena::for_test(2, 3, 8);
    for round in 0..40u32 {
        let (layer, expert) = ((round % 2) as usize, round * 7 % 4);
        arena.claim_stage(layer, expert);
        arena.set_event(layer, expert, (round % 3) as i64);
        arena.claim_demand(layer, (expert + 1) % 4);
        if round % 5 == 4 {
            arena.begin_token(&vec![-1]);
        }
        if round % 13 == 12 {
            arena.begin_request(&vec![-1]);
        }
        for row in &arena.rows {
            for i in 0..row.stage.len() {
                for j in i + 1..row.stage.len() {
                    let (a, b) = (row.stage[i], row.stage[j]);
                    assert!(a.expert == FREE || (a.expert, a.tag) != (b.expert, b.tag));
                }
            }
        }
    }
}

#[test]
fn staging_changes_nothing_of_what_the_current_token_finds() {
    let with_staged = |more: &[u32]| {
        let mut arena = StageArena::for_test(1, 2, 8);
        arena.claim_stage(0, 1).unwrap();
        arena.set_event(0, 1, 3);
        arena.claim_stage(0, 2).unwrap();
        arena.begin_token(&vec![]);
        for &e in more {
            arena.claim_stage(0, e);
            arena.set_event(0, e, 9);
        }
        let found: Vec<_> = (0..6).map(|e| arena.lookup(0, e, Some(false))).collect();
        (found, arena.stats.stale_rejected)
    };
    let plain = with_staged(&[]);
    assert_eq!(plain.1, 1);
    assert_eq!(with_staged(&[1, 2, 5, 1, 4]), plain);
}

#[test]
fn the_counters_of_the_layers_add_up() {
    let mut arena = StageArena::for_test(3, 2, 8);
    arena.record_submit(0, 10);
    arena.record_submit(2, 7);
    arena.record_hit(2, 5, false);
    arena.record_hit(0, 4, true);
    arena.record_consume(1, 1);
    arena.record_demand(1, true, 20);
    arena.record_demand(1, false, 2);
    arena.record_demand(0, false, 3);
    let s = &arena.stats;
    let sum = |f: fn(&(u64, u64, u64, u64)) -> u64| s.per_layer.iter().map(f).sum::<u64>();
    assert_eq!((sum(|r| r.0), s.staged_bytes), (17, 17));
    assert_eq!((sum(|r| r.1), s.consumed_bytes), (10, 10));
    assert_eq!((sum(|r| r.2), s.demand_bytes), (25, 25));
    assert_eq!((sum(|r| r.3), s.demand_reads), (3, 3));
    assert_eq!((s.duplicate_reads, s.hits, s.late), (1, 1, 1));
}

#[test]
fn no_later_token_finds_what_an_earlier_request_staged() {
    let mut arena = two_rows();
    let (served, _, _) = arena.claim_stage(0, 1).unwrap();
    arena.set_event(0, 1, 5);
    arena.begin_token(&vec![]);
    let (filled, _, _) = arena.claim_stage(0, 3).unwrap();
    arena.set_event(0, 3, 7);
    assert!(matches!(arena.lookup(0, 1, None), Some(StagedTake::Hit { .. })));
    let request = arena.request_generation;
    arena.begin_request(&vec![served, filled]);
    assert_eq!((arena.request_generation, arena.token_generation), (request + 1, 0));
    for token in 0..5 {
        for expert in [1, 2, 3, FREE] {
            assert!(matches!(arena.lookup(0, expert, None), Some(StagedTake::Miss)));
            assert!(matches!(arena.lookup(0, expert, Some(true)), Some(StagedTake::Miss)));
        }
        // An event that comes in for an expert that was not claimed anew is set nowhere.
        arena.set_event(0, 1, 9);
        arena.begin_token(&if token < 3 { vec![served, filled] } else { vec![] });
    }
    assert!(arena.enabled);
    arena.claim_stage(0, 1).unwrap();
    arena.set_event(0, 1, 11);
    arena.begin_token(&vec![]);
    assert!(matches!(arena.lookup(0, 1, None), Some(StagedTake::Hit { .. })));
}
