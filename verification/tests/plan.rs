use logan_qwen4::experts::issue_from;
use logan_qwen4::plan::{ExpertRecord, Plan, PlanFault, PlannedExpert};

#[test]
fn slot_bytes_sums_regions() {
    let planned = PlannedExpert {
        shard_id: 3,
        regions: [(10, 128), (200, 256), (1024, 64)],
        dims: [(1, 1); 3],
    };
    assert_eq!(planned.slot_bytes(), 128 + 256 + 64);
}

#[test]
fn total_bytes_and_max_cover_the_plan() {
    let plan = Plan {
        layers: vec![
            vec![
                PlannedExpert {
                    shard_id: 0,
                    regions: [(0, 100), (0, 100), (0, 100)],
                    dims: [(1, 1); 3],
                },
                PlannedExpert {
                    shard_id: 1,
                    regions: [(0, 50), (0, 50), (0, 50)],
                    dims: [(1, 1); 3],
                },
            ],
            vec![PlannedExpert {
                shard_id: 2,
                regions: [(0, 400), (0, 400), (0, 400)],
                dims: [(1, 1); 3],
            }],
        ],
        max_slot_bytes: 1200,
    };
    assert_eq!(plan.total_bytes(), 300 + 150 + 1200);
    assert_eq!(plan.max_slot_bytes, 1200);
    assert_eq!(plan.planned(1, 0).unwrap().shard_id, 2);
    assert!(plan.planned(2, 0).is_none());
}

fn record(shard_id: u32, size: usize) -> ExpertRecord {
    ExpertRecord {
        shard_id,
        matrices: Some((
            vec![(0, size), (64, size), (128, 2 * size)],
            vec![(4, 8), (4, 8), (8, 4)],
        )),
    }
}

#[test]
fn a_plan_covers_every_expert_and_its_largest_slot() {
    let records = vec![
        vec![Some(record(0, 10)), Some(record(1, 40))],
        vec![Some(record(2, 20)), Some(record(3, 30))],
    ];
    let plan = Plan::resolve(&records, 2, 2).unwrap();
    assert_eq!(plan.max_slot_bytes, 160);
    assert_eq!(plan.total_bytes(), 4 * (10 + 40 + 20 + 30));
    assert_eq!(plan.planned(1, 1).unwrap().shard_id, 3);
    assert_eq!(plan.planned(0, 1).unwrap().dims[2], (8, 4));
}

#[test]
fn a_plan_names_the_first_expert_it_cannot_place() {
    let bare = ExpertRecord {
        shard_id: 0,
        matrices: None,
    };
    let short = ExpertRecord {
        shard_id: 0,
        matrices: Some((vec![(0, 1)], vec![(1, 1)])),
    };
    assert_eq!(
        Plan::resolve(&vec![vec![Some(record(0, 1)), None]], 1, 2).err(),
        Some((0, 1, PlanFault::NoRecord))
    );
    assert_eq!(
        Plan::resolve(&vec![vec![Some(bare)]], 1, 1).err(),
        Some((0, 0, PlanFault::NotRaw))
    );
    assert_eq!(
        Plan::resolve(&vec![vec![Some(short)]], 1, 1).err(),
        Some((0, 0, PlanFault::Malformed))
    );
}

#[test]
fn an_expert_is_loaded_as_planned_or_as_recorded() {
    let planned = PlannedExpert {
        shard_id: 9,
        regions: [(1, 1), (2, 2), (3, 3)],
        dims: [(1, 1); 3],
    };
    assert_eq!(
        issue_from(Some(planned.clone()), Some(record(4, 10))),
        Some(planned)
    );
    let found = issue_from(None, Some(record(4, 10))).unwrap();
    assert_eq!(found.shard_id, 4);
    assert_eq!(found.regions[2], (128, 20));
    assert!(issue_from(None, None).is_none());
    assert!(issue_from(
        None,
        Some(ExpertRecord {
            shard_id: 1,
            matrices: None
        })
    )
    .is_none());
}
