use paymon_tips::dag::{Dag, MilestoneRef, TxKind, TxRecord};
use paymon_tips::depth::below_max_depth;
use paymon_tips::ledger::update_diff;
use paymon_tips::rating::serial_update_ratings;
use paymon_tips::selector::{
    find_closest_next_milestone, plurality, MilestoneState, TipsManager,
    SelectionError, MAX_DEPTH,
};
use paymon_tips::walk::{approver_weight, pick_by_weight, walk_weights, WEIGHT_SCALE};
use rand::rngs::StdRng;
use rand::SeedableRng;

struct Spec {
    trunk: usize,
    branch: usize,
    address: usize,
    value: i64,
    snapshot: u32,
}

fn tx(trunk: usize, branch: usize) -> Spec {
    Spec { trunk, branch, address: 0, value: 0, snapshot: 0 }
}

fn build(specs: Vec<Spec>, balances: Vec<i64>, milestones: Vec<MilestoneRef>) -> Dag {
    let n = specs.len();
    let mut approvers: Vec<Vec<usize>> = vec![Vec::new(); n];
    for (i, s) in specs.iter().enumerate() {
        if i == 0 {
            continue;
        }
        approvers[s.trunk].push(i);
        if s.branch != s.trunk {
            approvers[s.branch].push(i);
        }
    }
    let txs = specs
        .into_iter()
        .zip(approvers)
        .map(|(s, a)| TxRecord {
            trunk: s.trunk,
            branch: s.branch,
            address: s.address,
            value: s.value,
            snapshot_index: s.snapshot,
            kind: TxKind::Full,
            solid: true,
            approvers: a,
        })
        .collect();
    Dag { txs, balances, milestones }
}

/// Genesis <- T1 <- T2 <- T3, each approving its predecessor twice.
fn linear_chain() -> Dag {
    let mut g = tx(0, 0);
    g.snapshot = 1;
    build(vec![g, tx(0, 0), tx(1, 1), tx(2, 2)], vec![0], vec![MilestoneRef { index: 1, tx: 0 }])
}

/// Genesis <- T1; T1 approved by A (a chain of 9 below it) and B (one below).
fn heavy_fork() -> Dag {
    let mut g = tx(0, 0);
    g.snapshot = 1;
    let mut specs = vec![g, tx(0, 0), tx(1, 1), tx(1, 1), tx(2, 2)];
    for i in 5..13 {
        specs.push(tx(i - 1, i - 1));
    }
    specs.push(tx(3, 3));
    build(specs, vec![0], vec![MilestoneRef { index: 1, tx: 0 }])
}

fn tips() -> TipsManager {
    TipsManager::new(MAX_DEPTH, false, 0)
}

fn synced_state(solid_index: u32, solid_hash: usize) -> MilestoneState {
    MilestoneState { latest_index: solid_index, latest_solid_index: solid_index, latest_solid_hash: solid_hash }
}

#[test]
fn cap_sum_values() {
    assert_eq!(paymon_tips::cap_sum(3, 4, 10), 7);
    assert_eq!(paymon_tips::cap_sum(6, 6, 10), 10);
    assert_eq!(paymon_tips::cap_sum(i64::MAX, 1, 5), 5);
    assert_eq!(paymon_tips::cap_sum(-5, 2, 10), 10);
    assert_eq!(paymon_tips::cap_sum(0, 0, 10), 0);
}

#[test]
fn linear_chain_selects_last() {
    let dag = linear_chain();
    let tm = TipsManager::new(MAX_DEPTH, false, 0);
    let mut visited = vec![false; 4];
    let mut diff = vec![0i64];
    let mut rng = StdRng::seed_from_u64(7);
    let r = tm.transaction_to_approve(&dag, synced_state(1, 0), &mut visited, &mut diff, None, None, 5, 10, &mut rng);
    assert_eq!(r, Ok(Some(3)));
    assert_eq!(visited, vec![true, false, false, false]);
}

#[test]
fn heavy_fork_ratings() {
    let dag = heavy_fork();
    let visited = vec![false; dag.txs.len()];
    let r = serial_update_ratings(&dag, &visited, 0, true);
    assert_eq!(r[12], Some(1));
    assert_eq!(r[4], Some(9));
    assert_eq!(r[2], Some(10));
    assert_eq!(r[13], Some(1));
    assert_eq!(r[3], Some(2));
    assert_eq!(r[1], Some(13));
    assert_eq!(r[0], Some(14));
    for t in 0..dag.txs.len() {
        for &a in &dag.txs[t].approvers {
            assert!(r[t].unwrap() >= r[a].unwrap());
        }
        assert!(r[t].unwrap() >= 0 && r[t].unwrap() <= i64::MAX / 2);
    }
}

#[test]
fn ratings_skip_transactions_before_entry() {
    let dag = heavy_fork();
    let visited = vec![false; dag.txs.len()];
    let r = serial_update_ratings(&dag, &visited, 2, true);
    assert_eq!(r[0], None);
    assert_eq!(r[1], None);
    assert_eq!(r[2], Some(10));
}

#[test]
fn visited_transactions_weigh_nothing() {
    let dag = linear_chain();
    let visited = vec![true, true, false, false];
    let r = serial_update_ratings(&dag, &visited, 0, true);
    assert_eq!(r, vec![Some(2), Some(2), Some(2), Some(1)]);
    let r = serial_update_ratings(&dag, &visited, 0, false);
    assert_eq!(r, vec![Some(4), Some(3), Some(2), Some(1)]);
}

#[test]
fn ratings_are_reproducible() {
    let dag = heavy_fork();
    let visited = vec![false; dag.txs.len()];
    let a = serial_update_ratings(&dag, &visited, 1, false);
    let b = serial_update_ratings(&dag, &visited, 1, false);
    assert_eq!(a, b);
}

#[test]
fn heavy_side_is_preferred() {
    let dag = heavy_fork();
    let n = dag.txs.len();
    let visited = vec![false; n];
    let diff = vec![0i64];
    let ratings = serial_update_ratings(&dag, &visited, 0, true);
    let mut cache = vec![false; n];
    let mut rng = StdRng::seed_from_u64(42);
    let mut in_a = 0;
    for _ in 0..100 {
        let t = tips().random_walk(&dag, &visited, &diff, 0, None, &ratings, 0, &mut cache, &mut rng);
        assert!(t == 12 || t == 13);
        if t == 12 {
            in_a += 1;
        }
    }
    assert!(in_a >= 90);
}

#[test]
fn negative_balance_cuts_walk() {
    let mut specs = vec![tx(0, 0), tx(0, 0), tx(1, 1), tx(2, 2)];
    specs[0].snapshot = 1;
    specs[2].address = 1;
    specs[2].value = -50;
    let dag = build(specs, vec![0, 40], vec![MilestoneRef { index: 1, tx: 0 }]);
    let visited = vec![false; 4];
    let diff = vec![0i64, 0];
    let ratings = serial_update_ratings(&dag, &visited, 0, true);
    let mut cache = vec![false; 4];
    let mut rng = StdRng::seed_from_u64(1);
    assert_eq!(tips().random_walk(&dag, &visited, &diff, 0, None, &ratings, 0, &mut cache, &mut rng), 1);
    let tm = TipsManager::new(MAX_DEPTH, false, 0);
    let mut visited = vec![false; 4];
    let mut diff = vec![0i64, 0];
    for seed in 0..20 {
        let mut rng = StdRng::seed_from_u64(seed);
        let r = tm.transaction_to_approve(&dag, synced_state(1, 0), &mut visited, &mut diff, None, None, 3, 5, &mut rng);
        assert_eq!(r, Ok(Some(1)));
    }
}

#[test]
fn below_max_depth_cuts_walk() {
    let mut specs = vec![tx(0, 0), tx(0, 0), tx(1, 1)];
    specs[0].snapshot = 100;
    specs[1].snapshot = 80;
    let dag = build(specs, vec![0], vec![MilestoneRef { index: 100, tx: 0 }]);
    let min_index = 100 - 2 * 5;
    let mut cache = vec![false; 3];
    assert!(below_max_depth(&dag, 1, min_index, &mut cache));
    assert!(below_max_depth(&dag, 2, min_index, &mut cache));
    assert!(!below_max_depth(&dag, 0, min_index, &mut cache));
    assert_eq!(cache, vec![false, false, false]);
    let visited = vec![false; 3];
    let diff = vec![0i64];
    let ratings = serial_update_ratings(&dag, &visited, 0, true);
    let mut rng = StdRng::seed_from_u64(3);
    assert_eq!(tips().random_walk(&dag, &visited, &diff, 0, None, &ratings, min_index, &mut cache, &mut rng), 0);
}

#[test]
fn within_depth_is_cached() {
    let mut specs = vec![tx(0, 0), tx(0, 0), tx(1, 1)];
    specs[0].snapshot = 95;
    let dag = build(specs, vec![0], vec![]);
    let mut cache = vec![false; 3];
    assert!(!below_max_depth(&dag, 2, 90, &mut cache));
    assert_eq!(cache, vec![false, false, true]);
    // A cached unconfirmed transaction met by a later search counts as below.
    let mut specs = vec![tx(0, 0), tx(0, 0), tx(1, 1), tx(2, 2)];
    specs[0].snapshot = 95;
    let dag = build(specs, vec![0], vec![]);
    let mut cache = vec![false, false, true, false];
    assert!(below_max_depth(&dag, 3, 90, &mut cache));
}

#[test]
fn not_synced_returns_none() {
    let dag = linear_chain();
    let tm = TipsManager::new(MAX_DEPTH, false, 5);
    let ms = MilestoneState { latest_index: 7, latest_solid_index: 5, latest_solid_hash: 0 };
    let mut visited = vec![false; 4];
    let mut diff = vec![0i64];
    let mut rng = StdRng::seed_from_u64(0);
    assert_eq!(tm.transaction_to_approve(&dag, ms, &mut visited, &mut diff, None, None, 5, 10, &mut rng), Ok(None));
    assert_eq!(visited, vec![false; 4]);
}

#[test]
fn extra_tip_ends_walk() {
    let dag = linear_chain();
    let visited = vec![false; 4];
    let diff = vec![0i64];
    let ratings = serial_update_ratings(&dag, &visited, 0, false);
    let mut cache = vec![false; 4];
    let mut rng = StdRng::seed_from_u64(5);
    assert_eq!(tips().random_walk(&dag, &visited, &diff, 0, Some(2), &ratings, 0, &mut cache, &mut rng), 2);
}

#[test]
fn zero_iterations_returns_none() {
    let dag = linear_chain();
    let tm = TipsManager::new(MAX_DEPTH, false, 0);
    let mut visited = vec![false; 4];
    let mut diff = vec![0i64];
    let mut rng = StdRng::seed_from_u64(0);
    assert_eq!(tm.transaction_to_approve(&dag, synced_state(1, 0), &mut visited, &mut diff, None, None, 5, 0, &mut rng), Ok(None));
}

#[test]
fn entry_defaults_to_solid_milestone() {
    let dag = linear_chain();
    let tm = TipsManager::new(MAX_DEPTH, false, 0);
    let ms = MilestoneState { latest_index: 1, latest_solid_index: 1, latest_solid_hash: 2 };
    assert_eq!(tm.entry_point(&dag, ms, None, None, 5), 2);
    assert_eq!(tm.entry_point(&dag, ms, Some(1), None, 5), 1);
    let mut visited = vec![false; 4];
    let mut diff = vec![0i64];
    let mut rng = StdRng::seed_from_u64(0);
    let r = tm.transaction_to_approve(&dag, ms, &mut visited, &mut diff, None, None, 5, 3, &mut rng);
    assert_eq!(r, Ok(Some(3)));
    assert_eq!(visited, vec![true, true, true, false]);
}

#[test]
fn depth_zero_uses_closest_milestone() {
    let mut specs = vec![tx(0, 0), tx(0, 0), tx(1, 1), tx(2, 2)];
    specs[0].snapshot = 5;
    specs[2].snapshot = 9;
    specs[3].snapshot = 10;
    let dag = build(
        specs,
        vec![0],
        vec![MilestoneRef { index: 5, tx: 0 }, MilestoneRef { index: 10, tx: 3 }, MilestoneRef { index: 9, tx: 2 }],
    );
    let tm = TipsManager::new(MAX_DEPTH, false, 0);
    let ms = MilestoneState { latest_index: 10, latest_solid_index: 10, latest_solid_hash: 3 };
    assert_eq!(tm.entry_point(&dag, ms, None, Some(1), 0), 2);
    assert_eq!(tm.entry_point(&dag, ms, None, None, 0), 3);
    assert_eq!(tm.entry_point(&dag, ms, None, Some(1), 20), 0);
    let mut visited = vec![false; 4];
    let mut diff = vec![0i64];
    let mut rng = StdRng::seed_from_u64(0);
    assert_eq!(tm.transaction_to_approve(&dag, ms, &mut visited, &mut diff, None, None, 0, 4, &mut rng), Ok(Some(3)));
}

#[test]
fn closest_milestone_search() {
    let dag = build(
        vec![tx(0, 0), tx(0, 0), tx(1, 1)],
        vec![0],
        vec![MilestoneRef { index: 4, tx: 0 }, MilestoneRef { index: 8, tx: 2 }, MilestoneRef { index: 6, tx: 1 }],
    );
    assert_eq!(find_closest_next_milestone(&dag, 5), Some(2));
    assert_eq!(find_closest_next_milestone(&dag, 7), Some(1));
    assert_eq!(find_closest_next_milestone(&dag, 0), Some(0));
    assert_eq!(find_closest_next_milestone(&dag, 9), None);
}

#[test]
fn leaf_is_its_own_tail() {
    let dag = heavy_fork();
    let n = dag.txs.len();
    let visited = vec![false; n];
    let diff = vec![0i64];
    let ratings = serial_update_ratings(&dag, &visited, 0, true);
    let mut cache = vec![false; n];
    let mut rng = StdRng::seed_from_u64(9);
    assert_eq!(tips().random_walk(&dag, &visited, &diff, 13, None, &ratings, 0, &mut cache, &mut rng), 13);
}

#[test]
fn same_seed_same_selection() {
    let dag = heavy_fork();
    let n = dag.txs.len();
    let tm = TipsManager::new(MAX_DEPTH, false, 0);
    let mut results = Vec::new();
    for _ in 0..2 {
        let mut visited = vec![false; n];
        let mut diff = vec![0i64];
        let mut rng = StdRng::seed_from_u64(11);
        results.push(tm.transaction_to_approve(&dag, synced_state(1, 0), &mut visited, &mut diff, None, None, 3, 25, &mut rng));
    }
    assert_eq!(results[0], results[1]);
    assert!(results[0] == Ok(Some(12)) || results[0] == Ok(Some(13)));
}

#[test]
fn monte_carlo_counts_walks() {
    let dag = linear_chain();
    let visited = vec![false; 4];
    let diff = vec![0i64];
    let ratings = serial_update_ratings(&dag, &visited, 0, true);
    let mut cache = vec![false; 4];
    let mut rng = StdRng::seed_from_u64(2);
    assert_eq!(tips().markov_chain_monte_carlo(&dag, &visited, &diff, 0, None, &ratings, 3, 0, &mut cache, &mut rng), Some(3));
    assert_eq!(tips().markov_chain_monte_carlo(&dag, &visited, &diff, 0, None, &ratings, 0, 0, &mut cache, &mut rng), None);
}

#[test]
fn plurality_takes_highest_count() {
    let mut rng = StdRng::seed_from_u64(4);
    assert_eq!(plurality(&vec![1, 5, 2, 0], &mut rng), Some(1));
    assert_eq!(plurality(&vec![0, 0, 0], &mut rng), None);
    assert_eq!(plurality(&vec![], &mut rng), None);
    for _ in 0..20 {
        let r = plurality(&vec![1, 3, 2, 3], &mut rng);
        assert!(r == Some(1) || r == Some(3));
    }
}

#[test]
fn update_diff_rollback_and_redo() {
    let mut specs = vec![tx(0, 0), tx(0, 0), tx(1, 1), tx(2, 1)];
    specs[1].address = 1;
    specs[1].value = 30;
    specs[2].address = 1;
    specs[2].value = -50;
    specs[3].address = 0;
    specs[3].value = -5;
    let dag = build(specs, vec![10, 40], vec![]);
    let visited0 = vec![true, false, false, false];
    let diff0 = vec![0i64, 0];
    let mut visited = visited0.clone();
    let mut diff = diff0.clone();
    assert!(update_diff(&dag, &mut visited, &mut diff, 3));
    assert_eq!(visited, vec![true, true, true, true]);
    assert_eq!(diff, vec![-5, -20]);
    let first = diff.clone();
    assert!(update_diff(&dag, &mut visited, &mut diff, 3));
    assert_eq!(diff, first);
    let mut visited = visited0.clone();
    let mut diff = diff0.clone();
    assert!(update_diff(&dag, &mut visited, &mut diff, 3));
    assert_eq!(diff, first);
    for a in 0..2 {
        assert!(dag.balances[a] + diff[a] >= 0);
    }
}

#[test]
fn update_diff_rejects_overdraft() {
    let mut specs = vec![tx(0, 0), tx(0, 0)];
    specs[1].address = 0;
    specs[1].value = -11;
    let dag = build(specs, vec![10], vec![]);
    let mut visited = vec![false, false];
    let mut diff = vec![0i64];
    assert!(!update_diff(&dag, &mut visited, &mut diff, 1));
    assert_eq!(visited, vec![false, false]);
    assert_eq!(diff, vec![0]);
}

#[test]
fn update_diff_rejects_unsolid() {
    let mut dag = linear_chain();
    dag.txs[1].solid = false;
    let mut visited = vec![false; 4];
    let mut diff = vec![0i64];
    assert!(!update_diff(&dag, &mut visited, &mut diff, 3));
    assert_eq!(visited, vec![false; 4]);
    let mut visited = vec![true, true, false, false];
    assert!(update_diff(&dag, &mut visited, &mut diff, 3));
}

#[test]
fn weights_follow_inverse_cube() {
    assert_eq!(approver_weight(1), WEIGHT_SCALE);
    assert_eq!(approver_weight(2), 1u64 << 60);
    assert_eq!(approver_weight(3), 341606371735362066);
    assert_eq!(approver_weight(11), 6929655925510725);
    assert_eq!(approver_weight(1 << 21), 1);
    assert_eq!(approver_weight((1 << 21) + 1), 1);
    assert_eq!(approver_weight(i64::MAX), 1);
}

#[test]
fn inverse_cdf_pick() {
    let w = vec![1u64, 2, 3];
    assert_eq!(pick_by_weight(&w, 0), 0);
    assert_eq!(pick_by_weight(&w, 1), 1);
    assert_eq!(pick_by_weight(&w, 2), 1);
    assert_eq!(pick_by_weight(&w, 3), 2);
    assert_eq!(pick_by_weight(&w, 5), 2);
    assert_eq!(pick_by_weight(&vec![0, 0, 4], 3), 2);
}

#[test]
fn equal_rating_is_taken_outright() {
    let ratings = vec![Some(5), Some(3), Some(5), Some(1)];
    assert_eq!(walk_weights(&ratings, 0, &vec![1, 2, 3]), Err(1));
    assert_eq!(walk_weights(&ratings, 0, &vec![1, 3]), Ok(vec![1u64 << 60, WEIGHT_SCALE / 64]));
}

#[test]
fn recursive_ratings_match_serial() {
    let dag = heavy_fork();
    let n = dag.txs.len();
    let mut ratings = vec![None; n];
    let mut analyzed = vec![false; n];
    assert_eq!(tips().recursive_update_ratings(&dag, 2, &mut ratings, &mut analyzed), 10);
    assert_eq!(ratings[1], None);
    assert_eq!(tips().recursive_update_ratings(&dag, 0, &mut ratings, &mut analyzed), 14);
    let serial = serial_update_ratings(&dag, &vec![false; n], 0, true);
    assert_eq!(ratings, serial);
    assert!(analyzed.iter().all(|a| *a));
    assert_eq!(tips().recursive_update_ratings(&dag, 1, &mut ratings, &mut analyzed), 13);
}

#[test]
fn ratings_cover_only_the_approver_closure() {
    let dag = build(vec![tx(0, 0), tx(0, 0), tx(0, 0), tx(1, 2)], vec![0], vec![]);
    let r = serial_update_ratings(&dag, &vec![false; 4], 1, true);
    assert_eq!(r, vec![None, Some(2), None, Some(1)]);
}

#[test]
fn broken_store_is_an_integrity_error() {
    let mut dag = linear_chain();
    assert!(dag.is_wf());
    dag.txs[1].trunk = 3;
    assert!(!dag.is_wf());
    let tm = TipsManager::new(MAX_DEPTH, false, 0);
    let mut visited = vec![false; 4];
    let mut diff = vec![0i64];
    let mut rng = StdRng::seed_from_u64(0);
    let r = tm.transaction_to_approve(&dag, synced_state(1, 0), &mut visited, &mut diff, None, None, 5, 10, &mut rng);
    assert_eq!(r, Err(SelectionError::IntegrityError));
    let mut dag = linear_chain();
    dag.txs[0].approvers.push(1);
    assert!(!dag.is_wf());
    let mut dag = linear_chain();
    dag.milestones.push(MilestoneRef { index: 3, tx: 9 });
    assert!(!dag.is_wf());
}

#[test]
fn reference_outside_store_is_invalid() {
    let dag = linear_chain();
    let tm = TipsManager::new(MAX_DEPTH, false, 0);
    let mut visited = vec![false; 4];
    let mut diff = vec![0i64];
    let mut rng = StdRng::seed_from_u64(0);
    let r = tm.transaction_to_approve(&dag, synced_state(1, 0), &mut visited, &mut diff, Some(9), None, 5, 10, &mut rng);
    assert_eq!(r, Err(SelectionError::ReferenceInvalid));
    assert_eq!(visited, vec![false; 4]);
}

#[test]
fn overspent_entry_yields_none() {
    let mut specs = vec![tx(0, 0), tx(0, 0)];
    specs[1].value = -1;
    let dag = build(specs, vec![0], vec![]);
    let tm = TipsManager::new(MAX_DEPTH, false, 0);
    let mut visited = vec![false; 2];
    let mut diff = vec![0i64];
    let mut rng = StdRng::seed_from_u64(0);
    let r = tm.transaction_to_approve(&dag, synced_state(1, 0), &mut visited, &mut diff, Some(1), None, 5, 10, &mut rng);
    assert_eq!(r, Ok(None));
    assert_eq!(diff, vec![0]);
}

#[test]
fn analyzed_transaction_is_reused() {
    let dag = linear_chain();
    let mut ratings = vec![None, None, Some(7), None];
    let mut analyzed = vec![false, false, true, false];
    // An analyzed entry is returned as recorded, and nothing else changes.
    assert_eq!(tips().recursive_update_ratings(&dag, 2, &mut ratings, &mut analyzed), 7);
    assert_eq!(ratings, vec![None, None, Some(7), None]);
    assert_eq!(analyzed, vec![false, false, true, false]);
}
