use slipstream::footprint::TransactionFootprint;
use slipstream::keys::contract_data;
use slipstream::lanes::{schedule_lanes, RoundRobinLanes, SingleLane};
use slipstream::scheduler::{build_conflict_graph, schedule, serial_schedule, ConflictGraph};

fn hot_key(i: u32) -> TransactionFootprint {
    TransactionFootprint::new().read_write(contract_data("C1", &format!("key{i}")))
}

fn cold(i: u32) -> TransactionFootprint {
    TransactionFootprint::new().read(contract_data("C2", &format!("key{i}")))
}

fn parallelism(transactions: usize, stages: usize) -> f64 {
    if stages == 0 {
        0.0
    } else {
        transactions as f64 / stages as f64
    }
}

#[test]
fn independent_transactions_schedule_in_one_stage() {
    let fps = vec![cold(0), cold(1), cold(2)];
    let (graph, schedule) = schedule(&fps);
    assert_eq!(graph.edge_count(), 0);
    assert_eq!(schedule.stage_count(), 1);
    assert_eq!(schedule.transaction_count(), 3);
    assert!(schedule.is_conflict_free(&fps));
    assert!(schedule.is_complete(3));
}

#[test]
fn all_conflicting_transactions_serialize() {
    let fps = vec![hot_key(0), hot_key(0), hot_key(0)];
    let (graph, schedule) = schedule(&fps);
    assert_eq!(graph.edge_count(), 3);
    assert_eq!(schedule.stage_count(), 3);
    assert_eq!(parallelism(schedule.transaction_count(), schedule.stage_count()), 1.0);
    assert!(schedule.is_conflict_free(&fps));
}

#[test]
fn greedy_places_transactions_in_earliest_compatible_stage() {
    let fps = vec![hot_key(0), hot_key(1), hot_key(0)];
    let (_, schedule) = schedule(&fps);
    assert_eq!(schedule.stage_count(), 2);
    assert!(schedule.is_conflict_free(&fps));
    assert_eq!(schedule.stage_of(0), schedule.stage_of(1));
    assert_ne!(schedule.stage_of(0), schedule.stage_of(2));
}

#[test]
fn scheduling_is_deterministic() {
    let fps: Vec<_> = (0..16).map(|i| hot_key(i % 3)).collect();
    let (_, s1) = schedule(&fps);
    let (_, s2) = schedule(&fps);
    assert_eq!(s1, s2);
}

#[test]
fn mixed_reads_and_writes() {
    let fps = vec![
        TransactionFootprint::new().read(contract_data("C1", "shared")),
        hot_key(0),
        TransactionFootprint::new().read(contract_data("C1", "shared")),
        hot_key(0),
    ];
    let (_, schedule) = schedule(&fps);
    assert!(schedule.is_conflict_free(&fps));
    assert!(schedule.is_complete(4));
}

#[test]
fn serial_schedule_is_a_valid_baseline() {
    let s = serial_schedule(5);
    assert_eq!(s.stage_count(), 5);
    assert_eq!(parallelism(s.transaction_count(), s.stage_count()), 1.0);
    assert!(s.is_complete(5));
}

fn naive_conflict_graph(footprints: &[TransactionFootprint]) -> ConflictGraph {
    let n = footprints.len();
    let mut adjacency: Vec<Vec<usize>> = vec![Vec::new(); n];
    for i in 0..n {
        for j in (i + 1)..n {
            if footprints[i].conflicts_with(&footprints[j]) {
                adjacency[i].push(j);
                adjacency[j].push(i);
            }
        }
    }
    ConflictGraph { adjacency }
}

#[test]
fn index_graph_matches_naive_reference() {
    let fps = vec![
        hot_key(0),
        hot_key(1),
        hot_key(0),
        TransactionFootprint::new().read(contract_data("C1", "key0")),
        cold(5),
        hot_key(2),
        TransactionFootprint::new().read(contract_data("C1", "key1")),
    ];
    let fast = build_conflict_graph(&fps);
    let naive = naive_conflict_graph(&fps);
    assert_eq!(fast, naive);
}

#[test]
fn index_graph_empty_input() {
    let fps: Vec<TransactionFootprint> = Vec::new();
    let graph = build_conflict_graph(&fps);
    assert_eq!(graph.order(), 0);
    assert_eq!(graph.edge_count(), 0);
}

#[test]
fn single_lane_reproduces_flat_schedule_exactly() {
    let fps = vec![hot_key(0), hot_key(1), hot_key(0), cold(9)];
    let (_, flat) = schedule(&fps);
    let lane_sched = schedule_lanes(&fps, &SingleLane);
    assert_eq!(lane_sched.lane_count(), 1);
    assert_eq!(lane_sched.lanes[0].id, 0);
    assert_eq!(lane_sched.lanes[0].schedule, flat);
    assert_eq!(lane_sched.stage_span(), flat.stage_count());
    assert_eq!(lane_sched.total_transactions(), flat.transaction_count());
    assert_eq!(
        parallelism(lane_sched.total_transactions(), lane_sched.stage_span()),
        parallelism(flat.transaction_count(), flat.stage_count())
    );
    assert!(lane_sched.is_conflict_free(&fps));
    assert!(lane_sched.is_complete(fps.len()));
    assert!(lane_sched.cross_lane_conflicts(&fps).is_empty());
}

#[test]
fn single_lane_of_empty_input_is_well_defined() {
    let fps: Vec<TransactionFootprint> = Vec::new();
    let ls = schedule_lanes(&fps, &SingleLane);
    assert_eq!(ls.total_transactions(), 0);
    assert_eq!(ls.stage_span(), 0);
    assert_eq!(parallelism(ls.total_transactions(), ls.stage_span()), 0.0);
    assert!(ls.is_complete(0));
}

#[test]
fn multi_lane_stages_are_conflict_free_and_complete() {
    let fps: Vec<_> = (0..8).map(|i| hot_key(i % 3)).collect();
    let ls = schedule_lanes(&fps, &RoundRobinLanes { lanes: 2 });
    assert_eq!(ls.lane_count(), 2);
    assert!(ls.is_conflict_free(&fps));
    assert!(ls.is_complete(fps.len()));
    assert_eq!(ls.lanes[0].txns, vec![0, 2, 4, 6]);
    assert_eq!(ls.lanes[1].txns, vec![1, 3, 5, 7]);
}

#[test]
fn stage_span_is_the_max_over_lanes() {
    let fps = vec![hot_key(0), cold(1), hot_key(0), cold(2), hot_key(0), cold(3)];
    let ls = schedule_lanes(&fps, &RoundRobinLanes { lanes: 2 });
    assert_eq!(ls.lanes[0].stage_count(), 3);
    assert_eq!(ls.lanes[1].stage_count(), 1);
    assert_eq!(ls.stage_span(), 3);
    assert_eq!(ls.total_transactions(), 6);
    assert_eq!(parallelism(ls.total_transactions(), ls.stage_span()), 2.0);
}

#[test]
fn round_robin_reports_cross_lane_conflicts() {
    let fps = vec![hot_key(0), hot_key(0)];
    let ls = schedule_lanes(&fps, &RoundRobinLanes { lanes: 2 });
    assert_eq!(ls.lane_count(), 2);
    assert_eq!(ls.cross_lane_conflicts(&fps), vec![(0, 1)]);
    assert!(ls.is_conflict_free(&fps));
}

#[test]
fn lane_scheduling_is_deterministic() {
    let fps: Vec<_> = (0..16).map(|i| hot_key(i % 4)).collect();
    let a = schedule_lanes(&fps, &RoundRobinLanes { lanes: 3 });
    let b = schedule_lanes(&fps, &RoundRobinLanes { lanes: 3 });
    assert_eq!(a, b);
}

#[test]
fn conflict_graph_lists_every_conflicting_pair_both_ways() {
    let fps = vec![hot_key(0), cold(0), hot_key(0), hot_key(1)];
    let g = build_conflict_graph(&fps);
    assert_eq!(g.adjacency, vec![vec![2], vec![], vec![0], vec![]]);
    assert_eq!(g.edge_count(), 1);
}

#[test]
fn schedule_complete_rejects_duplicates_and_gaps() {
    let s = serial_schedule(3);
    assert!(s.is_complete(3));
    assert!(!s.is_complete(4));
    assert!(!s.is_complete(2));
    assert_eq!(s.stage_of(2), Some(2));
    assert_eq!(s.stage_of(3), None);
}
