use slipstream::footprint::TransactionFootprint;
use slipstream::keys::contract_data;
use slipstream::scheduler::{build_conflict_graph, greedy_schedule, schedule, serial_schedule};
use slipstream::score::{
    access_cost, compute_metrics, critical_path, critical_path_weighted, distinct_key_count, key_contention,
    rank_hot_keys, total_conflicts, CostModel,
};

fn writer(key: u32) -> TransactionFootprint {
    TransactionFootprint::new().read_write(contract_data("C1", &format!("k{key}")))
}

#[test]
fn metrics_count_conflicts_and_stages() {
    let fps = vec![writer(0), writer(1), writer(0)];
    let (_, schedule) = {
        let g = build_conflict_graph(&fps);
        let s = greedy_schedule(&g);
        (g, s)
    };
    let metrics = compute_metrics(&fps, &schedule);
    assert_eq!(metrics[0].conflict_count, 1);
    assert_eq!(metrics[2].conflict_count, 1);
    assert_eq!(metrics[1].conflict_count, 0);
    assert_eq!(metrics[0].stage, Some(0));
    assert_eq!(metrics[2].stage, Some(1));
}

#[test]
fn critical_path_follows_longest_chain() {
    let fps = vec![writer(0), writer(1), writer(0), writer(1), writer(0)];
    let graph = build_conflict_graph(&fps);
    let cp = critical_path(&graph);
    assert_eq!(cp.length, 3);
    assert_eq!(cp.path, vec![0, 2, 4]);
}

#[test]
fn critical_path_of_empty_graph_is_zero() {
    let graph = build_conflict_graph(&[]);
    let cp = critical_path(&graph);
    assert_eq!(cp.length, 0);
    assert!(cp.path.is_empty());
}

#[test]
fn hot_keys_rank_writes_first() {
    let fps = vec![
        TransactionFootprint::new()
            .read(contract_data("C1", "config"))
            .read_write(contract_data("C1", "count")),
        TransactionFootprint::new().read_write(contract_data("C1", "count")),
        TransactionFootprint::new().read(contract_data("C1", "config")),
    ];
    let hot = rank_hot_keys(&fps, 10);
    assert_eq!(hot[0].key, contract_data("C1", "count"));
    assert_eq!(hot[0].writes, 2);
    assert_eq!(hot[0].reads, 2);
    assert_eq!(hot[1].writes, 0);
}

#[test]
fn summary_aggregates_deterministically() {
    let fps = vec![writer(0), writer(1), writer(0)];
    let graph = build_conflict_graph(&fps);
    let schedule = greedy_schedule(&graph);
    let metrics = compute_metrics(&fps, &schedule);
    assert_eq!(fps.len(), 3);
    assert_eq!(schedule.stage_count(), 2);
    assert_eq!(total_conflicts(&metrics), 2);
    assert_eq!(critical_path(&graph).length, 2);
    assert!((schedule.transaction_count() as f64 / schedule.stage_count() as f64 - 1.5).abs() < f64::EPSILON);
    assert_eq!(distinct_key_count(&fps), 2);
}

#[test]
fn serial_baseline_has_parallelism_one() {
    let fps = vec![writer(0), writer(1), writer(0)];
    let schedule = serial_schedule(fps.len());
    assert_eq!(schedule.transaction_count(), schedule.stage_count());
    assert!(schedule.is_conflict_free(&fps));
}

#[test]
fn access_cost_uses_default_model() {
    let model = CostModel::default();
    let fp = TransactionFootprint::new()
        .read(contract_data("C1", "config"))
        .read_write(contract_data("C1", "count"));
    assert_eq!(access_cost(&fp, &model), 4);
}

#[test]
fn weighted_critical_path_sums_node_costs() {
    let fps = vec![writer(0), writer(0)];
    let graph = build_conflict_graph(&fps);
    let w = critical_path_weighted(&graph, &fps, &CostModel::default());
    assert_eq!(w.weight, 6);
    assert_eq!(w.path, vec![0, 1]);
}

#[test]
fn weights_can_change_which_chain_dominates() {
    let fps = vec![
        writer(0),
        TransactionFootprint::new()
            .read_write(contract_data("C1", "k1"))
            .read(contract_data("C1", "a"))
            .read(contract_data("C1", "b"))
            .read(contract_data("C1", "c"))
            .read(contract_data("C1", "d"))
            .read(contract_data("C1", "e")),
        writer(0),
    ];
    let graph = build_conflict_graph(&fps);
    assert_eq!(critical_path(&graph).length, 2);
    let w = critical_path_weighted(&graph, &fps, &CostModel::default());
    assert_eq!(w.path, vec![1]);
    assert_eq!(w.weight, 8);
}

#[test]
fn key_contention_attributes_conflict_cost() {
    let fps = vec![
        writer(0),
        writer(0),
        TransactionFootprint::new().read(contract_data("C1", "k0")),
    ];
    let contention = key_contention(&fps, &CostModel::default());
    assert_eq!(contention.len(), 1);
    let entry = &contention[0];
    assert_eq!(entry.conflict_pairs, 3);
    assert_eq!(entry.cost, 10);
}

#[test]
fn uniform_model_weighs_accesses_equally() {
    let model = CostModel::uniform();
    assert_eq!((model.read, model.write), (1, 1));
    let fp = TransactionFootprint::new()
        .read(contract_data("C1", "a"))
        .read_write(contract_data("C1", "b"));
    assert_eq!(access_cost(&fp, &model), 3);
}

#[test]
fn critical_path_breaks_ties_toward_the_last_end() {
    // Two disjoint chains of length two: the last one wins.
    let fps = vec![writer(0), writer(1), writer(0), writer(1)];
    let graph = build_conflict_graph(&fps);
    let cp = critical_path(&graph);
    assert_eq!(cp.length, 2);
    assert_eq!(cp.path, vec![1, 3]);
}

#[test]
fn hot_keys_truncate_and_break_ties_by_key() {
    let fps = vec![writer(2), writer(1), writer(3)];
    let hot = rank_hot_keys(&fps, 2);
    assert_eq!(hot.len(), 2);
    assert_eq!(hot[0].key, contract_data("C1", "k1"));
    assert_eq!(hot[1].key, contract_data("C1", "k2"));
    assert_eq!(hot[0].touch_count, hot[0].reads);
}

#[test]
fn key_contention_orders_by_cost_then_key() {
    let fps = vec![writer(1), writer(1), writer(0), writer(2), writer(2)];
    let contention = key_contention(&fps, &CostModel::default());
    let keys: Vec<_> = contention.iter().map(|c| (c.key.to_string(), c.conflict_pairs, c.cost)).collect();
    assert_eq!(
        keys,
        vec![
            ("contract:C1:k1".to_string(), 1, 4),
            ("contract:C1:k2".to_string(), 1, 4),
            ("contract:C1:k0".to_string(), 0, 0),
        ]
    );
}

#[test]
fn distinct_keys_count_each_key_once() {
    let fps = vec![
        TransactionFootprint::new().read(contract_data("C1", "a")).read_write(contract_data("C1", "b")),
        TransactionFootprint::new().read_write(contract_data("C1", "a")),
    ];
    assert_eq!(distinct_key_count(&fps), 2);
    let (_, s) = schedule(&fps);
    assert_eq!(s.stage_count(), 2);
}

#[test]
fn a_transaction_reading_and_writing_a_key_counts_once() {
    let k = contract_data("C1", "x");
    let fps = vec![TransactionFootprint::new().read(k.clone()).read_write(k.clone())];
    let hot = rank_hot_keys(&fps, 10);
    assert_eq!(hot.len(), 1);
    assert_eq!(hot[0].reads, 1);
    assert_eq!(hot[0].writes, 1);
    assert_eq!(hot[0].touch_count, 1);
    let contention = key_contention(&fps, &CostModel::default());
    assert_eq!(contention.len(), 1);
    assert_eq!(contention[0].conflict_pairs, 0);
    assert_eq!(contention[0].cost, 0);
}

#[test]
fn a_reader_that_also_writes_is_paired_as_a_writer() {
    let k = contract_data("C1", "x");
    let fps = vec![
        TransactionFootprint::new().read(k.clone()).read_write(k.clone()),
        TransactionFootprint::new().read(k.clone()),
    ];
    let contention = key_contention(&fps, &CostModel::default());
    assert_eq!(contention[0].conflict_pairs, 1);
    assert_eq!(contention[0].cost, 3);
    let hot = rank_hot_keys(&fps, 10);
    assert_eq!((hot[0].reads, hot[0].writes, hot[0].touch_count), (2, 1, 2));
}

#[test]
fn ordered_schedules_have_at_least_critical_path_stages() {
    let fps = vec![writer(0), writer(0), writer(1), writer(0)];
    let graph = build_conflict_graph(&fps);
    let path = critical_path(&graph);
    assert_eq!(path.length, 3);
    let serial = serial_schedule(fps.len());
    assert!(serial.stage_count() >= path.length);
}
