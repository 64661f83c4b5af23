use slipstream::analysis::{AnalysisReport, CallGraph, FunctionAccess, StaticKey};
use slipstream::detectors::DetectorFinding;
use slipstream::simulate::{synthetic_footprints, Lcg};
use slipstream::totals::{aggregate, compare, finding_location, function_deltas, per_function_metrics, summary_deltas};

fn function(name: &str, reads: usize, writes: usize) -> FunctionAccess {
    let keys = |n: usize| (0..n).map(|i| StaticKey::from_segment(format!("k{i}"))).collect::<Vec<_>>();
    FunctionAccess {
        function_name: name.into(),
        storage_reads: keys(reads),
        storage_writes: keys(writes),
        effective_storage_reads: keys(reads),
        effective_storage_writes: keys(writes),
    }
}

fn finding(detector: &str) -> DetectorFinding {
    DetectorFinding {
        detector: detector.into(),
        function: Some("f".into()),
        key: None,
        message: String::new(),
    }
}

fn report(name: &str, functions: Vec<FunctionAccess>, detectors: Vec<DetectorFinding>) -> AnalysisReport {
    AnalysisReport {
        source_name: name.into(),
        functions,
        detectors,
        call_graph: CallGraph::default(),
    }
}

#[test]
fn lcg_is_deterministic_and_never_zero_seeded() {
    let mut a = Lcg::new(0);
    let mut b = Lcg::new(1);
    assert_eq!(a.next_u64(), b.next_u64());
    let mut c = Lcg::new(42);
    let first = c.next_u64();
    assert_eq!(first, 42u64.wrapping_mul(6364136223846793005).wrapping_add(1442695040888963407));
    assert!(c.range(10) < 10);
}

#[test]
fn synthetic_sets_write_shards_every_fifth_transaction() {
    let fps = synthetic_footprints(6, 4, 7);
    assert_eq!(fps.len(), 6);
    let mut rng = Lcg::new(7);
    for (i, fp) in fps.iter().enumerate() {
        let r = rng.range(4);
        let name = if i % 5 == 0 { format!("shard:{r}") } else { format!("k{r}") };
        assert_eq!(fp.read_write[0].to_string(), format!("contract:C1:{name}"));
        assert_eq!(fp.read_only[0].to_string(), "contract:C1:config");
    }
    assert!(synthetic_footprints(0, 0, 1).is_empty());
}

#[test]
fn totals_and_comparison_rows() {
    let left = vec![report("l.rs", vec![function("a", 2, 1)], vec![finding("duplicate-read")])];
    let right = vec![report(
        "r.rs",
        vec![function("a", 1, 1), function("b", 0, 2)],
        vec![finding("write-in-loop"), finding("write-in-loop")],
    )];
    let lt = aggregate(&left);
    let rt = aggregate(&right);
    assert_eq!((lt.files, lt.functions, lt.reads, lt.writes), (1, 1, 2, 1));
    assert_eq!(rt.detectors, vec![("write-in-loop".to_string(), 2)]);
    let rows = compare(&lt, &rt);
    assert_eq!(
        rows,
        vec![
            ("files".to_string(), 1, 1),
            ("functions".to_string(), 1, 2),
            ("storage reads".to_string(), 2, 1),
            ("storage writes".to_string(), 1, 3),
            ("detector findings".to_string(), 1, 2),
            ("  [duplicate-read]".to_string(), 1, 0),
            ("  [write-in-loop]".to_string(), 0, 2),
        ]
    );
    let lf = per_function_metrics(&left);
    let rf = per_function_metrics(&right);
    assert_eq!(rf, vec![("a".to_string(), 1, 1), ("b".to_string(), 0, 2)]);
    assert_eq!(function_deltas(&lf, &rf), vec![("a".to_string(), -1, 0), ("b".to_string(), 0, 2)]);
}

#[test]
fn finding_locations_join_function_and_key() {
    let mut f = finding("x");
    assert_eq!(finding_location(&f), "f");
    f.key = Some("count".into());
    assert_eq!(finding_location(&f), "f / count");
    f.function = None;
    assert_eq!(finding_location(&f), "count");
    f.key = None;
    assert_eq!(finding_location(&f), "");
}

#[test]
fn summary_deltas_subtract_left_from_right() {
    let left = vec![report("a.rs", vec![function("f", 3, 2)], vec![finding("write-in-loop")])];
    let right = vec![report(
        "a.rs",
        vec![function("f", 1, 4)],
        vec![finding("write-in-loop"), finding("duplicate-read"), finding("duplicate-read")],
    )];
    let (findings, reads, writes) = summary_deltas(&aggregate(&left), &aggregate(&right));
    assert_eq!((findings, reads, writes), (2, -2, 2));
}
