use slipstream::analysis::{aggregate, aggregate_with_calls, AccessKind, AccessRecord, CallRecord, StaticKey};
use slipstream::callgraph::{analyze_records, analyze_walked, file_report, is_noise_method, SourceRecords};
use slipstream::syntax::BodyRecords;
use slipstream::detectors::GLOBAL_STATIC_WRITE;

fn key(name: &str) -> StaticKey {
    StaticKey::from_segment(name.to_string())
}

fn access(function: &str, kind: AccessKind, k: &str) -> AccessRecord {
    AccessRecord {
        function: function.into(),
        kind,
        key: key(k),
        method: match kind {
            AccessKind::Read => "get".into(),
            AccessKind::Write => "put".into(),
        },
        in_loop: false,
    }
}

fn call(function: &str, method: &str, receiver: &str) -> CallRecord {
    CallRecord {
        function: function.into(),
        method: method.into(),
        receiver: receiver.into(),
        in_loop: false,
    }
}

fn source(name: &str, accesses: Vec<AccessRecord>, calls: Vec<CallRecord>) -> SourceRecords {
    SourceRecords {
        source_name: name.into(),
        accesses,
        calls,
    }
}

/// The records of a counter contract whose `increment` reads and writes
/// `count`.
fn counter(name: &str) -> SourceRecords {
    source(
        name,
        vec![access("increment", AccessKind::Read, "count"), access("increment", AccessKind::Write, "count")],
        vec![],
    )
}

/// The records of a contract whose `run` calls `client.increment()`.
fn caller(name: &str, function: &str) -> SourceRecords {
    source(name, vec![], vec![call(function, "increment", "client")])
}

#[test]
fn static_key_helpers() {
    let k = StaticKey {
        segments: vec!["a".into(), "b".into()],
    };
    assert_eq!(k.as_key(), "a.b");
    assert!(!k.is_dynamic());
    assert!(StaticKey::dynamic().is_dynamic());
    assert_eq!(StaticKey::dynamic().as_key(), "(dynamic)");
    assert!(k.same_as(&k.duplicate()));
    assert!(!k.same_as(&key("a")));
}

#[test]
fn aggregate_lists_functions_in_name_order_without_repeats() {
    let accesses = vec![
        access("reset", AccessKind::Write, "count"),
        access("increment", AccessKind::Read, "count"),
        access("increment", AccessKind::Write, "count"),
        access("increment", AccessKind::Read, "count"),
    ];
    let fns = aggregate(&accesses);
    assert_eq!(fns.len(), 2);
    assert_eq!(fns[0].function_name, "increment");
    assert_eq!(fns[0].storage_reads.len(), 1);
    assert_eq!(fns[0].storage_writes.len(), 1);
    assert_eq!(fns[0].effective_storage_reads, fns[0].storage_reads);
    assert_eq!(fns[1].function_name, "reset");
    assert_eq!(fns[1].storage_writes, vec![key("count")]);
    let with_calls = aggregate_with_calls(&accesses, &[call("dispatch", "increment", "client")]);
    assert_eq!(with_calls.len(), 3);
    assert_eq!(with_calls[0].function_name, "dispatch");
    assert!(with_calls[0].storage_reads.is_empty());
}

#[test]
fn single_file_report_flags_shared_static_writes() {
    let accesses = vec![
        access("increment", AccessKind::Read, "count"),
        access("increment", AccessKind::Write, "count"),
        access("reset", AccessKind::Write, "count"),
    ];
    let report = file_report("counter.rs".into(), &accesses);
    assert_eq!(report.source_name, "counter.rs");
    assert_eq!(report.functions.len(), 2);
    assert_eq!(report.detectors.iter().filter(|d| d.detector == GLOBAL_STATIC_WRITE).count(), 1);
    assert!(report.call_graph.edges.is_empty());
}

#[test]
fn cross_contract_call_adds_callee_accesses() {
    let reports = analyze_records(&[caller("caller.rs", "run"), counter("callee.rs")]);
    let caller = reports.iter().find(|r| r.source_name == "caller.rs").expect("caller report");
    let run = caller.functions.iter().find(|f| f.function_name == "run").expect("run fn");
    assert_eq!(run.effective_storage_reads.len(), 1, "includes callee read");
    assert_eq!(run.effective_storage_writes.len(), 1, "includes callee write");
    assert_eq!(run.storage_reads.len(), 0, "own reads are empty");
    assert!(caller
        .call_graph
        .edges
        .iter()
        .any(|e| e.from_function == "run" && e.to_function == "increment" && e.to_source == "callee.rs"));
}

#[test]
fn nested_calls_transitively_extend_effective_footprint() {
    let counter = source(
        "counter.rs",
        vec![
            access("increment", AccessKind::Read, "count"),
            access("increment", AccessKind::Write, "count"),
            access("touch", AccessKind::Read, "count"),
            access("touch", AccessKind::Read, "extra"),
        ],
        vec![call("increment", "touch", "self")],
    );
    let reports = analyze_records(&[caller("router.rs", "dispatch"), counter]);
    let router = reports.iter().find(|r| r.source_name == "router.rs").expect("router report");
    let dispatch = router.functions.iter().find(|f| f.function_name == "dispatch").expect("dispatch fn");
    assert_eq!(dispatch.effective_storage_reads, vec![key("count"), key("extra")]);
    assert_eq!(dispatch.effective_storage_writes, vec![key("count")]);
}

#[test]
fn unresolved_calls_are_reported_dynamic() {
    let other = source("other.rs", vec![access("unrelated", AccessKind::Read, "x")], vec![]);
    let reports = analyze_records(&[caller("caller.rs", "run"), other]);
    let caller = reports.iter().find(|r| r.source_name == "caller.rs").expect("caller report");
    let unresolved = caller
        .call_graph
        .unresolved
        .iter()
        .find(|u| u.method.as_deref() == Some("increment"))
        .expect("increment is unresolved");
    assert_eq!(unresolved.receiver, "client");
    assert_eq!(unresolved.reason, "no function named `increment` in the analyzed file set");
    assert!(caller.call_graph.edges.is_empty());
}

#[test]
fn ambiguous_calls_name_their_candidates() {
    let reports = analyze_records(&[caller("caller.rs", "run"), counter("a.rs"), counter("b.rs")]);
    let u = &reports[0].call_graph.unresolved;
    assert_eq!(u.len(), 1);
    assert_eq!(u[0].reason, "`increment` is ambiguous across the file set (2 candidates)");
    assert!(reports[0].call_graph.edges.is_empty());
}

#[test]
fn helper_calls_are_not_reported() {
    assert!(is_noise_method("unwrap_or"));
    assert!(!is_noise_method("increment"));
    let s = source("s.rs", vec![], vec![call("f", "unwrap_or", "x")]);
    let reports = analyze_records(&[s]);
    assert!(reports[0].call_graph.unresolved.is_empty());
}

#[test]
fn recursive_calls_terminate_with_full_footprint() {
    let s = source(
        "loop.rs",
        vec![access("ping", AccessKind::Read, "a"), access("pong", AccessKind::Write, "b")],
        vec![call("ping", "pong", "self"), call("pong", "ping", "self")],
    );
    let reports = analyze_records(&[s]);
    let fns = &reports[0].functions;
    assert_eq!(fns.len(), 2);
    for f in fns {
        assert_eq!(f.effective_storage_reads, vec![key("a")]);
        assert_eq!(f.effective_storage_writes, vec![key("b")]);
    }
}

#[test]
fn calls_resolve_to_functions_that_only_make_calls() {
    let a = source("a.rs", vec![], vec![call("run", "helper", "c")]);
    let b = source("b.rs", vec![access("bump", AccessKind::Write, "n")], vec![call("helper", "bump", "c")]);
    let reports = analyze_records(&[a, b]);
    assert!(reports[0]
        .call_graph
        .edges
        .iter()
        .any(|e| e.from_function == "run" && e.from_source == "a.rs" && e.to_function == "helper" && e.to_source == "b.rs"));
    assert_eq!(reports[0].functions[0].function_name, "run");
    assert_eq!(reports[0].functions[0].effective_storage_writes, vec![key("n")]);
}

#[test]
fn walked_set_fails_when_a_source_has_no_walk() {
    let ok = BodyRecords {
        accesses: vec![access("bump", AccessKind::Write, "n")],
        calls: vec![],
    };
    assert!(analyze_walked(vec![("a.rs".to_string(), Some(ok)), ("b.rs".to_string(), None)]).is_none());
}

#[test]
fn walked_set_reports_like_its_records() {
    let a = BodyRecords {
        accesses: vec![access("run", AccessKind::Read, "cfg")],
        calls: vec![call("run", "bump", "c")],
    };
    let b = BodyRecords {
        accesses: vec![access("bump", AccessKind::Write, "n")],
        calls: vec![],
    };
    let reports = analyze_walked(vec![("a.rs".to_string(), Some(a)), ("b.rs".to_string(), Some(b))]).expect("all walked");
    assert_eq!(reports.len(), 2);
    assert_eq!(reports[0].source_name, "a.rs");
    assert_eq!(reports[1].source_name, "b.rs");
    let run = &reports[0].functions[0];
    assert_eq!(run.storage_reads, vec![key("cfg")]);
    assert_eq!(run.effective_storage_reads, vec![key("cfg")]);
    assert_eq!(run.effective_storage_writes, vec![key("n")]);
    assert_eq!(reports[0].call_graph.edges, reports[1].call_graph.edges);
}
