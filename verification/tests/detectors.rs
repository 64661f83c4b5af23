use slipstream::analysis::{AccessKind, AccessRecord, StaticKey};
use slipstream::detectors::{
    duplicate_read, global_static_write, read_modify_write, run, write_in_loop, DUPLICATE_READ,
    GLOBAL_STATIC_WRITE, READ_MODIFY_WRITE, WRITE_IN_LOOP,
};

fn rec(function: &str, kind: AccessKind, key: &str, in_loop: bool) -> AccessRecord {
    AccessRecord {
        function: function.to_string(),
        kind,
        key: StaticKey {
            segments: vec![key.to_string()],
        },
        method: String::new(),
        in_loop,
    }
}

#[test]
fn global_static_write_needs_two_functions() {
    let accesses = vec![
        rec("a", AccessKind::Write, "count", false),
        rec("b", AccessKind::Write, "count", false),
        rec("a", AccessKind::Write, "own", false),
    ];
    let findings = run(&accesses);
    assert_eq!(findings.iter().filter(|f| f.detector == GLOBAL_STATIC_WRITE).count(), 1);
    let f = findings.iter().find(|f| f.detector == GLOBAL_STATIC_WRITE).unwrap();
    assert_eq!(f.key.as_deref(), Some("count"));
}

#[test]
fn single_function_write_is_not_global() {
    let accesses = vec![rec("a", AccessKind::Write, "count", false)];
    assert!(run(&accesses).iter().all(|f| f.detector != GLOBAL_STATIC_WRITE));
}

#[test]
fn write_in_loop_fires_per_access() {
    let accesses = vec![rec("a", AccessKind::Write, "k", true), rec("a", AccessKind::Write, "k", false)];
    let in_loop = run(&accesses).iter().filter(|f| f.detector == WRITE_IN_LOOP).count();
    assert_eq!(in_loop, 1);
}

#[test]
fn read_modify_write_detected() {
    let accesses = vec![rec("bump", AccessKind::Read, "bal", false), rec("bump", AccessKind::Write, "bal", false)];
    assert!(run(&accesses).iter().any(|f| f.detector == READ_MODIFY_WRITE));
}

#[test]
fn duplicate_read_detected() {
    let accesses = vec![rec("a", AccessKind::Read, "cfg", false), rec("a", AccessKind::Read, "cfg", false)];
    assert!(run(&accesses).iter().any(|f| f.detector == DUPLICATE_READ));
}

#[test]
fn detector_messages_are_exact() {
    let accesses = vec![
        rec("b", AccessKind::Write, "count", false),
        rec("a", AccessKind::Write, "count", true),
        rec("a", AccessKind::Read, "count", false),
        rec("a", AccessKind::Read, "count", false),
        rec("a", AccessKind::Read, "count", false),
    ];
    let g = global_static_write(&accesses);
    assert_eq!(g.len(), 1);
    assert_eq!(
        g[0].message,
        "static key `count` is written from multiple functions (a, b); a global contention point that serializes concurrent access"
    );
    assert_eq!(g[0].function, None);
    let l = write_in_loop(&accesses);
    assert_eq!(l.len(), 1);
    assert_eq!(
        l[0].message,
        "function `a` writes storage key `count` inside a loop; potential write amplification and unbounded footprint growth"
    );
    let m = read_modify_write(&accesses);
    assert_eq!(m.len(), 1);
    assert_eq!(
        m[0].message,
        "function `a` both reads and writes key `count`; read-modify-write access serializes every writer to that key"
    );
    let d = duplicate_read(&accesses);
    assert_eq!(d.len(), 1);
    assert_eq!(d[0].message, "function `a` reads key `count` 3 times; redundant reads amplify the read set");
    let all = run(&accesses);
    assert_eq!(all.len(), 4);
    assert_eq!(all[0].detector, GLOBAL_STATIC_WRITE);
    assert_eq!(all[1].detector, WRITE_IN_LOOP);
    assert_eq!(all[2].detector, READ_MODIFY_WRITE);
    assert_eq!(all[3].detector, DUPLICATE_READ);
}

#[test]
fn dynamic_keys_are_never_global_but_still_paired() {
    let dynamic = AccessRecord {
        function: "a".into(),
        kind: AccessKind::Write,
        key: StaticKey::dynamic(),
        method: "put".into(),
        in_loop: false,
    };
    let mut other = dynamic.clone();
    other.function = "b".into();
    let mut read = dynamic.clone();
    read.kind = AccessKind::Read;
    let accesses = vec![dynamic, other, read];
    assert!(global_static_write(&accesses).is_empty());
    let m = read_modify_write(&accesses);
    assert_eq!(m.len(), 1);
    assert_eq!(m[0].key.as_deref(), Some("(dynamic)"));
}

#[test]
fn pair_findings_come_in_function_then_key_order() {
    let accesses = vec![
        rec("z", AccessKind::Read, "k", false),
        rec("z", AccessKind::Write, "k", false),
        rec("a", AccessKind::Read, "y", false),
        rec("a", AccessKind::Write, "y", false),
        rec("a", AccessKind::Read, "x", false),
        rec("a", AccessKind::Write, "x", false),
    ];
    let m = read_modify_write(&accesses);
    let pairs: Vec<_> = m.iter().map(|f| (f.function.clone().unwrap(), f.key.clone().unwrap())).collect();
    assert_eq!(
        pairs,
        vec![("a".to_string(), "x".to_string()), ("a".to_string(), "y".to_string()), ("z".to_string(), "k".to_string())]
    );
}
