use slipstream::analysis::{AccessKind, StaticKey};
use slipstream::syntax::{call_receiver, classify, extract_key, is_storage_chain, BodyRecords, ExprNode, Member};

fn path(segs: &[&str]) -> ExprNode {
    ExprNode::Path(segs.iter().map(|s| s.to_string()).collect())
}

fn method(receiver: ExprNode, name: &str) -> ExprNode {
    ExprNode::MethodCall {
        receiver: Box::new(receiver),
        method: name.into(),
    }
}

/// `env.storage().instance()`
fn instance_storage() -> ExprNode {
    method(method(path(&["env"]), "storage"), "instance")
}

fn symbol(name: &str) -> ExprNode {
    ExprNode::Reference(Box::new(ExprNode::Macro {
        path: vec!["symbol_short".into()],
        body: Some(Box::new(ExprNode::Str(name.into()))),
    }))
}

#[test]
fn storage_chains_are_recognised() {
    assert!(is_storage_chain(&instance_storage()));
    assert!(is_storage_chain(&ExprNode::Field {
        base: Box::new(path(&["self"])),
        member: Member::Named("storage".into()),
    }));
    assert!(!is_storage_chain(&path(&["client"])));
    assert!(!is_storage_chain(&ExprNode::Paren(Box::new(instance_storage()))));
}

#[test]
fn keys_are_extracted_from_literals_paths_constructors_and_macros() {
    assert_eq!(extract_key(Some(&symbol("count"))), StaticKey::from_segment("count".into()));
    assert_eq!(extract_key(Some(&path(&["DataKey", "Owner"]))), StaticKey::from_segment("Owner".into()));
    assert_eq!(extract_key(Some(&path(&["key"]))), StaticKey::dynamic());
    let ctor = ExprNode::Call {
        func: Box::new(path(&["Symbol", "new"])),
        first_arg: Some(Box::new(ExprNode::Reference(Box::new(ExprNode::Str("name".into()))))),
    };
    assert_eq!(extract_key(Some(&ctor)), StaticKey::from_segment("name".into()));
    let bytes = ExprNode::ByteStr(b"raw".to_vec());
    assert_eq!(extract_key(Some(&bytes)), StaticKey::from_segment("raw".into()));
    let twice = ExprNode::Reference(Box::new(ExprNode::Reference(Box::new(ExprNode::Str("x".into())))));
    assert_eq!(extract_key(Some(&twice)), StaticKey::dynamic());
    assert_eq!(extract_key(None), StaticKey::dynamic());
}

#[test]
fn receivers_name_client_candidates() {
    assert_eq!(call_receiver(&path(&["client"])), Some("client".to_string()));
    assert_eq!(call_receiver(&path(&["env"])), None);
    assert_eq!(call_receiver(&instance_storage()), None);
    let tuple = ExprNode::Field {
        base: Box::new(path(&["self"])),
        member: Member::Unnamed(12),
    };
    assert_eq!(call_receiver(&tuple), Some("12".to_string()));
}

#[test]
fn storage_methods_are_classified() {
    assert_eq!(classify("get"), Some(AccessKind::Read));
    assert_eq!(classify("has"), Some(AccessKind::Read));
    assert_eq!(classify("del"), Some(AccessKind::Write));
    assert_eq!(classify("extend_ttl"), None);
}

#[test]
fn method_calls_become_records() {
    let mut records = BodyRecords::new();
    records.record_method_call(Some("increment"), true, "put", &instance_storage(), Some(&symbol("count")));
    records.record_method_call(Some("run"), false, "increment", &path(&["client"]), None);
    records.record_method_call(None, false, "get", &instance_storage(), Some(&symbol("count")));
    assert_eq!(records.accesses.len(), 1);
    assert_eq!(records.accesses[0].kind, AccessKind::Write);
    assert!(records.accesses[0].in_loop);
    assert_eq!(records.accesses[0].key.as_key(), "count");
    assert_eq!(records.calls.len(), 1);
    assert_eq!(records.calls[0].receiver, "client");
}
