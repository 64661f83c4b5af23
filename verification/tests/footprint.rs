use slipstream::footprint::{overlap, TransactionFootprint};
use slipstream::keys::{contract_data, LedgerKey};

fn config_key() -> LedgerKey {
    contract_data("C1", "config")
}

#[test]
fn empty_footprint_touches_nothing() {
    let fp = TransactionFootprint::new();
    assert!(fp.keys().is_empty());
    assert_eq!(fp.key_count(), 0);
    assert_eq!(fp.write_count(), 0);
}

#[test]
fn builder_accumulates_keys() {
    let fp = TransactionFootprint::new()
        .read(contract_data("C1", "config"))
        .read_write(contract_data("C1", "balance"));
    assert_eq!(fp.key_count(), 2);
    assert_eq!(fp.write_count(), 1);
    assert!(fp.read_only.contains(&config_key()));
    assert!(fp.read_write.contains(&contract_data("C1", "balance")));
}

#[test]
fn shared_read_only_is_not_a_conflict() {
    let a = TransactionFootprint::new().read(config_key());
    let b = TransactionFootprint::new().read(config_key());
    assert!(a.overlaps(&b));
    assert!(!a.conflicts_with(&b));
    assert!(!overlap(&a, &b).is_conflicting());
}

#[test]
fn read_write_shared_key_conflicts() {
    let key = contract_data("C1", "balance");
    let a = TransactionFootprint::new().read_write(key.clone());
    let b = TransactionFootprint::new().read(key);
    assert!(a.conflicts_with(&b));
    let o = overlap(&a, &b);
    assert!(o.is_conflicting());
    assert_eq!(o.conflict_keys.len(), 1);
}

#[test]
fn disjoint_footprints_do_not_overlap() {
    let a = TransactionFootprint::new().read(contract_data("C1", "config"));
    let b = TransactionFootprint::new().read_write(contract_data("C2", "balance"));
    assert!(!a.overlaps(&b));
    assert!(!a.conflicts_with(&b));
}

#[test]
fn keys_are_deduplicated_across_modes() {
    let key = config_key();
    let fp = TransactionFootprint::new().read(key.clone()).read_write(key);
    assert_eq!(fp.key_count(), 1);
    assert_eq!(fp.write_count(), 1);
}

#[test]
fn conflict_rule_is_symmetric_on_examples() {
    let w = TransactionFootprint::new().read_write(config_key());
    let r = TransactionFootprint::new().read(config_key());
    assert_eq!(w.conflicts_with(&r), r.conflicts_with(&w));
    assert!(!r.conflicts_with(&r));
    assert!(w.conflicts_with(&w));
}

#[test]
fn builder_keeps_each_key_once_in_key_order() {
    let fp = TransactionFootprint::new()
        .read(contract_data("C1", "b"))
        .read(contract_data("C1", "a"))
        .read(contract_data("C1", "b"));
    assert_eq!(fp.read_only, vec![contract_data("C1", "a"), contract_data("C1", "b")]);
    assert_eq!(fp.keys(), vec![contract_data("C1", "a"), contract_data("C1", "b")]);
}
