use slipstream::keys::{account, contract_data, KeyOrder, LedgerKey};
use slipstream::text::{decimal_string, hex_string, join, same_text};

#[test]
fn display_formats_are_stable() {
    assert_eq!(contract_data("C1", "balance").to_string(), "contract:C1:balance");
    assert_eq!(account("GABC").to_string(), "account:GABC");
    assert_eq!(
        LedgerKey::TrustLine {
            account_id: "GABC".into(),
            asset: "USDC:GBISSUER".into(),
        }
        .to_string(),
        "trustline:GABC:USDC:GBISSUER"
    );
}

#[test]
fn ordering_is_deterministic() {
    let mut keys = vec![contract_data("C2", "a"), account("G1"), contract_data("C1", "z")];
    keys.sort();
    assert_eq!(keys, vec![account("G1"), contract_data("C1", "z"), contract_data("C2", "a")]);
}

#[test]
fn compare_orders_by_variant_then_fields() {
    assert_eq!(account("Z").compare(&contract_data("A", "a")), KeyOrder::Less);
    assert_eq!(contract_data("C1", "b").compare(&contract_data("C1", "a")), KeyOrder::Greater);
    assert_eq!(contract_data("C1", "a").compare(&contract_data("C1", "a")), KeyOrder::Equal);
    assert!(contract_data("C1", "a").same_as(&contract_data("C1", "a")));
    assert!(!contract_data("C1", "a").same_as(&contract_data("C1", "b")));
}

#[test]
fn other_variants_display() {
    assert_eq!(LedgerKey::ContractCode { contract_id: "C9".into() }.to_string(), "code:C9");
    assert_eq!(LedgerKey::ContractTtl { contract_id: "C9".into() }.to_string(), "ttl:C9");
    assert_eq!(LedgerKey::Other("CONFIG:1".into()).to_string(), "other:CONFIG:1");
}

#[test]
fn text_helpers_render_exactly() {
    assert_eq!(decimal_string(0), "0");
    assert_eq!(decimal_string(1234567890), "1234567890");
    assert_eq!(decimal_string(u64::MAX), "18446744073709551615");
    assert_eq!(hex_string(&[0x00, 0x0f, 0xa0, 0xff]), "000fa0ff");
    assert_eq!(join(&["a".to_string(), "b".to_string(), "c".to_string()], ", "), "a, b, c");
    assert_eq!(join(&Vec::<String>::new(), "."), "");
    assert!(same_text("abc", "abc"));
    assert!(!same_text("abc", "abd"));
}
