use slipstream::replay::{
    decode_capture_set, ArchiveProfileSource, FixtureSource, ReplayError, RpcProfileSource, TransactionSet,
};
use slipstream::xdr::{encode_capture, ArchiveCapture, CaptureKey, CaptureRecord, LedgerKeyType};

const CONTRACT: &str = "C0000000000000000000000000000000000000000000000000000000000000001";

fn key(field_2: &str) -> CaptureKey {
    CaptureKey {
        key_type: LedgerKeyType::ContractData,
        field_1: CONTRACT.into(),
        field_2: field_2.into(),
    }
}

/// A three-transaction capture over ledgers 100..=103: two shard writers and
/// one reader.
fn archive_capture_bytes() -> Vec<u8> {
    encode_capture(&ArchiveCapture {
        from_ledger: 100,
        to_ledger: 103,
        checkpoint_count: 1,
        records: vec![
            CaptureRecord {
                tx_hash: [0x01; 32],
                source_account: "GSOURCE1".into(),
                read_only: vec![key("config")],
                read_write: vec![key("shard:0")],
            },
            CaptureRecord {
                tx_hash: [0x02; 32],
                source_account: "GSOURCE2".into(),
                read_only: vec![key("config")],
                read_write: vec![key("shard:1")],
            },
            CaptureRecord {
                tx_hash: [0x03; 32],
                source_account: "GSOURCE3".into(),
                read_only: vec![key("config")],
                read_write: vec![],
            },
        ],
    })
}

fn archive_source() -> ArchiveProfileSource {
    ArchiveProfileSource {
        bucket_path: "fixtures/archive/capture.xdr".into(),
        from_ledger: 100,
        to_ledger: 103,
    }
}

#[test]
fn archive_source_loads_capture_fixture() {
    let source = archive_source();
    let raw = archive_capture_bytes();
    let set = source.load_bytes(&raw).expect("archive capture present and valid");
    assert_eq!(set.len(), 3, "three transactions in the capture");

    let provenance = set.captured_from.as_ref().expect("provenance recorded");
    assert!(provenance.contains("ledgers 100..=103"), "range in provenance: {provenance}");
    assert!(provenance.contains("checkpoints"), "{provenance}");
    assert!(provenance.contains("bytes"), "{provenance}");

    let footprints = set.footprints();
    assert_eq!(footprints.len(), 3);
    let mut writes = footprints
        .iter()
        .flat_map(|f| f.writes().iter().map(|k| k.to_string()))
        .collect::<Vec<_>>();
    writes.sort();
    assert_eq!(
        writes,
        vec![
            "contract:C0000000000000000000000000000000000000000000000000000000000000001:shard:0",
            "contract:C0000000000000000000000000000000000000000000000000000000000000001:shard:1"
        ]
    );
}

#[test]
fn rpc_source_reports_unavailable_cleanly() {
    let src = RpcProfileSource {
        endpoint: "https://example.invalid".into(),
        network_passphrase: "Test SDF Network ; September 2015".into(),
    };
    match src.load() {
        Err(ReplayError::Unavailable { name, message }) => {
            assert_eq!(name, "stellar-rpc");
            assert!(message.contains("https://example.invalid"));
        }
        other => panic!("expected Unavailable, got {other:?}"),
    }
}

#[test]
fn rpc_source_shares_archive_xdr_decoding() {
    let bytes = archive_capture_bytes();
    let rpc = RpcProfileSource {
        endpoint: "https://rpc.example.invalid".into(),
        network_passphrase: "Test SDF Network ; September 2015".into(),
    };
    let via_rpc = rpc.decode(&bytes).expect("shared decode works");
    let via_archive = archive_source().load_bytes(&bytes).expect("archive load");
    assert_eq!(via_rpc.records, via_archive.records, "RPC and archive sources decode identically");
    assert_eq!(via_rpc.captured_from.as_deref(), Some("stellar-rpc://https://rpc.example.invalid"));
}

#[test]
fn archive_decode_rejects_corrupt_bytes() {
    let mut bytes = archive_capture_bytes();
    bytes[0] ^= 0xff;
    match archive_source().load_bytes(&bytes) {
        Err(ReplayError::Xdr { .. }) => {}
        other => panic!("expected an XDR error, got {other:?}"),
    }
    assert_eq!(archive_source().checkpoint_count(&bytes), 0);
}

#[test]
fn provenance_names_range_checkpoints_size_and_path() {
    let raw = archive_capture_bytes();
    let p = archive_source().provenance(&raw);
    assert_eq!(
        p,
        format!(
            "ledger-archive capture: ledgers 100..=103, 1 checkpoints, {} bytes from `fixtures/archive/capture.xdr`",
            raw.len()
        )
    );
}

#[test]
fn records_carry_hex_hashes_and_accounts() {
    let set = decode_capture_set("test", &archive_capture_bytes()).expect("decodes");
    assert_eq!(set.records[0].tx_hash, "01".repeat(32));
    assert_eq!(set.records[2].source_account, "GSOURCE3");
    assert_eq!(set.records[2].footprint.write_count(), 0);
    assert_eq!(set.records[0].footprint.key_count(), 2);
    assert!(!set.is_empty());
    assert!(TransactionSet::default().is_empty());
}

#[test]
fn fixture_source_names_its_path() {
    let source = FixtureSource::new("fixtures/mainnet_fragment.json");
    assert_eq!(source.path, std::path::PathBuf::from("fixtures/mainnet_fragment.json"));
    assert_eq!(source.name(), "fixture");
}
