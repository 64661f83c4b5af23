use slipstream::keys::LedgerKey;
use slipstream::xdr::{
    decode_capture, encode_capture, ArchiveCapture, CaptureKey, CaptureRecord, LedgerKeyType, XdrError, XdrReader,
    XdrWriter,
};

fn sample_capture() -> ArchiveCapture {
    ArchiveCapture {
        from_ledger: 100,
        to_ledger: 103,
        checkpoint_count: 4,
        records: vec![
            CaptureRecord {
                tx_hash: [0x11; 32],
                source_account: "GAAAACAPTURE1".into(),
                read_only: vec![CaptureKey {
                    key_type: LedgerKeyType::ContractData,
                    field_1: "CAAAACAPTURE1".into(),
                    field_2: "state".into(),
                }],
                read_write: vec![CaptureKey {
                    key_type: LedgerKeyType::ContractData,
                    field_1: "CAAAACAPTURE1".into(),
                    field_2: "shard:0".into(),
                }],
            },
            CaptureRecord {
                tx_hash: [0x22; 32],
                source_account: "GAAAACAPTURE2".into(),
                read_only: vec![],
                read_write: vec![
                    CaptureKey {
                        key_type: LedgerKeyType::Account,
                        field_1: "GAAAACAPTURE2".into(),
                        field_2: String::new(),
                    },
                    CaptureKey {
                        key_type: LedgerKeyType::Other,
                        field_1: "CONFIG_SETTING:100".into(),
                        field_2: String::new(),
                    },
                ],
            },
        ],
    }
}

#[test]
fn capture_round_trips_through_xdr() {
    let cap = sample_capture();
    let bytes = encode_capture(&cap);
    let back = decode_capture(&bytes).expect("decode");
    assert_eq!(cap, back);
}

#[test]
fn decode_rejects_bad_magic() {
    let cap = sample_capture();
    let mut bytes = encode_capture(&cap);
    bytes[0] = 0x00;
    assert!(matches!(decode_capture(&bytes), Err(XdrError::BadMagic(_))));
}

#[test]
fn decode_rejects_unsupported_version() {
    let cap = sample_capture();
    let mut bytes = encode_capture(&cap);
    bytes[4..8].copy_from_slice(&99u32.to_be_bytes());
    assert!(matches!(decode_capture(&bytes), Err(XdrError::UnsupportedVersion(99))));
}

#[test]
fn decode_overrun_reports_cleanly() {
    let cap = sample_capture();
    let bytes = encode_capture(&cap);
    let truncated = &bytes[..bytes.len() - 5];
    assert!(decode_capture(truncated).is_err());
}

#[test]
fn capture_key_maps_to_footprint_model() {
    let key = CaptureKey {
        key_type: LedgerKeyType::ContractData,
        field_1: "C1".into(),
        field_2: "balance".into(),
    };
    assert_eq!(
        key.to_ledger_key(),
        LedgerKey::ContractData {
            contract_id: "C1".into(),
            key: "balance".into(),
        }
    );
}

#[test]
fn writer_pads_variable_fields_to_four_bytes() {
    let mut w = XdrWriter::new();
    w.write_string("abc");
    assert_eq!(w.into_vec().len(), 8, "len(4) + 3 bytes + 1 pad");
}

#[test]
fn writer_emits_big_endian_words() {
    let mut w = XdrWriter::new();
    w.write_u32(0x0102_0304);
    w.write_u64(0x0506_0708_090a_0b0c);
    w.write_bool(true);
    w.write_bytes(&[0xaa]);
    assert_eq!(
        w.into_vec(),
        vec![1, 2, 3, 4, 5, 6, 7, 8, 9, 10, 11, 12, 0, 0, 0, 1, 0, 0, 0, 1, 0xaa, 0, 0, 0]
    );
}

#[test]
fn reader_reads_fields_and_reports_errors() {
    let bytes = [0, 0, 0, 2, 0, 0, 0, 0, 0, 0, 0, 9, 0xff, 0xff, 0xff, 0xff, 0xff, 0xff, 0xff, 0xfe, 0, 0, 0, 2, b'h', b'i', 0, 0];
    let mut rd = XdrReader::new(&bytes);
    assert_eq!(rd.remaining(), 28);
    assert_eq!(rd.read_bool(), Err(XdrError::BadBool(2)));
    assert_eq!(rd.read_u64(), Ok(9));
    assert_eq!(rd.read_i64(), Ok(-2));
    assert_eq!(rd.read_string(), Ok("hi"));
    assert_eq!(rd.remaining(), 0);
    assert_eq!(rd.read_u32(), Err(XdrError::Overrun));
}

#[test]
fn reader_rejects_invalid_utf8_and_unknown_key_types() {
    let bytes = [0, 0, 0, 1, 0xff, 0, 0, 0];
    let mut rd = XdrReader::new(&bytes);
    assert_eq!(rd.read_string(), Err(XdrError::InvalidUtf8));
    assert_eq!(LedgerKeyType::from_discriminant(7), Err(XdrError::UnknownKeyType(7)));
    assert_eq!(LedgerKeyType::from_discriminant(255), Ok(LedgerKeyType::Other));
    assert_eq!(LedgerKeyType::Other.discriminant(), 255);
}

#[test]
fn opaque_fields_consume_their_padding() {
    let bytes = [1, 2, 3, 0, 9, 9, 9, 9];
    let mut rd = XdrReader::new(&bytes);
    assert_eq!(rd.read_opaque(3), Ok(&[1u8, 2, 3][..]));
    assert_eq!(rd.remaining(), 4);
    assert_eq!(rd.read_opaque(5), Err(XdrError::LengthExceedsInput(5, 4)));
    assert_eq!(rd.remaining(), 4);
}

#[test]
fn length_beyond_input_names_length_and_remaining() {
    let bytes = [0, 0, 0, 5, 1, 2, 3];
    let mut rd = XdrReader::new(&bytes);
    assert_eq!(rd.read_bytes(), Err(XdrError::LengthExceedsInput(5, 3)));
    assert_eq!(rd.remaining(), 3);
    let mut rd = XdrReader::new(&bytes);
    assert_eq!(rd.read_string(), Err(XdrError::LengthExceedsInput(5, 3)));
}

#[test]
fn padding_cut_short_is_an_overrun_past_the_bytes() {
    let bytes = [1, 2, 3];
    let mut rd = XdrReader::new(&bytes);
    assert_eq!(rd.read_opaque(3), Err(XdrError::Overrun));
    assert_eq!(rd.remaining(), 0);
}

#[test]
fn failed_reads_leave_the_reader_where_they_stopped() {
    let bytes = [0, 0, 0, 7, 1, 2];
    let mut rd = XdrReader::new(&bytes[4..]);
    assert_eq!(rd.read_u32(), Err(XdrError::Overrun));
    assert_eq!(rd.remaining(), 2);
    let mut rd = XdrReader::new(&bytes);
    assert_eq!(rd.read_u64(), Err(XdrError::Overrun));
    assert_eq!(rd.remaining(), 2);
    let mut rd = XdrReader::new(&[0, 0, 0, 3]);
    assert_eq!(rd.read_bool(), Err(XdrError::BadBool(3)));
    assert_eq!(rd.remaining(), 0);
}
