//! Historical transaction sets: the records recovered from a capture
//! document, with their reconstructed footprints, and the capture-backed
//! sources (ledger archive and Stellar RPC) that decode through one shared
//! entry point.

use vstd::prelude::*;

use std::path::PathBuf;

use crate::footprint::TransactionFootprint;
use crate::keys::KeyModel;
use crate::keyset::{key_set, models};
use crate::text::{decimal, decimal_string, hex_of, hex_string};
use crate::xdr::{
    decode_capture, ledger_key_model, parse_capture, views, ArchiveCapture, CaptureKey, CaptureRecord, XdrError,
};

verus! {

#[verifier::external_type_specification]
#[verifier::external_body]
pub struct ExPathBuf(std::path::PathBuf);

#[verifier::external_type_specification]
#[verifier::external_body]
pub struct ExIoError(std::io::Error);

#[verifier::external_type_specification]
#[verifier::external_body]
pub struct ExJsonError(serde_json::Error);

/// A single recorded transaction and its reconstructed footprint.
#[derive(Debug, Clone, PartialEq, Eq)]
pub struct TransactionRecord {
    pub tx_hash: String,
    pub source_account: String,
    pub footprint: TransactionFootprint,
}

/// An ordered transaction set from one capture window.
#[derive(Debug, Clone, PartialEq, Eq)]
pub struct TransactionSet {
    /// Free-form provenance note describing where the set came from.
    pub captured_from: Option<String>,
    pub records: Vec<TransactionRecord>,
}

impl Default for TransactionSet {
    fn default() -> (r: Self)
        ensures
            r.captured_from.is_none(),
            r.records@.len() == 0,
    {
        TransactionSet { captured_from: None, records: Vec::new() }
    }
}

impl TransactionSet {
    /// The number of records.
    pub fn len(&self) -> (r: usize)
        ensures
            r == self.records@.len(),
    {
        self.records.len()
    }

    /// Whether the set holds no records.
    pub fn is_empty(&self) -> (r: bool)
        ensures
            r == (self.records@.len() == 0),
    {
        self.records.len() == 0
    }

    /// The footprints of the records, in order.
    pub fn footprints(&self) -> (r: Vec<TransactionFootprint>)
        ensures
            r@.len() == self.records@.len(),
            forall|i: int|
                0 <= i < r@.len() ==> models((#[trigger] r@[i]).read_only@) == models(self.records@[i].footprint.read_only@)
                    && models(r@[i].read_write@) == models(self.records@[i].footprint.read_write@),
    {
        let mut out: Vec<TransactionFootprint> = Vec::new();
        let mut i: usize = 0;
        while i < self.records.len()
            invariant
                i <= self.records.len(),
                out@.len() == i,
                forall|k: int|
                    0 <= k < i ==> models((#[trigger] out@[k]).read_only@) == models(self.records@[k].footprint.read_only@)
                        && models(out@[k].read_write@) == models(self.records@[k].footprint.read_write@),
            decreases self.records.len() - i,
        {
            out.push(self.records[i].footprint.duplicate());
            i = i + 1;
        }
        out
    }
}

/// Errors produced while loading or replaying a transaction set.
#[derive(Debug)]
pub enum ReplayError {
    /// The source cannot produce a set.
    Unavailable { name: String, message: String },
    /// A fixture file could not be read.
    Read { path: PathBuf, source: std::io::Error },
    /// A fixture file could not be parsed.
    Parse { path: PathBuf, source: serde_json::Error },
    /// A capture document could not be decoded.
    Xdr { path: PathBuf, source: XdrError },
}

/// The path `PathBuf::from` makes of a text.
pub uninterp spec fn path_of(text: Seq<char>) -> PathBuf;

/// Makes a path from a text with `PathBuf::from` (std). The contract names
/// the result by `path_of` of the text and says nothing more of it.
#[verifier::external_body]
fn text_path(text: &str) -> (r: PathBuf)
    ensures
        r == path_of(text@),
{
    PathBuf::from(text)
}

/// The footprint key models of capture keys.
pub open spec fn capture_key_set(keys: Seq<(crate::xdr::LedgerKeyType, Seq<char>, Seq<char>)>) -> Set<KeyModel> {
    keys.map_values(|k: (crate::xdr::LedgerKeyType, Seq<char>, Seq<char>)| ledger_key_model(k)).to_set()
}

/// `t` is the transaction of capture record `m`: its hash in lowercase hex,
/// its source account, and a footprint reading and writing the record's keys.
pub open spec fn record_matches(t: TransactionRecord, m: <CaptureRecord as View>::V) -> bool {
    &&& t.tx_hash@ == hex_of(m.0)
    &&& t.source_account@ == m.1
    &&& t.footprint.wf()
    &&& t.footprint.ro() == capture_key_set(m.2)
    &&& t.footprint.rw() == capture_key_set(m.3)
}

/// `s` is the transaction set of capture `m`, with provenance `provenance`.
pub open spec fn set_matches(s: TransactionSet, provenance: Seq<char>, m: <ArchiveCapture as View>::V) -> bool {
    &&& s.captured_from matches Some(p) && p@ == provenance
    &&& s.records@.len() == m.3.len()
    &&& forall|i: int| 0 <= i < m.3.len() ==> record_matches(#[trigger] s.records@[i], m.3[i])
}

/// Adds one capture key model to a set.
proof fn lemma_capture_key_set_push(keys: Seq<(crate::xdr::LedgerKeyType, Seq<char>, Seq<char>)>, k: (crate::xdr::LedgerKeyType, Seq<char>, Seq<char>))
    ensures
        capture_key_set(keys.push(k)) == capture_key_set(keys).insert(ledger_key_model(k)),
{
    let f = |x: (crate::xdr::LedgerKeyType, Seq<char>, Seq<char>)| ledger_key_model(x);
    assert(keys.push(k).map_values(f) =~= keys.map_values(f).push(ledger_key_model(k)));
    assert(keys.map_values(f).push(ledger_key_model(k)).to_set() =~= keys.map_values(f).to_set().insert(ledger_key_model(k))) by {
        let s = keys.map_values(f);
        assert forall|m: KeyModel| s.push(ledger_key_model(k)).to_set().contains(m) <==> s.to_set().insert(ledger_key_model(k)).contains(m) by {
            if s.push(ledger_key_model(k)).to_set().contains(m) {
                let i = choose|i: int| 0 <= i < s.push(ledger_key_model(k)).len() && s.push(ledger_key_model(k))[i] == m;
                if i < s.len() {
                    assert(s[i] == m);
                }
            }
            if s.to_set().contains(m) {
                let i = choose|i: int| 0 <= i < s.len() && s[i] == m;
                assert(s.push(ledger_key_model(k))[i] == m);
            }
            if m == ledger_key_model(k) {
                assert(s.push(ledger_key_model(k))[s.len() as int] == m);
            }
        }
    }
}

/// A footprint reading `read_only` and writing `read_write`.
fn footprint_of(read_only: &Vec<CaptureKey>, read_write: &Vec<CaptureKey>) -> (r: TransactionFootprint)
    ensures
        r.wf(),
        r.ro() == capture_key_set(views(read_only@)),
        r.rw() == capture_key_set(views(read_write@)),
{
    let mut fp = TransactionFootprint::new();
    proof {
        assert(fp.ro() =~= Set::<KeyModel>::empty());
        assert(fp.rw() =~= Set::<KeyModel>::empty());
        assert(capture_key_set(views(read_only@.take(0))) =~= Set::<KeyModel>::empty());
    }
    let mut i: usize = 0;
    while i < read_only.len()
        invariant
            i <= read_only.len(),
            fp.wf(),
            fp.ro() == capture_key_set(views(read_only@.take(i as int))),
            fp.rw() == Set::<KeyModel>::empty(),
        decreases read_only.len() - i,
    {
        let k = &read_only[i];
        fp = fp.read(k.to_ledger_key());
        proof {
            assert(views(read_only@.take(i + 1)) =~= views(read_only@.take(i as int)).push(k@));
            lemma_capture_key_set_push(views(read_only@.take(i as int)), k@);
        }
        i = i + 1;
    }
    proof {
        assert(read_only@.take(read_only@.len() as int) =~= read_only@);
        assert(capture_key_set(views(read_write@.take(0))) =~= Set::<KeyModel>::empty());
    }
    let mut j: usize = 0;
    while j < read_write.len()
        invariant
            j <= read_write.len(),
            fp.wf(),
            fp.ro() == capture_key_set(views(read_only@)),
            fp.rw() == capture_key_set(views(read_write@.take(j as int))),
        decreases read_write.len() - j,
    {
        let k = &read_write[j];
        let ghost ro = fp.ro();
        fp = fp.read_write(k.to_ledger_key());
        proof {
            assert(fp.ro() == ro);
            assert(views(read_write@.take(j + 1)) =~= views(read_write@.take(j as int)).push(k@));
            lemma_capture_key_set_push(views(read_write@.take(j as int)), k@);
        }
        j = j + 1;
    }
    proof {
        assert(read_write@.take(read_write@.len() as int) =~= read_write@);
    }
    fp
}

/// The transaction of a capture record: its hash as lowercase hex, its
/// source account, and the footprint of its keys.
pub fn record_to_transaction(rec: &CaptureRecord) -> (r: TransactionRecord)
    ensures
        record_matches(r, rec@),
{
    let tx_hash = hex_string(rec.tx_hash.as_slice());
    let footprint = footprint_of(&rec.read_only, &rec.read_write);
    TransactionRecord { tx_hash, source_account: rec.source_account.clone(), footprint }
}

/// Converts decoded capture records into a transaction set with the given
/// provenance.
pub fn records_to_set(provenance: &str, capture: &ArchiveCapture) -> (r: TransactionSet)
    ensures
        set_matches(r, provenance@, capture@),
{
    let mut records: Vec<TransactionRecord> = Vec::new();
    let mut i: usize = 0;
    while i < capture.records.len()
        invariant
            i <= capture.records.len(),
            records@.len() == i,
            forall|k: int| 0 <= k < i ==> record_matches(#[trigger] records@[k], capture.records@[k]@),
        decreases capture.records.len() - i,
    {
        records.push(record_to_transaction(&capture.records[i]));
        i = i + 1;
    }
    TransactionSet { captured_from: Some(String::from_str(provenance)), records }
}

/// Decodes a capture document into a transaction set recording the
/// provenance; a document that fails to decode gives the decoding error,
/// with the provenance as its path.
pub fn decode_capture_set(provenance: &str, bytes: &[u8]) -> (r: Result<TransactionSet, ReplayError>)
    ensures
        match parse_capture(bytes@) {
            Ok(m) => r matches Ok(s) && set_matches(s, provenance@, m),
            Err(e) => r matches Err(ReplayError::Xdr { path, source }) && source == e && path == path_of(provenance@),
        },
{
    match decode_capture(bytes) {
        Ok(capture) => Ok(records_to_set(provenance, &capture)),
        Err(source) => Err(ReplayError::Xdr { path: text_path(provenance), source }),
    }
}

/// Configuration for a Stellar RPC-backed profile source.
#[derive(Debug, Clone)]
pub struct RpcProfileSource {
    pub endpoint: String,
    pub network_passphrase: String,
}

/// The message of the RPC source, which has no live service to call.
pub open spec fn rpc_unavailable_message(endpoint: Seq<char>) -> Seq<char> {
    "RPC capture from `"@ + endpoint + "` requires the Stellar RPC service; not wired up yet. See issue: replay RPC ingestion."@
}

impl RpcProfileSource {
    /// The source's identifier.
    pub fn name(&self) -> (r: &'static str)
        ensures
            r@ == "stellar-rpc"@,
    {
        "stellar-rpc"
    }

    /// Loading needs the live RPC service, which is not wired up: always
    /// unavailable, naming the endpoint.
    pub fn load(&self) -> (r: Result<TransactionSet, ReplayError>)
        ensures
            r matches Err(ReplayError::Unavailable { name, message }) && name@ == "stellar-rpc"@ && message@
                == rpc_unavailable_message(self.endpoint@),
    {
        let mut message = String::from_str("RPC capture from `");
        message.append(self.endpoint.as_str());
        message.append("` requires the Stellar RPC service; not wired up yet. See issue: replay RPC ingestion.");
        Err(ReplayError::Unavailable { name: String::from_str(self.name()), message })
    }

    /// Decodes RPC payload bytes through the shared capture decoder, with the
    /// provenance `stellar-rpc://` and the endpoint.
    pub fn decode(&self, bytes: &[u8]) -> (r: Result<TransactionSet, ReplayError>)
        ensures
            match parse_capture(bytes@) {
                Ok(m) => r matches Ok(s) && set_matches(s, "stellar-rpc://"@ + self.endpoint@, m),
                Err(e) => r matches Err(ReplayError::Xdr { path, source }) && source == e && path == path_of("stellar-rpc://"@ + self.endpoint@),
            },
    {
        let mut provenance = String::from_str("stellar-rpc://");
        provenance.append(self.endpoint.as_str());
        decode_capture_set(provenance.as_str(), bytes)
    }
}

/// Configuration for a ledger-archive-backed profile source.
#[derive(Debug, Clone)]
pub struct ArchiveProfileSource {
    /// Path to the capture document (XDR bytes) for the ledger range.
    pub bucket_path: String,
    pub from_ledger: u32,
    pub to_ledger: u32,
}

/// The checkpoint count a capture declares, or zero when it does not decode.
pub open spec fn declared_checkpoints(raw: Seq<u8>) -> u32 {
    match parse_capture(raw) {
        Ok(m) => m.2,
        Err(_) => 0,
    }
}

/// The provenance of an archive capture: the ledger range, the checkpoint
/// count, the size and the path.
pub open spec fn archive_provenance(src: ArchiveProfileSource, raw: Seq<u8>) -> Seq<char> {
    "ledger-archive capture: ledgers "@ + decimal(src.from_ledger as nat) + "..="@ + decimal(src.to_ledger as nat) + ", "@
        + decimal(declared_checkpoints(raw) as nat) + " checkpoints, "@ + decimal(raw.len()) + " bytes from `"@
        + src.bucket_path@ + "`"@
}

impl ArchiveProfileSource {
    /// The source's identifier.
    pub fn name(&self) -> (r: &'static str)
        ensures
            r@ == "ledger-archive"@,
    {
        "ledger-archive"
    }

    /// The number of checkpoints spanned by the capture, from its decoded
    /// header when it decodes.
    pub fn checkpoint_count(&self, raw: &[u8]) -> (r: u32)
        ensures
            r == declared_checkpoints(raw@),
    {
        match decode_capture(raw) {
            Ok(cap) => cap.checkpoint_count,
            Err(_) => 0,
        }
    }

    /// The provenance note recorded for the capture bytes `raw`.
    pub fn provenance(&self, raw: &[u8]) -> (r: String)
        ensures
            r@ == archive_provenance(*self, raw@),
    {
        let mut out = String::from_str("ledger-archive capture: ledgers ");
        out.append(decimal_string(self.from_ledger as u64).as_str());
        out.append("..=");
        out.append(decimal_string(self.to_ledger as u64).as_str());
        out.append(", ");
        out.append(decimal_string(self.checkpoint_count(raw) as u64).as_str());
        out.append(" checkpoints, ");
        out.append(decimal_string(raw.len() as u64).as_str());
        out.append(" bytes from `");
        out.append(self.bucket_path.as_str());
        out.append("`");
        out
    }

    /// Decodes capture bytes read from the archive into a transaction set
    /// carrying the archive provenance.
    pub fn load_bytes(&self, raw: &[u8]) -> (r: Result<TransactionSet, ReplayError>)
        ensures
            match parse_capture(raw@) {
                Ok(m) => r matches Ok(s) && set_matches(s, archive_provenance(*self, raw@), m),
                Err(e) => r matches Err(ReplayError::Xdr { path, source }) && source == e && path == path_of(archive_provenance(*self, raw@)),
            },
    {
        let provenance = self.provenance(raw);
        decode_capture_set(provenance.as_str(), raw)
    }
}

/// A source that loads a transaction set from a JSON fixture file.
#[derive(Debug)]
pub struct FixtureSource {
    pub path: PathBuf,
}

impl FixtureSource {
    /// A fixture source reading the file at `path`.
    pub fn new(path: &str) -> (r: Self)
        ensures
            r.path == path_of(path@),
    {
        FixtureSource { path: text_path(path) }
    }

    /// The source's identifier.
    pub fn name(&self) -> (r: &'static str)
        ensures
            r@ == "fixture"@,
    {
        "fixture"
    }
}

} // verus!
