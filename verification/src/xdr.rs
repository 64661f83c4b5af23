//! A minimal XDR wire codec for ledger-archive captures: big-endian,
//! 4-byte aligned, length-prefixed fields.
//!
//! A capture (version 1) is:
//!
//! ```text
//! Capture = u32 magic (0x534C5031, "SLP1"), u32 version (1),
//!           u32 from_ledger, u32 to_ledger, u32 checkpoint_count,
//!           TransactionRecord records<>
//! TransactionRecord = opaque tx_hash[32], string source_account,
//!                     LedgerKey read_only<>, LedgerKey read_write<>
//! LedgerKey = u32 type, string field_1, string field_2
//! ```
//!
//! Every reader is specified by a parse function over the input bytes and
//! the read position; every writer by the bytes it appends. Decoding what was
//! encoded gives the same value back.

use vstd::prelude::*;
use vstd::string::StringSliceAdditionalSpecFns;
use vstd::utf8::{decode_utf8, encode_utf8, valid_utf8};

use crate::keys::{KeyModel, LedgerKey};

verus! {

/// Magic bytes identifying a capture document ("SLP1").
pub const MAGIC: u32 = 0x534C_5031;

/// Current capture format version.
pub const VERSION: u32 = 1;

/// Errors produced while decoding XDR capture bytes.
#[derive(Debug, Clone, Copy, PartialEq, Eq, Structural)]
pub enum XdrError {
    /// The input ended before the field could be read.
    Overrun,
    /// A boolean field held a value other than 0 or 1.
    BadBool(u32),
    /// An opaque/string length exceeds the remaining input.
    LengthExceedsInput(usize, usize),
    /// A UTF-8 string field was not valid UTF-8.
    InvalidUtf8,
    /// The capture magic header did not match [`MAGIC`].
    BadMagic(u32),
    /// The capture version is not supported by this decoder.
    UnsupportedVersion(u32),
    /// An unknown key type discriminant was encountered.
    UnknownKeyType(u32),
}

/// The ledger entry type encoded in a capture key.
#[derive(Debug, Clone, Copy, PartialEq, Eq, Structural)]
pub enum LedgerKeyType {
    Account,
    TrustLine,
    ContractData,
    ContractCode,
    ContractTtl,
    Other,
}

/// The wire discriminant of a key type: 0 to 4 in declaration order, and
/// 255 for `Other`.
pub open spec fn type_code(t: LedgerKeyType) -> u32 {
    match t {
        LedgerKeyType::Account => 0,
        LedgerKeyType::TrustLine => 1,
        LedgerKeyType::ContractData => 2,
        LedgerKeyType::ContractCode => 3,
        LedgerKeyType::ContractTtl => 4,
        LedgerKeyType::Other => 255,
    }
}

/// The key type with wire discriminant `v`, if any.
pub open spec fn type_of_code(v: u32) -> Option<LedgerKeyType> {
    if v == 0 {
        Some(LedgerKeyType::Account)
    } else if v == 1 {
        Some(LedgerKeyType::TrustLine)
    } else if v == 2 {
        Some(LedgerKeyType::ContractData)
    } else if v == 3 {
        Some(LedgerKeyType::ContractCode)
    } else if v == 4 {
        Some(LedgerKeyType::ContractTtl)
    } else if v == 255 {
        Some(LedgerKeyType::Other)
    } else {
        None
    }
}

impl LedgerKeyType {
    /// The key type of a wire discriminant.
    pub fn from_discriminant(v: u32) -> (r: Result<Self, XdrError>)
        ensures
            r == match type_of_code(v) {
                Some(t) => Ok(t),
                None => Err::<LedgerKeyType, XdrError>(XdrError::UnknownKeyType(v)),
            },
    {
        if v == 0 {
            Ok(LedgerKeyType::Account)
        } else if v == 1 {
            Ok(LedgerKeyType::TrustLine)
        } else if v == 2 {
            Ok(LedgerKeyType::ContractData)
        } else if v == 3 {
            Ok(LedgerKeyType::ContractCode)
        } else if v == 4 {
            Ok(LedgerKeyType::ContractTtl)
        } else if v == 255 {
            Ok(LedgerKeyType::Other)
        } else {
            Err(XdrError::UnknownKeyType(v))
        }
    }

    /// The wire discriminant of the key type.
    pub fn discriminant(self) -> (r: u32)
        ensures
            r == type_code(self),
    {
        match self {
            LedgerKeyType::Account => 0,
            LedgerKeyType::TrustLine => 1,
            LedgerKeyType::ContractData => 2,
            LedgerKeyType::ContractCode => 3,
            LedgerKeyType::ContractTtl => 4,
            LedgerKeyType::Other => 255,
        }
    }
}

/// A ledger key decoded from a capture.
#[derive(Debug, Clone, PartialEq, Eq)]
pub struct CaptureKey {
    pub key_type: LedgerKeyType,
    pub field_1: String,
    pub field_2: String,
}

impl View for CaptureKey {
    type V = (LedgerKeyType, Seq<char>, Seq<char>);

    open spec fn view(&self) -> (LedgerKeyType, Seq<char>, Seq<char>) {
        (self.key_type, self.field_1@, self.field_2@)
    }
}

/// The footprint key model of a capture key: the first field identifies the
/// entry, the second is kept for trust lines and contract data only.
pub open spec fn ledger_key_model(k: (LedgerKeyType, Seq<char>, Seq<char>)) -> KeyModel {
    match k.0 {
        LedgerKeyType::Account => (0, k.1, Seq::empty()),
        LedgerKeyType::TrustLine => (1, k.1, k.2),
        LedgerKeyType::ContractData => (2, k.1, k.2),
        LedgerKeyType::ContractCode => (3, k.1, Seq::empty()),
        LedgerKeyType::ContractTtl => (4, k.1, Seq::empty()),
        LedgerKeyType::Other => (5, k.1, Seq::empty()),
    }
}

impl CaptureKey {
    /// Maps the capture key onto the footprint model.
    pub fn to_ledger_key(&self) -> (r: LedgerKey)
        ensures
            r@ == ledger_key_model(self@),
    {
        match self.key_type {
            LedgerKeyType::Account => LedgerKey::Account { account_id: self.field_1.clone() },
            LedgerKeyType::TrustLine => LedgerKey::TrustLine {
                account_id: self.field_1.clone(),
                asset: self.field_2.clone(),
            },
            LedgerKeyType::ContractData => LedgerKey::ContractData {
                contract_id: self.field_1.clone(),
                key: self.field_2.clone(),
            },
            LedgerKeyType::ContractCode => LedgerKey::ContractCode { contract_id: self.field_1.clone() },
            LedgerKeyType::ContractTtl => LedgerKey::ContractTtl { contract_id: self.field_1.clone() },
            LedgerKeyType::Other => LedgerKey::Other(self.field_1.clone()),
        }
    }
}

/// One transaction recovered from an archive capture.
#[derive(Debug, Clone, PartialEq, Eq)]
pub struct CaptureRecord {
    pub tx_hash: [u8; 32],
    pub source_account: String,
    pub read_only: Vec<CaptureKey>,
    pub read_write: Vec<CaptureKey>,
}

/// The models of a sequence of values.
pub open spec fn views<T: View>(s: Seq<T>) -> Seq<T::V> {
    s.map_values(|x: T| x@)
}

impl View for CaptureRecord {
    type V = (Seq<u8>, Seq<char>, Seq<(LedgerKeyType, Seq<char>, Seq<char>)>, Seq<(LedgerKeyType, Seq<char>, Seq<char>)>);

    open spec fn view(&self) -> Self::V {
        (self.tx_hash@, self.source_account@, views(self.read_only@), views(self.read_write@))
    }
}

/// The decoded contents of an archive capture document.
#[derive(Debug, Clone, PartialEq, Eq)]
pub struct ArchiveCapture {
    pub from_ledger: u32,
    pub to_ledger: u32,
    pub checkpoint_count: u32,
    pub records: Vec<CaptureRecord>,
}

impl View for ArchiveCapture {
    type V = (u32, u32, u32, Seq<<CaptureRecord as View>::V>);

    open spec fn view(&self) -> Self::V {
        (self.from_ledger, self.to_ledger, self.checkpoint_count, views(self.records@))
    }
}

// ----- parse functions -----

/// The big-endian value of the four bytes at `p`.
pub open spec fn be32(b: Seq<u8>, p: int) -> u32 {
    (b[p] * 16777216 + b[p + 1] * 65536 + b[p + 2] * 256 + b[p + 3]) as u32
}

/// A `u32` read at `p`.
pub open spec fn parse_u32(b: Seq<u8>, p: int) -> Result<(u32, int), XdrError> {
    if 0 <= p && p + 4 <= b.len() {
        Ok((be32(b, p), p + 4))
    } else {
        Err(XdrError::Overrun)
    }
}

/// A `u64` read at `p`: the high word, then the low word.
pub open spec fn parse_u64(b: Seq<u8>, p: int) -> Result<(u64, int), XdrError> {
    match parse_u32(b, p) {
        Ok((hi, q)) => match parse_u32(b, q) {
            Ok((lo, r)) => Ok(((hi * 4294967296 + lo) as u64, r)),
            Err(e) => Err(e),
        },
        Err(e) => Err(e),
    }
}

/// A boolean read at `p`: 0 or 1.
pub open spec fn parse_bool(b: Seq<u8>, p: int) -> Result<(bool, int), XdrError> {
    match parse_u32(b, p) {
        Ok((v, q)) => if v == 0 {
            Ok((false, q))
        } else if v == 1 {
            Ok((true, q))
        } else {
            Err(XdrError::BadBool(v))
        },
        Err(e) => Err(e),
    }
}

/// The padding after `n` bytes up to a 4-byte boundary.
pub open spec fn pad_len(n: int) -> int {
    (4 - n % 4) % 4
}

/// `n` opaque bytes read at `p`, and the padding after them skipped. A
/// length beyond the remaining input is reported with the length and the
/// remaining count; input that ends inside the padding is an overrun.
pub open spec fn parse_opaque(b: Seq<u8>, p: int, n: int) -> Result<(Seq<u8>, int), XdrError> {
    if 0 <= p <= b.len() && 0 <= n {
        if n > b.len() - p {
            Err(XdrError::LengthExceedsInput(n as usize, (b.len() - p) as usize))
        } else if p + n + pad_len(n) > b.len() {
            Err(XdrError::Overrun)
        } else {
            Ok((b.subrange(p, p + n), p + n + pad_len(n)))
        }
    } else {
        Err(XdrError::Overrun)
    }
}

/// A length-prefixed byte field read at `p`.
pub open spec fn parse_bytes(b: Seq<u8>, p: int) -> Result<(Seq<u8>, int), XdrError> {
    match parse_u32(b, p) {
        Ok((n, q)) => parse_opaque(b, q, n as int),
        Err(e) => Err(e),
    }
}

/// A length-prefixed UTF-8 string read at `p`.
pub open spec fn parse_string(b: Seq<u8>, p: int) -> Result<(Seq<char>, int), XdrError> {
    match parse_bytes(b, p) {
        Ok((bs, q)) => if valid_utf8(bs) {
            Ok((decode_utf8(bs), q))
        } else {
            Err(XdrError::InvalidUtf8)
        },
        Err(e) => Err(e),
    }
}

// ----- where a failed read leaves the reader -----

/// Where the reader stands after reading a `u32` at `p` fails: unmoved.
/// After a success it stands past the word.
pub open spec fn stop_u32(b: Seq<u8>, p: int) -> int {
    match parse_u32(b, p) {
        Ok((_, q)) => q,
        Err(_) => p,
    }
}

/// Where reading a `u64` at `p` stops: unmoved when the high word fails,
/// past the high word when the low word fails.
pub open spec fn stop_u64(b: Seq<u8>, p: int) -> int {
    match parse_u32(b, p) {
        Ok((_, q)) => stop_u32(b, q),
        Err(_) => p,
    }
}

/// Where reading `n` opaque bytes at `p` stops: unmoved when the length
/// exceeds the input, past the bytes when the padding is cut short, past the
/// padding otherwise.
pub open spec fn stop_opaque(b: Seq<u8>, p: int, n: int) -> int {
    if 0 <= p <= b.len() && 0 <= n && n <= b.len() - p {
        if p + n + pad_len(n) <= b.len() {
            p + n + pad_len(n)
        } else {
            p + n
        }
    } else {
        p
    }
}

/// Where reading a length-prefixed byte field (or string) at `p` stops.
pub open spec fn stop_bytes(b: Seq<u8>, p: int) -> int {
    match parse_u32(b, p) {
        Ok((n, q)) => stop_opaque(b, q, n as int),
        Err(_) => p,
    }
}

/// A value that reads from and writes to the XDR wire form.
pub trait XdrCodec: Sized + View {
    /// The value read at `p`, and the position after it.
    spec fn parse(b: Seq<u8>, p: int) -> Result<(Self::V, int), XdrError>;

    /// The bytes that encode `m`.
    spec fn encoding(m: Self::V) -> Seq<u8>;

    /// Every length inside `m` fits its 32-bit prefix.
    spec fn encodable(m: Self::V) -> bool;

    /// Where the reader stands when reading a value at `p` fails.
    spec fn stop(b: Seq<u8>, p: int) -> int;

    /// Reads a value.
    fn read_from(rd: &mut XdrReader<'_>) -> (r: Result<Self, XdrError>)
        requires
            old(rd).wf(),
        ensures
            final(rd).wf(),
            final(rd)@.0 == old(rd)@.0,
            match Self::parse(old(rd)@.0, old(rd)@.1) {
                Ok((m, q)) => r matches Ok(v) && v@ == m && final(rd)@.1 == q,
                Err(e) => r matches Err(x) && x == e && final(rd)@.1 == Self::stop(old(rd)@.0, old(rd)@.1),
            },
    ;

    /// Appends the encoding of the value.
    fn write_to(&self, w: &mut XdrWriter)
        ensures
            final(w)@ == old(w)@ + Self::encoding(self@),
    ;

    /// Reading an encodable value's encoding gives the value back.
    proof fn lemma_round_trip(m: Self::V, b: Seq<u8>, p: int)
        requires
            Self::encodable(m),
            0 <= p,
            p + Self::encoding(m).len() <= b.len(),
            b.subrange(p, p + Self::encoding(m).len()) == Self::encoding(m),
        ensures
            Self::parse(b, p) == Ok::<(Self::V, int), XdrError>((m, p + Self::encoding(m).len())),
    ;
}

/// `n` values read one after another from `p`.
pub open spec fn parse_items<T: XdrCodec>(b: Seq<u8>, p: int, n: nat) -> Result<(Seq<T::V>, int), XdrError>
    decreases n,
{
    if n == 0 {
        Ok((Seq::empty(), p))
    } else {
        match parse_items::<T>(b, p, (n - 1) as nat) {
            Ok((ms, q)) => match T::parse(b, q) {
                Ok((m, r)) => Ok((ms.push(m), r)),
                Err(e) => Err(e),
            },
            Err(e) => Err(e),
        }
    }
}

/// Once reading some values fails, reading more fails the same way.
pub proof fn lemma_items_err<T: XdrCodec>(b: Seq<u8>, p: int, k: nat, n: nat)
    requires
        k <= n,
        parse_items::<T>(b, p, k) is Err,
    ensures
        parse_items::<T>(b, p, n) == parse_items::<T>(b, p, k),
    decreases n - k,
{
    if k < n {
        lemma_items_err::<T>(b, p, k, (n - 1) as nat);
    }
}

/// A length-prefixed array of values read at `p`.
pub open spec fn parse_vec<T: XdrCodec>(b: Seq<u8>, p: int) -> Result<(Seq<T::V>, int), XdrError> {
    match parse_u32(b, p) {
        Ok((n, q)) => parse_items::<T>(b, q, n as nat),
        Err(e) => Err(e),
    }
}

/// Where reading `n` values from `p` stops when one fails: where the first
/// failing value leaves the reader.
pub open spec fn stop_items<T: XdrCodec>(b: Seq<u8>, p: int, n: nat) -> int
    decreases n,
{
    if n == 0 {
        p
    } else {
        match parse_items::<T>(b, p, (n - 1) as nat) {
            Ok((_, q)) => T::stop(b, q),
            Err(_) => stop_items::<T>(b, p, (n - 1) as nat),
        }
    }
}

/// Where reading a length-prefixed array at `p` stops when it fails.
pub open spec fn stop_vec<T: XdrCodec>(b: Seq<u8>, p: int) -> int {
    match parse_u32(b, p) {
        Ok((n, q)) => stop_items::<T>(b, q, n as nat),
        Err(_) => p,
    }
}

/// Once reading some values fails, reading more stops at the same place.
pub proof fn lemma_items_stop<T: XdrCodec>(b: Seq<u8>, p: int, k: nat, n: nat)
    requires
        k <= n,
        parse_items::<T>(b, p, k) is Err,
    ensures
        stop_items::<T>(b, p, n) == stop_items::<T>(b, p, k),
    decreases n - k,
{
    if k < n {
        lemma_items_err::<T>(b, p, k, (n - 1) as nat);
        lemma_items_stop::<T>(b, p, k, (n - 1) as nat);
    }
}

// ----- encodings -----

/// The big-endian bytes of `v`.
pub open spec fn u32_bytes(v: u32) -> Seq<u8> {
    seq![(v / 16777216) as u8, ((v / 65536) % 256) as u8, ((v / 256) % 256) as u8, (v % 256) as u8]
}

/// The bytes of a `u64`: high word, then low word.
pub open spec fn u64_bytes(v: u64) -> Seq<u8> {
    u32_bytes((v / 4294967296) as u32) + u32_bytes((v % 4294967296) as u32)
}

/// Zero bytes.
pub open spec fn zeros(n: int) -> Seq<u8> {
    Seq::new(n as nat, |i: int| 0u8)
}

/// Opaque bytes followed by zero padding up to a 4-byte boundary.
pub open spec fn opaque_encoding(bs: Seq<u8>) -> Seq<u8> {
    bs + zeros(pad_len(bs.len() as int))
}

/// A byte field: its length (truncated to 32 bits), then the padded bytes.
pub open spec fn bytes_encoding(bs: Seq<u8>) -> Seq<u8> {
    u32_bytes(bs.len() as u32) + opaque_encoding(bs)
}

/// A string field: the byte field of its UTF-8 encoding.
pub open spec fn string_encoding(cs: Seq<char>) -> Seq<u8> {
    bytes_encoding(encode_utf8(cs))
}

/// Values encoded one after another.
pub open spec fn items_encoding<T: XdrCodec>(ms: Seq<T::V>) -> Seq<u8>
    decreases ms.len(),
{
    if ms.len() == 0 {
        Seq::empty()
    } else {
        items_encoding::<T>(ms.drop_last()) + T::encoding(ms.last())
    }
}

/// An array field: its length (truncated to 32 bits), then the values.
pub open spec fn vec_encoding<T: XdrCodec>(ms: Seq<T::V>) -> Seq<u8> {
    u32_bytes(ms.len() as u32) + items_encoding::<T>(ms)
}

/// Every value of `ms` is encodable and their number fits 32 bits.
pub open spec fn vec_encodable<T: XdrCodec>(ms: Seq<T::V>) -> bool {
    ms.len() <= u32::MAX && forall|i: int| 0 <= i < ms.len() ==> T::encodable(#[trigger] ms[i])
}

/// A string whose UTF-8 encoding fits a 32-bit length.
pub open spec fn string_encodable(cs: Seq<char>) -> bool {
    encode_utf8(cs).len() <= u32::MAX
}

// ----- reader -----

/// Reads big-endian, 4-byte-aligned XDR fields from a byte slice.
pub struct XdrReader<'a> {
    buf: &'a [u8],
    pos: usize,
}

impl<'a> View for XdrReader<'a> {
    type V = (Seq<u8>, int);

    closed spec fn view(&self) -> (Seq<u8>, int) {
        (self.buf@, self.pos as int)
    }
}

impl<'a> XdrReader<'a> {
    /// The read position lies within the input.
    pub open spec fn wf(&self) -> bool {
        0 <= self@.1 <= self@.0.len()
    }

    /// A reader at the start of `buf`.
    pub fn new(buf: &'a [u8]) -> (r: Self)
        ensures
            r.wf(),
            r@ == (buf@, 0int),
    {
        XdrReader { buf, pos: 0 }
    }

    /// The number of bytes left to read.
    pub fn remaining(&self) -> (r: usize)
        requires
            self.wf(),
        ensures
            r == self@.0.len() - self@.1,
    {
        self.buf.len() - self.pos
    }

    fn read_n(&mut self, n: usize) -> (r: Result<&'a [u8], XdrError>)
        requires
            old(self).wf(),
        ensures
            final(self).wf(),
            final(self)@.0 == old(self)@.0,
            match r {
                Ok(s) => old(self)@.1 + n <= old(self)@.0.len() && s@ == old(self)@.0.subrange(old(self)@.1, old(self)@.1 + n)
                    && final(self)@.1 == old(self)@.1 + n,
                Err(e) => old(self)@.1 + n > old(self)@.0.len() && e == XdrError::Overrun && final(self)@ == old(self)@,
            },
    {
        if n > self.buf.len() - self.pos {
            return Err(XdrError::Overrun);
        }
        let end = self.pos + n;
        let out = slice_range(self.buf, self.pos, end);
        self.pos = end;
        Ok(out)
    }

    /// Reads a big-endian `u32`.
    pub fn read_u32(&mut self) -> (r: Result<u32, XdrError>)
        requires
            old(self).wf(),
        ensures
            final(self).wf(),
            final(self)@.0 == old(self)@.0,
            match parse_u32(old(self)@.0, old(self)@.1) {
                Ok((v, q)) => r == Ok::<u32, XdrError>(v) && final(self)@.1 == q,
                Err(e) => r == Err::<u32, XdrError>(e) && final(self)@ == old(self)@,
            },
    {
        let b = self.read_n(4)?;
        let v = (b[0] as u32) * 16777216 + (b[1] as u32) * 65536 + (b[2] as u32) * 256 + (b[3] as u32);
        Ok(v)
    }

    /// Reads a big-endian `u64`: the high word, then the low word.
    pub fn read_u64(&mut self) -> (r: Result<u64, XdrError>)
        requires
            old(self).wf(),
        ensures
            final(self).wf(),
            final(self)@.0 == old(self)@.0,
            match parse_u64(old(self)@.0, old(self)@.1) {
                Ok((v, q)) => r == Ok::<u64, XdrError>(v) && final(self)@.1 == q,
                Err(e) => r == Err::<u64, XdrError>(e) && final(self)@.1 == stop_u64(old(self)@.0, old(self)@.1),
            },
    {
        let hi = self.read_u32()? as u64;
        let lo = self.read_u32()? as u64;
        Ok(hi * 4294967296 + lo)
    }

    /// Reads a `u64` reinterpreted as a two's-complement `i64`.
    pub fn read_i64(&mut self) -> (r: Result<i64, XdrError>)
        requires
            old(self).wf(),
        ensures
            final(self).wf(),
            final(self)@.0 == old(self)@.0,
            match parse_u64(old(self)@.0, old(self)@.1) {
                Ok((v, q)) => r == Ok::<i64, XdrError>(v as i64) && final(self)@.1 == q,
                Err(e) => r == Err::<i64, XdrError>(e) && final(self)@.1 == stop_u64(old(self)@.0, old(self)@.1),
            },
    {
        let v = self.read_u64()?;
        Ok(v as i64)
    }

    /// Reads a boolean: 0 is false, 1 is true, anything else an error.
    pub fn read_bool(&mut self) -> (r: Result<bool, XdrError>)
        requires
            old(self).wf(),
        ensures
            final(self).wf(),
            final(self)@.0 == old(self)@.0,
            match parse_bool(old(self)@.0, old(self)@.1) {
                Ok((v, q)) => r == Ok::<bool, XdrError>(v) && final(self)@.1 == q,
                Err(e) => r == Err::<bool, XdrError>(e) && final(self)@.1 == stop_u32(old(self)@.0, old(self)@.1),
            },
    {
        let v = self.read_u32()?;
        if v == 0 {
            Ok(false)
        } else if v == 1 {
            Ok(true)
        } else {
            Err(XdrError::BadBool(v))
        }
    }

    /// Reads `n` opaque bytes, consuming the padding to the 4-byte boundary.
    pub fn read_opaque(&mut self, n: usize) -> (r: Result<&'a [u8], XdrError>)
        requires
            old(self).wf(),
        ensures
            final(self).wf(),
            final(self)@.0 == old(self)@.0,
            match parse_opaque(old(self)@.0, old(self)@.1, n as int) {
                Ok((bs, q)) => r matches Ok(s) && s@ == bs && final(self)@.1 == q,
                Err(e) => r matches Err(x) && x == e && final(self)@.1 == stop_opaque(old(self)@.0, old(self)@.1, n as int),
            },
    {
        let remaining = self.buf.len() - self.pos;
        if n > remaining {
            return Err(XdrError::LengthExceedsInput(n, remaining));
        }
        let out = self.read_n(n)?;
        self.read_n(pad(n))?;
        Ok(out)
    }

    /// Reads a length-prefixed byte field, including padding.
    pub fn read_bytes(&mut self) -> (r: Result<&'a [u8], XdrError>)
        requires
            old(self).wf(),
        ensures
            final(self).wf(),
            final(self)@.0 == old(self)@.0,
            match parse_bytes(old(self)@.0, old(self)@.1) {
                Ok((bs, q)) => r matches Ok(s) && s@ == bs && final(self)@.1 == q,
                Err(e) => r matches Err(x) && x == e && final(self)@.1 == stop_bytes(old(self)@.0, old(self)@.1),
            },
    {
        let len = self.read_u32()? as usize;
        self.read_opaque(len)
    }

    /// Reads a length-prefixed UTF-8 string field.
    pub fn read_string(&mut self) -> (r: Result<&'a str, XdrError>)
        requires
            old(self).wf(),
        ensures
            final(self).wf(),
            final(self)@.0 == old(self)@.0,
            match parse_string(old(self)@.0, old(self)@.1) {
                Ok((cs, q)) => r matches Ok(s) && s@ == cs && final(self)@.1 == q,
                Err(e) => r matches Err(x) && x == e && final(self)@.1 == stop_bytes(old(self)@.0, old(self)@.1),
            },
    {
        let bytes = self.read_bytes()?;
        match utf8_text(bytes) {
            Some(s) => {
                proof {
                    vstd::utf8::encode_utf8_decode_utf8(s@);
                }
                Ok(s)
            },
            None => Err(XdrError::InvalidUtf8),
        }
    }

    /// Reads a length-prefixed array of values.
    pub fn read_vec<T: XdrCodec>(&mut self) -> (r: Result<Vec<T>, XdrError>)
        requires
            old(self).wf(),
        ensures
            final(self).wf(),
            final(self)@.0 == old(self)@.0,
            match parse_vec::<T>(old(self)@.0, old(self)@.1) {
                Ok((ms, q)) => r matches Ok(v) && views(v@) == ms && final(self)@.1 == q,
                Err(e) => r matches Err(x) && x == e && final(self)@.1 == stop_vec::<T>(old(self)@.0, old(self)@.1),
            },
    {
        let ghost b = self@.0;
        let ghost p0 = self@.1;
        let n = self.read_u32()?;
        let ghost start = self@.1;
        let mut out: Vec<T> = Vec::new();
        let mut i: u32 = 0;
        proof {
            assert(views(out@) =~= Seq::<T::V>::empty());
        }
        while i < n
            invariant
                i <= n,
                self.wf(),
                self@.0 == b,
                b == old(self)@.0,
                p0 == old(self)@.1,
                parse_vec::<T>(b, p0) == parse_items::<T>(b, start, n as nat),
                stop_vec::<T>(b, p0) == stop_items::<T>(b, start, n as nat),
                parse_items::<T>(b, start, i as nat) == Ok::<(Seq<T::V>, int), XdrError>((views(out@), self@.1)),
            decreases n - i,
        {
            let ghost before = out@;
            let ghost pos = self@.1;
            let item = match T::read_from(self) {
                Ok(v) => v,
                Err(e) => {
                    proof {
                        lemma_items_err::<T>(b, start, (i + 1) as nat, n as nat);
                        lemma_items_stop::<T>(b, start, (i + 1) as nat, n as nat);
                        assert(stop_items::<T>(b, start, (i + 1) as nat) == T::stop(b, pos));
                    }
                    return Err(e);
                },
            };
            out.push(item);
            proof {
                assert(views(out@) =~= views(before).push(item@));
            }
            i = i + 1;
        }
        Ok(out)
    }
}

/// The bytes between `start` and `end`.
fn slice_range<'b>(s: &'b [u8], start: usize, end: usize) -> (r: &'b [u8])
    requires
        start <= end <= s@.len(),
    ensures
        r@ == s@.subrange(start as int, end as int),
{
    &s[start..end]
}

/// Reads bytes as a string slice with `std::str::from_utf8` (std), which
/// succeeds exactly when the bytes are valid UTF-8 and then holds those same
/// bytes.
#[verifier::external_body]
fn utf8_text<'b>(bytes: &'b [u8]) -> (r: Option<&'b str>)
    ensures
        match r {
            Some(s) => valid_utf8(bytes@) && s.spec_bytes() == bytes@,
            None => !valid_utf8(bytes@),
        },
{
    std::str::from_utf8(bytes).ok()
}

/// Number of padding bytes needed to reach a 4-byte boundary after `n` bytes.
fn pad(n: usize) -> (r: usize)
    ensures
        r == pad_len(n as int),
        r < 4,
{
    (4 - (n % 4)) % 4
}

// ----- writer -----

/// Appends big-endian, 4-byte-aligned XDR fields to a byte buffer.
#[derive(Debug)]
pub struct XdrWriter {
    buf: Vec<u8>,
}

impl View for XdrWriter {
    type V = Seq<u8>;

    closed spec fn view(&self) -> Seq<u8> {
        self.buf@
    }
}

impl Default for XdrWriter {
    fn default() -> (r: Self)
        ensures
            r@ == Seq::<u8>::empty(),
    {
        XdrWriter { buf: Vec::new() }
    }
}

impl XdrWriter {
    /// An empty writer.
    pub fn new() -> (r: Self)
        ensures
            r@ == Seq::<u8>::empty(),
    {
        XdrWriter { buf: Vec::new() }
    }

    /// The bytes written.
    pub fn into_vec(self) -> (r: Vec<u8>)
        ensures
            r@ == self@,
    {
        self.buf
    }

    fn push_bytes(&mut self, bytes: &[u8])
        ensures
            final(self)@ == old(self)@ + bytes@,
    {
        let mut i: usize = 0;
        let ghost start = self@;
        while i < bytes.len()
            invariant
                i <= bytes.len(),
                self@ == start + bytes@.take(i as int),
            decreases bytes.len() - i,
        {
            self.buf.push(bytes[i]);
            proof {
                assert(start + bytes@.take(i + 1) =~= (start + bytes@.take(i as int)).push(bytes@[i as int]));
            }
            i = i + 1;
        }
        proof {
            assert(bytes@.take(bytes@.len() as int) =~= bytes@);
        }
    }

    fn write_n(&mut self, bytes: &[u8])
        ensures
            final(self)@ == old(self)@ + opaque_encoding(bytes@),
    {
        self.push_bytes(bytes);
        let p = pad(bytes.len());
        let ghost mid = self@;
        let mut i: usize = 0;
        while i < p
            invariant
                i <= p,
                self@ == mid + zeros(i as int),
            decreases p - i,
        {
            self.buf.push(0u8);
            proof {
                assert(mid + zeros(i + 1) =~= (mid + zeros(i as int)).push(0u8));
            }
            i = i + 1;
        }
    }

    /// Writes a big-endian `u32`.
    pub fn write_u32(&mut self, v: u32)
        ensures
            final(self)@ == old(self)@ + u32_bytes(v),
    {
        let ghost start = self@;
        self.buf.push((v / 16777216) as u8);
        self.buf.push(((v / 65536) % 256) as u8);
        self.buf.push(((v / 256) % 256) as u8);
        self.buf.push((v % 256) as u8);
        proof {
            assert(self@ =~= start + u32_bytes(v));
        }
    }

    /// Writes a big-endian `u64`: high word, then low word.
    pub fn write_u64(&mut self, v: u64)
        ensures
            final(self)@ == old(self)@ + u64_bytes(v),
    {
        let ghost start = self@;
        self.write_u32((v / 4294967296) as u32);
        self.write_u32((v % 4294967296) as u32);
        proof {
            assert(self@ =~= start + u64_bytes(v));
        }
    }

    /// Writes a boolean as 0 or 1.
    pub fn write_bool(&mut self, v: bool)
        ensures
            final(self)@ == old(self)@ + u32_bytes(if v { 1u32 } else { 0u32 }),
    {
        self.write_u32(if v { 1 } else { 0 });
    }

    /// Writes opaque bytes with padding to a 4-byte boundary.
    pub fn write_opaque(&mut self, bytes: &[u8])
        ensures
            final(self)@ == old(self)@ + opaque_encoding(bytes@),
    {
        self.write_n(bytes);
    }

    /// Writes a length-prefixed byte field (the length truncated to 32 bits).
    pub fn write_bytes(&mut self, bytes: &[u8])
        ensures
            final(self)@ == old(self)@ + bytes_encoding(bytes@),
    {
        let ghost start = self@;
        self.write_u32(bytes.len() as u32);
        self.write_n(bytes);
        proof {
            assert(self@ =~= start + bytes_encoding(bytes@));
        }
    }

    /// Writes a length-prefixed UTF-8 string field.
    pub fn write_string(&mut self, s: &str)
        ensures
            final(self)@ == old(self)@ + string_encoding(s@),
    {
        self.write_bytes(s.as_bytes());
    }

    /// Writes a length-prefixed array of values (the length truncated to 32
    /// bits).
    pub fn write_vec<T: XdrCodec>(&mut self, items: &[T])
        ensures
            final(self)@ == old(self)@ + vec_encoding::<T>(views(items@)),
    {
        let ghost start = self@;
        self.write_u32(items.len() as u32);
        let mut i: usize = 0;
        proof {
            assert(views(items@.take(0)) =~= Seq::<T::V>::empty());
            assert(self@ =~= start + u32_bytes(items@.len() as u32) + items_encoding::<T>(views(items@.take(0))));
        }
        while i < items.len()
            invariant
                i <= items.len(),
                self@ == start + u32_bytes(items@.len() as u32) + items_encoding::<T>(views(items@.take(i as int))),
            decreases items.len() - i,
        {
            items[i].write_to(self);
            proof {
                assert(views(items@.take(i + 1)) =~= views(items@.take(i as int)).push(items@[i as int]@));
                assert(views(items@.take(i + 1)).drop_last() =~= views(items@.take(i as int)));
                assert(self@ =~= start + u32_bytes(items@.len() as u32) + items_encoding::<T>(views(items@.take(i + 1))));
            }
            i = i + 1;
        }
        proof {
            assert(items@.take(items@.len() as int) =~= items@);
        }
    }
}

// ----- round trip -----

/// Equal byte ranges split at the boundary between two parts.
proof fn lemma_split(b: Seq<u8>, p: int, x: Seq<u8>, y: Seq<u8>)
    requires
        0 <= p,
        p + x.len() + y.len() <= b.len(),
        b.subrange(p, p + x.len() + y.len()) == x + y,
    ensures
        b.subrange(p, p + x.len()) == x,
        b.subrange(p + x.len(), p + x.len() + y.len()) == y,
{
    assert(b.subrange(p, p + x.len()) =~= (x + y).subrange(0, x.len() as int));
    assert(b.subrange(p + x.len(), p + x.len() + y.len()) =~= (x + y).subrange(x.len() as int, (x.len() + y.len()) as int));
    assert((x + y).subrange(0, x.len() as int) =~= x);
    assert((x + y).subrange(x.len() as int, (x.len() + y.len()) as int) =~= y);
}

/// The big-endian bytes of a `u32` read back as the same `u32`.
pub proof fn lemma_u32_round_trip(v: u32, b: Seq<u8>, p: int)
    requires
        0 <= p,
        p + 4 <= b.len(),
        b.subrange(p, p + 4) == u32_bytes(v),
    ensures
        parse_u32(b, p) == Ok::<(u32, int), XdrError>((v, p + 4)),
{
    assert(b[p] == b.subrange(p, p + 4)[0]);
    assert(b[p + 1] == b.subrange(p, p + 4)[1]);
    assert(b[p + 2] == b.subrange(p, p + 4)[2]);
    assert(b[p + 3] == b.subrange(p, p + 4)[3]);
    let x0: u32 = v / 16777216;
    let x1: u32 = (v / 65536) % 256;
    let x2: u32 = (v / 256) % 256;
    let x3: u32 = v % 256;
    assert(x0 * 16777216 + x1 * 65536 + x2 * 256 + x3 == v) by (bit_vector)
        requires
            x0 == v / 16777216,
            x1 == (v / 65536) % 256,
            x2 == (v / 256) % 256,
            x3 == v % 256,
    ;
    assert(x0 < 256);
    assert(b[p] == x0 && b[p + 1] == x1 && b[p + 2] == x2 && b[p + 3] == x3);
}

/// Padded opaque bytes read back as the same bytes.
pub proof fn lemma_opaque_round_trip(bs: Seq<u8>, b: Seq<u8>, p: int)
    requires
        0 <= p,
        p + opaque_encoding(bs).len() <= b.len(),
        b.subrange(p, p + opaque_encoding(bs).len()) == opaque_encoding(bs),
    ensures
        parse_opaque(b, p, bs.len() as int) == Ok::<(Seq<u8>, int), XdrError>((bs, p + opaque_encoding(bs).len())),
{
    lemma_split(b, p, bs, zeros(pad_len(bs.len() as int)));
}

/// A byte field whose length fits 32 bits reads back as the same bytes.
pub proof fn lemma_bytes_round_trip(bs: Seq<u8>, b: Seq<u8>, p: int)
    requires
        bs.len() <= u32::MAX,
        0 <= p,
        p + bytes_encoding(bs).len() <= b.len(),
        b.subrange(p, p + bytes_encoding(bs).len()) == bytes_encoding(bs),
    ensures
        parse_bytes(b, p) == Ok::<(Seq<u8>, int), XdrError>((bs, p + bytes_encoding(bs).len())),
{
    lemma_split(b, p, u32_bytes(bs.len() as u32), opaque_encoding(bs));
    lemma_u32_round_trip(bs.len() as u32, b, p);
    lemma_opaque_round_trip(bs, b, p + 4);
}

/// An encodable string field reads back as the same string.
pub proof fn lemma_string_round_trip(cs: Seq<char>, b: Seq<u8>, p: int)
    requires
        string_encodable(cs),
        0 <= p,
        p + string_encoding(cs).len() <= b.len(),
        b.subrange(p, p + string_encoding(cs).len()) == string_encoding(cs),
    ensures
        parse_string(b, p) == Ok::<(Seq<char>, int), XdrError>((cs, p + string_encoding(cs).len())),
{
    lemma_bytes_round_trip(encode_utf8(cs), b, p);
    vstd::utf8::encode_utf8_valid_utf8(cs);
    vstd::utf8::encode_utf8_decode_utf8(cs);
}

/// Encodable values encoded one after another read back as the same values.
pub proof fn lemma_items_round_trip<T: XdrCodec>(ms: Seq<T::V>, b: Seq<u8>, p: int)
    requires
        forall|i: int| 0 <= i < ms.len() ==> T::encodable(#[trigger] ms[i]),
        0 <= p,
        p + items_encoding::<T>(ms).len() <= b.len(),
        b.subrange(p, p + items_encoding::<T>(ms).len()) == items_encoding::<T>(ms),
    ensures
        parse_items::<T>(b, p, ms.len()) == Ok::<(Seq<T::V>, int), XdrError>((ms, p + items_encoding::<T>(ms).len())),
    decreases ms.len(),
{
    if ms.len() == 0 {
        assert(ms =~= Seq::<T::V>::empty());
    } else {
        let init = ms.drop_last();
        let head = items_encoding::<T>(init);
        let tail = T::encoding(ms.last());
        lemma_split(b, p, head, tail);
        assert forall|i: int| 0 <= i < init.len() implies T::encodable(#[trigger] init[i]) by {
            assert(init[i] == ms[i]);
        }
        lemma_items_round_trip::<T>(init, b, p);
        assert(T::encodable(ms[ms.len() - 1]));
        T::lemma_round_trip(ms.last(), b, p + head.len());
        assert(init.push(ms.last()) =~= ms);
    }
}

/// An encodable array field reads back as the same values.
pub proof fn lemma_vec_round_trip<T: XdrCodec>(ms: Seq<T::V>, b: Seq<u8>, p: int)
    requires
        vec_encodable::<T>(ms),
        0 <= p,
        p + vec_encoding::<T>(ms).len() <= b.len(),
        b.subrange(p, p + vec_encoding::<T>(ms).len()) == vec_encoding::<T>(ms),
    ensures
        parse_vec::<T>(b, p) == Ok::<(Seq<T::V>, int), XdrError>((ms, p + vec_encoding::<T>(ms).len())),
{
    lemma_split(b, p, u32_bytes(ms.len() as u32), items_encoding::<T>(ms));
    lemma_u32_round_trip(ms.len() as u32, b, p);
    lemma_items_round_trip::<T>(ms, b, p + 4);
}

// ----- keys and records -----

impl XdrCodec for CaptureKey {
    open spec fn parse(b: Seq<u8>, p: int) -> Result<(Self::V, int), XdrError> {
        match parse_u32(b, p) {
            Ok((t, q)) => match type_of_code(t) {
                Some(kt) => match parse_string(b, q) {
                    Ok((f1, r)) => match parse_string(b, r) {
                        Ok((f2, s)) => Ok(((kt, f1, f2), s)),
                        Err(e) => Err(e),
                    },
                    Err(e) => Err(e),
                },
                None => Err(XdrError::UnknownKeyType(t)),
            },
            Err(e) => Err(e),
        }
    }

    open spec fn encoding(m: Self::V) -> Seq<u8> {
        u32_bytes(type_code(m.0)) + string_encoding(m.1) + string_encoding(m.2)
    }

    open spec fn encodable(m: Self::V) -> bool {
        string_encodable(m.1) && string_encodable(m.2)
    }

    open spec fn stop(b: Seq<u8>, p: int) -> int {
        match parse_u32(b, p) {
            Ok((t, q)) => match type_of_code(t) {
                Some(_) => match parse_string(b, q) {
                    Ok((_, r)) => stop_bytes(b, r),
                    Err(_) => stop_bytes(b, q),
                },
                None => q,
            },
            Err(_) => p,
        }
    }

    fn read_from(rd: &mut XdrReader<'_>) -> (r: Result<Self, XdrError>) {
        let t = rd.read_u32()?;
        let key_type = LedgerKeyType::from_discriminant(t)?;
        let field_1 = String::from_str(rd.read_string()?);
        let field_2 = String::from_str(rd.read_string()?);
        Ok(CaptureKey { key_type, field_1, field_2 })
    }

    fn write_to(&self, w: &mut XdrWriter) {
        let ghost start = w@;
        w.write_u32(self.key_type.discriminant());
        w.write_string(self.field_1.as_str());
        w.write_string(self.field_2.as_str());
        proof {
            assert(w@ =~= start + Self::encoding(self@));
        }
    }

    proof fn lemma_round_trip(m: Self::V, b: Seq<u8>, p: int) {
        let a = u32_bytes(type_code(m.0));
        let s1 = string_encoding(m.1);
        let s2 = string_encoding(m.2);
        lemma_split(b, p, a + s1, s2);
        lemma_split(b, p, a, s1);
        lemma_u32_round_trip(type_code(m.0), b, p);
        lemma_string_round_trip(m.1, b, p + 4);
        lemma_string_round_trip(m.2, b, p + 4 + s1.len());
    }
}

impl XdrCodec for CaptureRecord {
    open spec fn parse(b: Seq<u8>, p: int) -> Result<(Self::V, int), XdrError> {
        match parse_opaque(b, p, 32) {
            Ok((h, q)) => match parse_string(b, q) {
                Ok((src, r)) => match parse_vec::<CaptureKey>(b, r) {
                    Ok((ro, s)) => match parse_vec::<CaptureKey>(b, s) {
                        Ok((rw, t)) => Ok(((h, src, ro, rw), t)),
                        Err(e) => Err(e),
                    },
                    Err(e) => Err(e),
                },
                Err(e) => Err(e),
            },
            Err(e) => Err(e),
        }
    }

    open spec fn encoding(m: Self::V) -> Seq<u8> {
        opaque_encoding(m.0) + string_encoding(m.1) + vec_encoding::<CaptureKey>(m.2) + vec_encoding::<CaptureKey>(m.3)
    }

    open spec fn encodable(m: Self::V) -> bool {
        m.0.len() == 32 && string_encodable(m.1) && vec_encodable::<CaptureKey>(m.2) && vec_encodable::<CaptureKey>(m.3)
    }

    open spec fn stop(b: Seq<u8>, p: int) -> int {
        match parse_opaque(b, p, 32) {
            Ok((_, q)) => match parse_string(b, q) {
                Ok((_, r)) => match parse_vec::<CaptureKey>(b, r) {
                    Ok((_, s)) => stop_vec::<CaptureKey>(b, s),
                    Err(_) => stop_vec::<CaptureKey>(b, r),
                },
                Err(_) => stop_bytes(b, q),
            },
            Err(_) => stop_opaque(b, p, 32),
        }
    }

    fn read_from(rd: &mut XdrReader<'_>) -> (r: Result<Self, XdrError>) {
        let bytes = rd.read_opaque(32)?;
        let tx_hash = hash_array(bytes);
        let source_account = String::from_str(rd.read_string()?);
        let read_only = rd.read_vec::<CaptureKey>()?;
        let read_write = rd.read_vec::<CaptureKey>()?;
        Ok(CaptureRecord { tx_hash, source_account, read_only, read_write })
    }

    fn write_to(&self, w: &mut XdrWriter) {
        let ghost start = w@;
        w.write_opaque(self.tx_hash.as_slice());
        w.write_string(self.source_account.as_str());
        w.write_vec(self.read_only.as_slice());
        w.write_vec(self.read_write.as_slice());
        proof {
            assert(w@ =~= start + Self::encoding(self@));
        }
    }

    proof fn lemma_round_trip(m: Self::V, b: Seq<u8>, p: int) {
        let h = opaque_encoding(m.0);
        let s = string_encoding(m.1);
        let ro = vec_encoding::<CaptureKey>(m.2);
        let rw = vec_encoding::<CaptureKey>(m.3);
        lemma_split(b, p, h + s + ro, rw);
        lemma_split(b, p, h + s, ro);
        lemma_split(b, p, h, s);
        lemma_opaque_round_trip(m.0, b, p);
        lemma_string_round_trip(m.1, b, p + h.len());
        lemma_vec_round_trip::<CaptureKey>(m.2, b, p + h.len() + s.len());
        lemma_vec_round_trip::<CaptureKey>(m.3, b, p + h.len() + s.len() + ro.len());
    }
}

/// The 32 bytes of a transaction hash as an array.
fn hash_array(bytes: &[u8]) -> (r: [u8; 32])
    requires
        bytes@.len() == 32,
    ensures
        r@ == bytes@,
{
    let mut h: [u8; 32] = [0u8; 32];
    let mut i: usize = 0;
    while i < 32
        invariant
            i <= 32,
            bytes@.len() == 32,
            h@.len() == 32,
            forall|j: int| 0 <= j < i ==> h@[j] == bytes@[j],
        decreases 32 - i,
    {
        h[i] = bytes[i];
        i = i + 1;
    }
    assert(h@ =~= bytes@);
    h
}

// ----- captures -----

/// A capture document read from `b`: the magic and version checked, then the
/// ledger range, the checkpoint count and the records.
pub open spec fn parse_capture(b: Seq<u8>) -> Result<<ArchiveCapture as View>::V, XdrError> {
    match parse_u32(b, 0) {
        Err(e) => Err(e),
        Ok((magic, p1)) => if magic != MAGIC {
            Err(XdrError::BadMagic(magic))
        } else {
            match parse_u32(b, p1) {
                Err(e) => Err(e),
                Ok((version, p2)) => if version != VERSION {
                    Err(XdrError::UnsupportedVersion(version))
                } else {
                    match parse_u32(b, p2) {
                        Err(e) => Err(e),
                        Ok((from, p3)) => match parse_u32(b, p3) {
                            Err(e) => Err(e),
                            Ok((to, p4)) => match parse_u32(b, p4) {
                                Err(e) => Err(e),
                                Ok((checkpoints, p5)) => match parse_vec::<CaptureRecord>(b, p5) {
                                    Err(e) => Err(e),
                                    Ok((records, _)) => Ok((from, to, checkpoints, records)),
                                },
                            },
                        },
                    }
                },
            }
        },
    }
}

/// The bytes of a capture document.
pub open spec fn capture_encoding(m: <ArchiveCapture as View>::V) -> Seq<u8> {
    u32_bytes(MAGIC) + u32_bytes(VERSION) + u32_bytes(m.0) + u32_bytes(m.1) + u32_bytes(m.2) + vec_encoding::<CaptureRecord>(m.3)
}

/// Every length in the capture fits its 32-bit prefix.
pub open spec fn capture_encodable(m: <ArchiveCapture as View>::V) -> bool {
    vec_encodable::<CaptureRecord>(m.3)
}

/// Decodes a version-1 capture document from XDR bytes.
pub fn decode_capture(bytes: &[u8]) -> (r: Result<ArchiveCapture, XdrError>)
    ensures
        match parse_capture(bytes@) {
            Ok(m) => r matches Ok(c) && c@ == m,
            Err(e) => r matches Err(x) && x == e,
        },
{
    let mut rd = XdrReader::new(bytes);
    let magic = rd.read_u32()?;
    if magic != MAGIC {
        return Err(XdrError::BadMagic(magic));
    }
    let version = rd.read_u32()?;
    if version != VERSION {
        return Err(XdrError::UnsupportedVersion(version));
    }
    let from_ledger = rd.read_u32()?;
    let to_ledger = rd.read_u32()?;
    let checkpoint_count = rd.read_u32()?;
    let records = rd.read_vec::<CaptureRecord>()?;
    Ok(ArchiveCapture { from_ledger, to_ledger, checkpoint_count, records })
}

/// Encodes a capture document to XDR bytes.
pub fn encode_capture(cap: &ArchiveCapture) -> (r: Vec<u8>)
    ensures
        r@ == capture_encoding(cap@),
{
    let mut w = XdrWriter::new();
    w.write_u32(MAGIC);
    w.write_u32(VERSION);
    w.write_u32(cap.from_ledger);
    w.write_u32(cap.to_ledger);
    w.write_u32(cap.checkpoint_count);
    w.write_vec(cap.records.as_slice());
    let r = w.into_vec();
    proof {
        assert(r@ =~= capture_encoding(cap@));
    }
    r
}

/// Decoding an encoded capture gives the capture back, when every length in
/// it fits its 32-bit prefix.
#[verifier::rlimit(40)]
pub proof fn lemma_capture_round_trip(m: <ArchiveCapture as View>::V)
    requires
        capture_encodable(m),
    ensures
        parse_capture(capture_encoding(m)) == Ok::<<ArchiveCapture as View>::V, XdrError>(m),
{
    let b = capture_encoding(m);
    let rs = vec_encoding::<CaptureRecord>(m.3);
    lemma_header_bytes(b, u32_bytes(m.0), u32_bytes(m.1), u32_bytes(m.2), rs);
    lemma_header_round_trip(b, m.0, m.1, m.2);
    lemma_vec_round_trip::<CaptureRecord>(m.3, b, 20);
    lemma_parse_capture_of(b, m.0, m.1, m.2, m.3, (20 + rs.len()) as int);
}

/// The parts of a capture's bytes: five header words, then the records.
proof fn lemma_header_bytes(b: Seq<u8>, w2: Seq<u8>, w3: Seq<u8>, w4: Seq<u8>, rs: Seq<u8>)
    requires
        w2.len() == 4 && w3.len() == 4 && w4.len() == 4,
        b == u32_bytes(MAGIC) + u32_bytes(VERSION) + w2 + w3 + w4 + rs,
    ensures
        b.len() == 20 + rs.len(),
        b.subrange(0, 4) == u32_bytes(MAGIC),
        b.subrange(4, 8) == u32_bytes(VERSION),
        b.subrange(8, 12) == w2,
        b.subrange(12, 16) == w3,
        b.subrange(16, 20) == w4,
        b.subrange(20, (20 + rs.len()) as int) == rs,
{
    assert(b.subrange(0, 4) =~= u32_bytes(MAGIC));
    assert(b.subrange(4, 8) =~= u32_bytes(VERSION));
    assert(b.subrange(8, 12) =~= w2);
    assert(b.subrange(12, 16) =~= w3);
    assert(b.subrange(16, 20) =~= w4);
    assert(b.subrange(20, (20 + rs.len()) as int) =~= rs);
}

/// The five header words of a capture read back.
proof fn lemma_header_round_trip(b: Seq<u8>, from: u32, to: u32, checkpoints: u32)
    requires
        b.len() >= 20,
        b.subrange(0, 4) == u32_bytes(MAGIC),
        b.subrange(4, 8) == u32_bytes(VERSION),
        b.subrange(8, 12) == u32_bytes(from),
        b.subrange(12, 16) == u32_bytes(to),
        b.subrange(16, 20) == u32_bytes(checkpoints),
    ensures
        parse_u32(b, 0) == Ok::<(u32, int), XdrError>((MAGIC, 4)),
        parse_u32(b, 4) == Ok::<(u32, int), XdrError>((VERSION, 8)),
        parse_u32(b, 8) == Ok::<(u32, int), XdrError>((from, 12)),
        parse_u32(b, 12) == Ok::<(u32, int), XdrError>((to, 16)),
        parse_u32(b, 16) == Ok::<(u32, int), XdrError>((checkpoints, 20)),
{
    lemma_u32_round_trip(MAGIC, b, 0);
    lemma_u32_round_trip(VERSION, b, 4);
    lemma_u32_round_trip(from, b, 8);
    lemma_u32_round_trip(to, b, 12);
    lemma_u32_round_trip(checkpoints, b, 16);
}

/// A capture whose header and records read as given parses to them.
proof fn lemma_parse_capture_of(
    b: Seq<u8>,
    from: u32,
    to: u32,
    checkpoints: u32,
    records: Seq<<CaptureRecord as View>::V>,
    end: int,
)
    requires
        parse_u32(b, 0) == Ok::<(u32, int), XdrError>((MAGIC, 4)),
        parse_u32(b, 4) == Ok::<(u32, int), XdrError>((VERSION, 8)),
        parse_u32(b, 8) == Ok::<(u32, int), XdrError>((from, 12)),
        parse_u32(b, 12) == Ok::<(u32, int), XdrError>((to, 16)),
        parse_u32(b, 16) == Ok::<(u32, int), XdrError>((checkpoints, 20)),
        parse_vec::<CaptureRecord>(b, 20) == Ok::<(Seq<<CaptureRecord as View>::V>, int), XdrError>((records, end)),
    ensures
        parse_capture(b) == Ok::<<ArchiveCapture as View>::V, XdrError>((from, to, checkpoints, records)),
{
}

} // verus!
