//! Ledger key model: the ledger entry types a Soroban transaction can touch,
//! with a total order that matches the ordering of the key's variant and
//! its identifier strings.

use vstd::prelude::*;

verus! {

/// An address-like identifier (account or contract) used in ledger keys.
pub type Address = String;

/// A Stellar asset identifier, encoded as `code:issuer`.
pub type AssetId = String;

/// A Soroban contract storage key, encoded as a string.
pub type ScKey = String;

/// The ledger entry types a transaction may touch.
#[derive(Debug, Clone, PartialEq, Eq, PartialOrd, Ord, Hash)]
pub enum LedgerKey {
    /// An account balance / sequence-number entry.
    Account { account_id: Address },
    /// A trustline between an account and an asset.
    TrustLine { account_id: Address, asset: AssetId },
    /// A Soroban contract data entry (a contract storage key).
    ContractData { contract_id: Address, key: ScKey },
    /// A Soroban contract's code (Wasm) blob.
    ContractCode { contract_id: Address },
    /// A Soroban contract's TTL entry.
    ContractTtl { contract_id: Address },
    /// Any entry type we do not model explicitly.
    Other(String),
}

/// The mathematical model of a key: the variant's position, the first
/// identifier and the second identifier (empty for single-field variants).
pub type KeyModel = (int, Seq<char>, Seq<char>);

impl View for LedgerKey {
    type V = (int, Seq<char>, Seq<char>);

    open spec fn view(&self) -> (int, Seq<char>, Seq<char>) {
        match self {
            LedgerKey::Account { account_id } => (0, account_id@, Seq::empty()),
            LedgerKey::TrustLine { account_id, asset } => (1, account_id@, asset@),
            LedgerKey::ContractData { contract_id, key } => (2, contract_id@, key@),
            LedgerKey::ContractCode { contract_id } => (3, contract_id@, Seq::empty()),
            LedgerKey::ContractTtl { contract_id } => (4, contract_id@, Seq::empty()),
            LedgerKey::Other(raw) => (5, raw@, Seq::empty()),
        }
    }
}

/// Lexicographic order on character sequences (by code point), the order of
/// `String` comparison.
pub open spec fn chars_lt(a: Seq<char>, b: Seq<char>) -> bool
    decreases a.len(),
{
    if a.len() == 0 {
        b.len() > 0
    } else if b.len() == 0 {
        false
    } else if a[0] != b[0] {
        (a[0] as u32) < (b[0] as u32)
    } else {
        chars_lt(a.drop_first(), b.drop_first())
    }
}

/// The strict total order on key models: variant first, then identifiers.
pub open spec fn key_lt(a: KeyModel, b: KeyModel) -> bool {
    a.0 < b.0 || (a.0 == b.0 && (chars_lt(a.1, b.1) || (a.1 == b.1 && chars_lt(a.2, b.2))))
}

pub proof fn lemma_chars_lt_irreflexive(a: Seq<char>)
    ensures
        !chars_lt(a, a),
    decreases a.len(),
{
    if a.len() > 0 {
        lemma_chars_lt_irreflexive(a.drop_first());
    }
}

pub proof fn lemma_chars_lt_transitive(a: Seq<char>, b: Seq<char>, c: Seq<char>)
    requires
        chars_lt(a, b),
        chars_lt(b, c),
    ensures
        chars_lt(a, c),
    decreases a.len(),
{
    if a.len() > 0 && b.len() > 0 && c.len() > 0 {
        if a[0] == b[0] && b[0] == c[0] {
            lemma_chars_lt_transitive(a.drop_first(), b.drop_first(), c.drop_first());
        }
    }
}

pub proof fn lemma_chars_lt_total(a: Seq<char>, b: Seq<char>)
    ensures
        a == b || chars_lt(a, b) || chars_lt(b, a),
    decreases a.len(),
{
    if a.len() > 0 && b.len() > 0 {
        if a[0] == b[0] {
            lemma_chars_lt_total(a.drop_first(), b.drop_first());
            if a.drop_first() == b.drop_first() {
                assert(a =~= seq![a[0]] + a.drop_first());
                assert(b =~= seq![b[0]] + b.drop_first());
            }
        } else {
            vstd::utf8::char_u32_cast(a[0], a[0] as u32);
            vstd::utf8::char_u32_cast(b[0], b[0] as u32);
        }
    } else if a.len() == 0 && b.len() == 0 {
        assert(a =~= b);
    }
}

/// Key order is irreflexive.
pub proof fn lemma_key_lt_irreflexive(a: KeyModel)
    ensures
        !key_lt(a, a),
{
    lemma_chars_lt_irreflexive(a.1);
    lemma_chars_lt_irreflexive(a.2);
}

/// Key order is transitive.
pub proof fn lemma_key_lt_transitive(a: KeyModel, b: KeyModel, c: KeyModel)
    requires
        key_lt(a, b),
        key_lt(b, c),
    ensures
        key_lt(a, c),
{
    if a.0 == b.0 && b.0 == c.0 {
        if chars_lt(a.1, b.1) && chars_lt(b.1, c.1) {
            lemma_chars_lt_transitive(a.1, b.1, c.1);
        } else if a.1 == b.1 && b.1 == c.1 {
            lemma_chars_lt_transitive(a.2, b.2, c.2);
        }
    }
}

/// Key order is total: two distinct keys are ordered one way or the other.
pub proof fn lemma_key_lt_total(a: KeyModel, b: KeyModel)
    ensures
        a == b || key_lt(a, b) || key_lt(b, a),
{
    lemma_chars_lt_total(a.1, b.1);
    lemma_chars_lt_total(a.2, b.2);
}

/// The outcome of comparing two keys.
#[derive(Debug, Clone, Copy, PartialEq, Eq)]
pub enum KeyOrder {
    Less,
    Equal,
    Greater,
}

/// Copies the characters of a string into a vector.
fn chars_of(s: &str) -> (out: Vec<char>)
    ensures
        out@ == s@,
{
    let mut out: Vec<char> = Vec::new();
    for c in it: s.chars()
        invariant
            out@ == it.seq().take(it.index() as int),
    {
        out.push(c);
        assert(out@ =~= it.seq().take(it.index() as int + 1));
    }
    out
}


/// Compares two character sequences lexicographically.
fn compare_chars(a: &Vec<char>, b: &Vec<char>) -> (r: KeyOrder)
    ensures
        (r == KeyOrder::Less) == chars_lt(a@, b@),
        (r == KeyOrder::Equal) == (a@ == b@),
        (r == KeyOrder::Greater) == chars_lt(b@, a@),
{
    proof {
        lemma_chars_lt_irreflexive(a@);
        lemma_chars_lt_total(a@, b@);
        if chars_lt(a@, b@) && chars_lt(b@, a@) {
            lemma_chars_lt_transitive(a@, b@, a@);
        }
        assert(a@.skip(0) =~= a@);
        assert(b@.skip(0) =~= b@);
    }
    let mut i: usize = 0;
    while i < a.len() && i < b.len()
        invariant
            i <= a.len(),
            i <= b.len(),
            chars_lt(a@, b@) == chars_lt(a@.skip(i as int), b@.skip(i as int)),
            chars_lt(b@, a@) == chars_lt(b@.skip(i as int), a@.skip(i as int)),
            (a@ == b@) == (a@.skip(i as int) == b@.skip(i as int)),
        decreases a.len() - i,
    {
        let x = a[i];
        let y = b[i];
        if x != y {
            proof {
                assert(a@.skip(i as int)[0] == x);
                assert(b@.skip(i as int)[0] == y);
                vstd::utf8::char_u32_cast(x, x as u32);
                vstd::utf8::char_u32_cast(y, y as u32);
            }
            if (x as u32) < (y as u32) {
                return KeyOrder::Less;
            } else {
                return KeyOrder::Greater;
            }
        }
        proof {
            let sa = a@.skip(i as int);
            let sb = b@.skip(i as int);
            assert(sa.drop_first() =~= a@.skip(i + 1));
            assert(sb.drop_first() =~= b@.skip(i + 1));
            assert(sa =~= seq![x] + sa.drop_first());
            assert(sb =~= seq![y] + sb.drop_first());
        }
        i = i + 1;
    }
    proof {
        if i == a.len() {
            assert(a@.skip(i as int).len() == 0);
        }
        if i == b.len() {
            assert(b@.skip(i as int).len() == 0);
        }
        if i == a.len() && i == b.len() {
            assert(a@.skip(i as int) =~= b@.skip(i as int));
        }
    }
    if a.len() < b.len() {
        KeyOrder::Less
    } else if a.len() == b.len() {
        KeyOrder::Equal
    } else {
        KeyOrder::Greater
    }
}

/// Compares two strings by code point, the order `String` uses.
pub fn compare_strings(a: &str, b: &str) -> (r: KeyOrder)
    ensures
        (r == KeyOrder::Less) == chars_lt(a@, b@),
        (r == KeyOrder::Equal) == (a@ == b@),
        (r == KeyOrder::Greater) == chars_lt(b@, a@),
{
    let x = chars_of(a);
    let y = chars_of(b);
    compare_chars(&x, &y)
}


impl LedgerKey {
    /// The variant's position in declaration order.
    fn variant_index(&self) -> (r: u8)
        ensures
            r as int == self@.0,
    {
        match self {
            LedgerKey::Account { .. } => 0,
            LedgerKey::TrustLine { .. } => 1,
            LedgerKey::ContractData { .. } => 2,
            LedgerKey::ContractCode { .. } => 3,
            LedgerKey::ContractTtl { .. } => 4,
            LedgerKey::Other(_) => 5,
        }
    }

    /// The first identifier of the key.
    fn first_field(&self) -> (r: &str)
        ensures
            r@ == self@.1,
    {
        match self {
            LedgerKey::Account { account_id } => account_id.as_str(),
            LedgerKey::TrustLine { account_id, .. } => account_id.as_str(),
            LedgerKey::ContractData { contract_id, .. } => contract_id.as_str(),
            LedgerKey::ContractCode { contract_id } => contract_id.as_str(),
            LedgerKey::ContractTtl { contract_id } => contract_id.as_str(),
            LedgerKey::Other(raw) => raw.as_str(),
        }
    }

    /// The second identifier of the key (empty for single-field variants).
    fn second_field(&self) -> (r: &str)
        ensures
            r@ == self@.2,
    {
        match self {
            LedgerKey::TrustLine { asset, .. } => asset.as_str(),
            LedgerKey::ContractData { key, .. } => key.as_str(),
            _ => {
                proof {
                    reveal_strlit("");
                }
                ""
            },
        }
    }

    /// Three-way comparison under the key order.
    pub fn compare(&self, other: &LedgerKey) -> (r: KeyOrder)
        ensures
            (r == KeyOrder::Less) == key_lt(self@, other@),
            (r == KeyOrder::Equal) == (self@ == other@),
            (r == KeyOrder::Greater) == key_lt(other@, self@),
    {
        proof {
            lemma_key_lt_irreflexive(self@);
            lemma_key_lt_total(self@, other@);
            if key_lt(self@, other@) && key_lt(other@, self@) {
                lemma_key_lt_transitive(self@, other@, self@);
            }
        }
        let va = self.variant_index();
        let vb = other.variant_index();
        if va < vb {
            return KeyOrder::Less;
        } else if va > vb {
            return KeyOrder::Greater;
        }
        let first = compare_strings(self.first_field(), other.first_field());
        match first {
            KeyOrder::Equal => compare_strings(self.second_field(), other.second_field()),
            _ => first,
        }
    }

    /// Whether two keys denote the same ledger entry.
    pub fn same_as(&self, other: &LedgerKey) -> (r: bool)
        ensures
            r == (self@ == other@),
    {
        match self.compare(other) {
            KeyOrder::Equal => true,
            _ => false,
        }
    }

    /// A copy of the key with the same model.
    pub fn duplicate(&self) -> (r: LedgerKey)
        ensures
            r@ == self@,
    {
        match self {
            LedgerKey::Account { account_id } => LedgerKey::Account { account_id: account_id.clone() },
            LedgerKey::TrustLine { account_id, asset } => LedgerKey::TrustLine {
                account_id: account_id.clone(),
                asset: asset.clone(),
            },
            LedgerKey::ContractData { contract_id, key } => LedgerKey::ContractData {
                contract_id: contract_id.clone(),
                key: key.clone(),
            },
            LedgerKey::ContractCode { contract_id } => LedgerKey::ContractCode {
                contract_id: contract_id.clone(),
            },
            LedgerKey::ContractTtl { contract_id } => LedgerKey::ContractTtl {
                contract_id: contract_id.clone(),
            },
            LedgerKey::Other(raw) => LedgerKey::Other(raw.clone()),
        }
    }

    /// The human-readable form of the key, e.g. `contract:C1:balance`.
    pub fn to_string(&self) -> (r: String)
        ensures
            r@ == display_model(self@),
    {
        let (prefix, first, second) = match self {
            LedgerKey::Account { account_id } => ("account:", account_id, None),
            LedgerKey::TrustLine { account_id, asset } => ("trustline:", account_id, Some(asset)),
            LedgerKey::ContractData { contract_id, key } => ("contract:", contract_id, Some(key)),
            LedgerKey::ContractCode { contract_id } => ("code:", contract_id, None),
            LedgerKey::ContractTtl { contract_id } => ("ttl:", contract_id, None),
            LedgerKey::Other(raw) => ("other:", raw, None),
        };
        let mut out = String::from_str(prefix);
        out.append(first.as_str());
        match second {
            Some(field) => {
                out.append(":");
                out.append(field.as_str());
            },
            None => {},
        }
        out
    }
}

/// The display prefix of each key variant.
pub open spec fn display_prefix(variant: int) -> Seq<char> {
    if variant == 0 {
        "account:"@
    } else if variant == 1 {
        "trustline:"@
    } else if variant == 2 {
        "contract:"@
    } else if variant == 3 {
        "code:"@
    } else if variant == 4 {
        "ttl:"@
    } else {
        "other:"@
    }
}

/// The display form of a key: prefix, first identifier and, for two-field
/// variants, `:` and the second identifier.
pub open spec fn display_model(k: KeyModel) -> Seq<char> {
    if k.0 == 1 || k.0 == 2 {
        display_prefix(k.0) + k.1 + ":"@ + k.2
    } else {
        display_prefix(k.0) + k.1
    }
}

/// Convenience constructor for a contract data key.
pub fn contract_data(contract_id: &str, key: &str) -> (r: LedgerKey)
    ensures
        r@ == (2int, contract_id@, key@),
{
    LedgerKey::ContractData { contract_id: String::from_str(contract_id), key: String::from_str(key) }
}

/// Convenience constructor for an account key.
pub fn account(account_id: &str) -> (r: LedgerKey)
    ensures
        r@ == (0int, account_id@, Seq::<char>::empty()),
{
    LedgerKey::Account { account_id: String::from_str(account_id) }
}

} // verus!
