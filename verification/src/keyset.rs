//! Ordered key sets: a vector of keys kept strictly increasing under the key
//! order, so that it holds each key once and iterates in key order.

use vstd::prelude::*;

use crate::keys::{key_lt, lemma_key_lt_irreflexive, lemma_key_lt_total, lemma_key_lt_transitive, KeyModel, KeyOrder, LedgerKey};

verus! {

/// The models of a sequence of keys.
pub open spec fn models(s: Seq<LedgerKey>) -> Seq<KeyModel> {
    s.map_values(|k: LedgerKey| k@)
}

/// The set of key models held by a sequence of keys.
pub open spec fn key_set(s: Seq<LedgerKey>) -> Set<KeyModel> {
    models(s).to_set()
}

/// A sequence of keys that is strictly increasing in the key order.
pub open spec fn sorted_keys(s: Seq<LedgerKey>) -> bool {
    forall|i: int, j: int| 0 <= i < j < s.len() ==> key_lt(#[trigger] s[i]@, #[trigger] s[j]@)
}

/// Membership in a key sequence, by index.
pub proof fn lemma_key_set_contains(s: Seq<LedgerKey>, m: KeyModel)
    ensures
        key_set(s).contains(m) <==> exists|i: int| 0 <= i < s.len() && #[trigger] s[i]@ == m,
{
    if key_set(s).contains(m) {
        let i = choose|i: int| 0 <= i < models(s).len() && models(s)[i] == m;
        assert(s[i]@ == m);
    }
    if exists|i: int| 0 <= i < s.len() && #[trigger] s[i]@ == m {
        let i = choose|i: int| 0 <= i < s.len() && #[trigger] s[i]@ == m;
        assert(models(s)[i] == m);
    }
}

/// Appending a key adds its model to the set.
pub proof fn lemma_key_set_push(s: Seq<LedgerKey>, k: LedgerKey)
    ensures
        key_set(s.push(k)) == key_set(s).insert(k@),
{
    assert forall|m: KeyModel| key_set(s.push(k)).contains(m) <==> key_set(s).insert(k@).contains(m) by {
        lemma_key_set_contains(s.push(k), m);
        lemma_key_set_contains(s, m);
        if key_set(s.push(k)).contains(m) {
            let p = choose|p: int| 0 <= p < s.push(k).len() && #[trigger] s.push(k)[p]@ == m;
            if p < s.len() {
                assert(s[p]@ == m);
            }
        }
        if key_set(s).contains(m) {
            let p = choose|p: int| 0 <= p < s.len() && #[trigger] s[p]@ == m;
            assert(s.push(k)[p]@ == m);
        }
        if m == k@ {
            assert(s.push(k)[s.len() as int]@ == m);
        }
    }
    assert(key_set(s.push(k)) =~= key_set(s).insert(k@));
}

/// A sorted key sequence has as many elements as its set.
pub proof fn lemma_sorted_len(s: Seq<LedgerKey>)
    requires
        sorted_keys(s),
    ensures
        key_set(s).len() == s.len(),
        key_set(s).finite(),
{
    assert forall|i: int, j: int| 0 <= i < models(s).len() && 0 <= j < models(s).len() && i != j
        implies models(s)[i] != models(s)[j] by {
        if i < j {
            assert(key_lt(s[i]@, s[j]@));
            lemma_key_lt_irreflexive(s[i]@);
        } else {
            assert(key_lt(s[j]@, s[i]@));
            lemma_key_lt_irreflexive(s[j]@);
        }
    }
    models(s).unique_seq_to_set();
}

/// Two sorted key sequences with the same set have the same models.
pub proof fn lemma_sorted_unique(a: Seq<LedgerKey>, b: Seq<LedgerKey>)
    requires
        sorted_keys(a),
        sorted_keys(b),
        key_set(a) == key_set(b),
    ensures
        models(a) == models(b),
    decreases a.len(),
{
    lemma_sorted_len(a);
    lemma_sorted_len(b);
    if a.len() > 0 {
        // The first element of each is the least element of the common set.
        lemma_key_set_contains(a, b[0]@);
        lemma_key_set_contains(b, a[0]@);
        lemma_key_set_contains(a, a[0]@);
        lemma_key_set_contains(b, b[0]@);
        let i = choose|i: int| 0 <= i < a.len() && #[trigger] a[i]@ == b[0]@;
        let j = choose|j: int| 0 <= j < b.len() && #[trigger] b[j]@ == a[0]@;
        if i > 0 && j > 0 {
            assert(key_lt(a[0]@, a[i]@));
            assert(key_lt(b[0]@, b[j]@));
            lemma_key_lt_transitive(a[0]@, b[0]@, a[0]@);
            lemma_key_lt_irreflexive(a[0]@);
        }
        if i > 0 && j == 0 {
            assert(key_lt(a[0]@, a[i]@));
            lemma_key_lt_irreflexive(a[0]@);
        }
        if i == 0 && j > 0 {
            assert(key_lt(b[0]@, b[j]@));
            lemma_key_lt_irreflexive(b[0]@);
        }
        assert(a[0]@ == b[0]@);
        let ra = a.drop_first();
        let rb = b.drop_first();
        assert forall|m: KeyModel| key_set(ra).contains(m) <==> key_set(rb).contains(m) by {
            lemma_key_set_contains(ra, m);
            lemma_key_set_contains(rb, m);
            lemma_key_set_contains(a, m);
            lemma_key_set_contains(b, m);
            if key_set(ra).contains(m) {
                let p = choose|p: int| 0 <= p < ra.len() && #[trigger] ra[p]@ == m;
                assert(a[p + 1]@ == m);
                let q = choose|q: int| 0 <= q < b.len() && #[trigger] b[q]@ == m;
                if q == 0 {
                    assert(key_lt(a[0]@, a[p + 1]@));
                    lemma_key_lt_irreflexive(a[0]@);
                }
                assert(rb[q - 1]@ == m);
            }
            if key_set(rb).contains(m) {
                let p = choose|p: int| 0 <= p < rb.len() && #[trigger] rb[p]@ == m;
                assert(b[p + 1]@ == m);
                let q = choose|q: int| 0 <= q < a.len() && #[trigger] a[q]@ == m;
                if q == 0 {
                    assert(key_lt(b[0]@, b[p + 1]@));
                    lemma_key_lt_irreflexive(b[0]@);
                }
                assert(ra[q - 1]@ == m);
            }
        }
        assert(key_set(ra) =~= key_set(rb));
        lemma_sorted_unique(ra, rb);
        assert(models(a) =~= models(b)) by {
            assert forall|k: int| 0 <= k < a.len() implies models(a)[k] == models(b)[k] by {
                if k > 0 {
                    assert(models(ra)[k - 1] == models(rb)[k - 1]);
                }
            }
        }
    } else {
        if b.len() > 0 {
            lemma_key_set_contains(b, b[0]@);
            lemma_key_set_contains(a, b[0]@);
        }
        assert(models(a) =~= models(b));
    }
}

/// Whether `k` is one of `keys`.
pub fn contains_key(keys: &[LedgerKey], k: &LedgerKey) -> (r: bool)
    ensures
        r == key_set(keys@).contains(k@),
{
    proof {
        lemma_key_set_contains(keys@, k@);
    }
    let mut i: usize = 0;
    while i < keys.len()
        invariant
            i <= keys.len(),
            forall|j: int| 0 <= j < i ==> keys@[j]@ != k@,
        decreases keys.len() - i,
    {
        if keys[i].same_as(k) {
            proof {
                lemma_key_set_contains(keys@, k@);
                assert(keys@[i as int]@ == k@);
            }
            return true;
        }
        i = i + 1;
    }
    false
}

/// Inserts `k` into a sorted key vector, keeping it sorted; a key already
/// present leaves the vector unchanged.
pub fn insert_key(keys: &mut Vec<LedgerKey>, k: LedgerKey)
    requires
        sorted_keys(old(keys)@),
    ensures
        sorted_keys(final(keys)@),
        key_set(final(keys)@) == key_set(old(keys)@).insert(k@),
        key_set(old(keys)@).contains(k@) ==> final(keys)@ == old(keys)@,
{
    let ghost before = keys@;
    let mut i: usize = 0;
    while i < keys.len()
        invariant
            i <= keys.len(),
            keys@ == before,
            sorted_keys(before),
            forall|j: int| 0 <= j < i ==> key_lt(#[trigger] before[j]@, k@),
        ensures
            i <= keys.len(),
            keys@ == before,
            forall|j: int| 0 <= j < i ==> key_lt(#[trigger] before[j]@, k@),
            i < keys.len() ==> key_lt(k@, before[i as int]@),
        decreases keys.len() - i,
    {
        match keys[i].compare(&k) {
            KeyOrder::Less => {},
            KeyOrder::Equal => {
                proof {
                    lemma_key_set_contains(before, k@);
                    assert(key_set(before).insert(k@) =~= key_set(before));
                }
                return;
            },
            KeyOrder::Greater => {
                break;
            },
        }
        i = i + 1;
    }
    proof {
        // Every element from `i` on is greater than `k`.
        assert forall|j: int| i <= j < before.len() implies key_lt(k@, #[trigger] before[j]@) by {
            if j > i {
                assert(key_lt(before[i as int]@, before[j]@));
                lemma_key_lt_transitive(k@, before[i as int]@, before[j]@);
            }
        }
        lemma_key_set_contains(before, k@);
        assert forall|j: int| 0 <= j < before.len() implies before[j]@ != k@ by {
            if j < i {
                lemma_key_lt_irreflexive(k@);
            } else {
                lemma_key_lt_irreflexive(k@);
            }
        }
    }
    keys.insert(i, k);
    proof {
        let after = keys@;
        assert(after =~= before.take(i as int).push(k).add(before.skip(i as int)));
        assert forall|a: int, b: int| 0 <= a < b < after.len() implies key_lt(
            #[trigger] after[a]@,
            #[trigger] after[b]@,
        ) by {
            if b < i {
                assert(after[a] == before[a] && after[b] == before[b]);
            } else if b == i {
                assert(after[a] == before[a]);
            } else if a < i {
                assert(after[a] == before[a] && after[b] == before[b - 1]);
                assert(key_lt(before[a]@, k@));
                assert(key_lt(k@, before[b - 1]@));
                lemma_key_lt_transitive(before[a]@, k@, before[b - 1]@);
            } else if a == i {
                assert(after[b] == before[b - 1]);
            } else {
                assert(after[a] == before[a - 1] && after[b] == before[b - 1]);
            }
        }
        assert forall|m: KeyModel| key_set(after).contains(m) <==> key_set(before).insert(k@).contains(m) by {
            lemma_key_set_contains(after, m);
            lemma_key_set_contains(before, m);
            if key_set(after).contains(m) {
                let p = choose|p: int| 0 <= p < after.len() && #[trigger] after[p]@ == m;
                if p < i {
                    assert(after[p] == before[p]);
                } else if p > i {
                    assert(after[p] == before[p - 1]);
                }
            }
            if key_set(before).contains(m) {
                let p = choose|p: int| 0 <= p < before.len() && #[trigger] before[p]@ == m;
                if p < i {
                    assert(after[p] == before[p]);
                } else {
                    assert(after[p + 1] == before[p]);
                }
            }
            if m == k@ {
                assert(after[i as int] == k);
            }
        }
        assert(key_set(after) =~= key_set(before).insert(k@));
    }
}

/// An empty sorted key vector.
pub fn empty_keys() -> (r: Vec<LedgerKey>)
    ensures
        r@.len() == 0,
        sorted_keys(r@),
        key_set(r@) == Set::<KeyModel>::empty(),
{
    let r: Vec<LedgerKey> = Vec::new();
    proof {
        assert(key_set(r@) =~= Set::<KeyModel>::empty());
    }
    r
}

/// A sorted vector holding the keys of both inputs.
pub fn union_keys(a: &[LedgerKey], b: &[LedgerKey]) -> (r: Vec<LedgerKey>)
    ensures
        sorted_keys(r@),
        key_set(r@) == key_set(a@).union(key_set(b@)),
{
    let mut r = empty_keys();
    for i in 0..a.len()
        invariant
            sorted_keys(r@),
            key_set(r@) == key_set(a@.take(i as int)),
    {
        insert_key(&mut r, a[i].duplicate());
        proof {
            assert(a@.take(i + 1) =~= a@.take(i as int).push(a@[i as int]));
            lemma_key_set_push(a@.take(i as int), a@[i as int]);
        }
    }
    assert(a@.take(a.len() as int) =~= a@);
    for i in 0..b.len()
        invariant
            sorted_keys(r@),
            key_set(r@) == key_set(a@).union(key_set(b@.take(i as int))),
    {
        insert_key(&mut r, b[i].duplicate());
        proof {
            assert(b@.take(i + 1) =~= b@.take(i as int).push(b@[i as int]));
            lemma_key_set_push(b@.take(i as int), b@[i as int]);
            assert(key_set(r@) =~= key_set(a@).union(key_set(b@.take(i + 1))));
        }
    }
    assert(b@.take(b.len() as int) =~= b@);
    r
}

/// A copy of a key vector with the same models.
pub fn duplicate_keys(a: &[LedgerKey]) -> (r: Vec<LedgerKey>)
    ensures
        models(r@) == models(a@),
{
    let mut r: Vec<LedgerKey> = Vec::new();
    for i in 0..a.len()
        invariant
            models(r@) == models(a@.take(i as int)),
    {
        r.push(a[i].duplicate());
        assert(models(a@.take(i + 1)) =~= models(a@.take(i as int)).push(a@[i as int]@));
        assert(models(r@) =~= models(a@.take(i + 1)));
    }
    assert(a@.take(a.len() as int) =~= a@);
    r
}

} // verus!
