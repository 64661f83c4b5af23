//! Transaction footprints: the ledger keys a transaction reads and writes,
//! and the conflict rule between two footprints.
//!
//! Two transactions conflict when one writes a key that the other touches in
//! any mode; shared read-only access is never a conflict.

use vstd::prelude::*;

use crate::keys::{KeyModel, LedgerKey};
use crate::keyset::{
    contains_key, duplicate_keys, empty_keys, insert_key, key_set, lemma_key_set_contains,
    lemma_sorted_len, models, sorted_keys, union_keys,
};

verus! {

/// A transaction's ledger footprint: the entries it only reads and the
/// entries it writes. Each list is held in key order, each key once.
#[derive(Debug, Clone, Default, PartialEq, Eq)]
pub struct TransactionFootprint {
    pub read_only: Vec<LedgerKey>,
    pub read_write: Vec<LedgerKey>,
}

impl TransactionFootprint {
    /// Both key lists are strictly increasing in the key order.
    pub open spec fn wf(&self) -> bool {
        sorted_keys(self.read_only@) && sorted_keys(self.read_write@)
    }

    /// The keys read (and not necessarily written).
    pub open spec fn ro(&self) -> Set<KeyModel> {
        key_set(self.read_only@)
    }

    /// The keys written.
    pub open spec fn rw(&self) -> Set<KeyModel> {
        key_set(self.read_write@)
    }

    /// Every key touched in any mode.
    pub open spec fn touched(&self) -> Set<KeyModel> {
        self.ro().union(self.rw())
    }

    /// Creates an empty footprint.
    pub fn new() -> (r: Self)
        ensures
            r.wf(),
            r.read_only@.len() == 0,
            r.read_write@.len() == 0,
    {
        TransactionFootprint { read_only: empty_keys(), read_write: empty_keys() }
    }

    /// Records a read-only access to `key`.
    pub fn read(self, key: LedgerKey) -> (r: Self)
        requires
            self.wf(),
        ensures
            r.wf(),
            r.ro() == self.ro().insert(key@),
            r.read_write == self.read_write,
    {
        let mut fp = self;
        insert_key(&mut fp.read_only, key);
        fp
    }

    /// Records a read/write access to `key`.
    pub fn read_write(self, key: LedgerKey) -> (r: Self)
        requires
            self.wf(),
        ensures
            r.wf(),
            r.rw() == self.rw().insert(key@),
            r.read_only == self.read_only,
    {
        let mut fp = self;
        insert_key(&mut fp.read_write, key);
        fp
    }

    /// The full set of keys touched by the footprint, in key order.
    pub fn keys(&self) -> (r: Vec<LedgerKey>)
        ensures
            sorted_keys(r@),
            key_set(r@) == self.touched(),
    {
        union_keys(self.read_only.as_slice(), self.read_write.as_slice())
    }

    /// The keys this footprint writes.
    pub fn writes(&self) -> (r: &Vec<LedgerKey>)
        ensures
            r == &self.read_write,
    {
        &self.read_write
    }

    /// The number of distinct keys touched by this footprint.
    pub fn key_count(&self) -> (r: usize)
        ensures
            r == self.touched().len(),
    {
        let keys = self.keys();
        proof {
            lemma_sorted_len(keys@);
        }
        keys.len()
    }

    /// The number of keys written by this footprint.
    pub fn write_count(&self) -> (r: usize)
        ensures
            r == self.read_write@.len(),
            self.wf() ==> r == self.rw().len(),
    {
        proof {
            if self.wf() {
                lemma_sorted_len(self.read_write@);
            }
        }
        self.read_write.len()
    }

    /// The keys that would conflict between `self` and `other`, in key order:
    /// those written by both, and those written by one and read by the other.
    pub fn conflict_keys(&self, other: &TransactionFootprint) -> (r: Vec<LedgerKey>)
        ensures
            sorted_keys(r@),
            key_set(r@) == conflict_set(*self, *other),
    {
        let mut out = empty_keys();
        for i in 0..self.read_write.len()
            invariant
                sorted_keys(out@),
                key_set(out@) == Set::new(
                    |m: KeyModel|
                        key_set(self.read_write@.take(i as int)).contains(m) && other.touched().contains(m),
                ),
        {
            let k = &self.read_write[i];
            proof {
                lemma_take_step(self.read_write@, i as int);
            }
            if contains_key(other.read_write.as_slice(), k) || contains_key(other.read_only.as_slice(), k) {
                insert_key(&mut out, k.duplicate());
            }
            proof {
                assert(key_set(out@) =~= Set::new(
                    |m: KeyModel|
                        key_set(self.read_write@.take(i + 1)).contains(m) && other.touched().contains(m),
                ));
            }
        }
        proof {
            assert(self.read_write@.take(self.read_write@.len() as int) =~= self.read_write@);
        }
        for i in 0..self.read_only.len()
            invariant
                sorted_keys(out@),
                key_set(out@) == Set::new(
                    |m: KeyModel|
                        (self.rw().contains(m) && other.touched().contains(m)) || (key_set(
                            self.read_only@.take(i as int),
                        ).contains(m) && other.rw().contains(m)),
                ),
        {
            let k = &self.read_only[i];
            proof {
                lemma_take_step(self.read_only@, i as int);
            }
            if contains_key(other.read_write.as_slice(), k) {
                insert_key(&mut out, k.duplicate());
            }
            proof {
                assert(key_set(out@) =~= Set::new(
                    |m: KeyModel|
                        (self.rw().contains(m) && other.touched().contains(m)) || (key_set(
                            self.read_only@.take(i + 1),
                        ).contains(m) && other.rw().contains(m)),
                ));
            }
        }
        proof {
            assert(self.read_only@.take(self.read_only@.len() as int) =~= self.read_only@);
            assert(key_set(out@) =~= conflict_set(*self, *other));
        }
        out
    }

    /// Returns `true` if `self` and `other` cannot be scheduled in the same
    /// stage because one writes a key the other touches.
    pub fn conflicts_with(&self, other: &TransactionFootprint) -> (r: bool)
        ensures
            r == conflicts(*self, *other),
    {
        let keys = self.conflict_keys(other);
        proof {
            lemma_key_set_contains(keys@, keys@[0]@);
            if !conflict_set(*self, *other).is_empty() {
                let m = conflict_set(*self, *other).choose();
                lemma_key_set_contains(keys@, m);
            }
        }
        keys.len() != 0
    }

    /// Whether the two footprints touch any of the same keys (read or write).
    pub fn overlaps(&self, other: &TransactionFootprint) -> (r: bool)
        ensures
            r == !self.touched().intersect(other.touched()).is_empty(),
    {
        let mine = self.keys();
        let theirs = other.keys();
        for i in 0..mine.len()
            invariant
                key_set(mine@) == self.touched(),
                key_set(theirs@) == other.touched(),
                forall|j: int| 0 <= j < i ==> !other.touched().contains(#[trigger] mine@[j]@),
        {
            if contains_key(theirs.as_slice(), &mine[i]) {
                proof {
                    lemma_key_set_contains(mine@, mine@[i as int]@);
                    assert(self.touched().intersect(other.touched()).contains(mine@[i as int]@));
                }
                return true;
            }
        }
        proof {
            if !self.touched().intersect(other.touched()).is_empty() {
                let m = self.touched().intersect(other.touched()).choose();
                lemma_key_set_contains(mine@, m);
            }
        }
        false
    }

    /// A copy of the footprint with the same key lists.
    pub fn duplicate(&self) -> (r: TransactionFootprint)
        ensures
            models(r.read_only@) == models(self.read_only@),
            models(r.read_write@) == models(self.read_write@),
            r.ro() == self.ro(),
            r.rw() == self.rw(),
            self.wf() ==> r.wf(),
    {
        let r = TransactionFootprint {
            read_only: duplicate_keys(self.read_only.as_slice()),
            read_write: duplicate_keys(self.read_write.as_slice()),
        };
        proof {
            lemma_same_models(r.read_only@, self.read_only@);
            lemma_same_models(r.read_write@, self.read_write@);
        }
        r
    }
}

/// Key sequences with equal models have the same set and the same order.
pub proof fn lemma_same_models(a: Seq<LedgerKey>, b: Seq<LedgerKey>)
    requires
        models(a) == models(b),
    ensures
        key_set(a) == key_set(b),
        sorted_keys(a) == sorted_keys(b),
{
    assert(a.len() == models(a).len());
    assert forall|i: int| 0 <= i < a.len() implies a[i]@ == b[i]@ by {
        assert(models(a)[i] == models(b)[i]);
    }
}

proof fn lemma_take_step(s: Seq<LedgerKey>, i: int)
    requires
        0 <= i < s.len(),
    ensures
        key_set(s.take(i + 1)) == key_set(s.take(i)).insert(s[i]@),
{
    assert(s.take(i + 1) =~= s.take(i).push(s[i]));
    crate::keyset::lemma_key_set_push(s.take(i), s[i]);
}

/// The keys on which two footprints conflict: written by both, or written by
/// one and read by the other.
pub open spec fn conflict_set(a: TransactionFootprint, b: TransactionFootprint) -> Set<KeyModel> {
    a.rw().intersect(b.touched()).union(a.ro().intersect(b.rw()))
}

/// Whether two footprints conflict.
pub open spec fn conflicts(a: TransactionFootprint, b: TransactionFootprint) -> bool {
    !conflict_set(a, b).is_empty()
}

/// The conflict relation is symmetric, and every conflicting key is written
/// by at least one of the two footprints and touched by both: shared
/// read-only access is never a conflict.
pub proof fn lemma_conflict_rule(a: TransactionFootprint, b: TransactionFootprint, m: KeyModel)
    ensures
        conflict_set(a, b) == conflict_set(b, a),
        conflicts(a, b) == conflicts(b, a),
        conflict_set(a, b).contains(m) <==> ((a.rw().contains(m) || b.rw().contains(m))
            && a.touched().contains(m) && b.touched().contains(m)),
{
    assert(conflict_set(a, b) =~= conflict_set(b, a));
}

/// The result of comparing two footprints.
#[derive(Debug, Clone, Default, PartialEq, Eq)]
pub struct Overlap {
    /// Keys touched by both footprints, in any mode.
    pub shared_keys: Vec<LedgerKey>,
    /// Keys that would cause a scheduling conflict (write/write or
    /// write/read).
    pub conflict_keys: Vec<LedgerKey>,
    /// Whether the two footprints conflict.
    pub conflicts: bool,
}

impl Overlap {
    /// Returns `true` if the two footprints cannot share a stage.
    pub fn is_conflicting(&self) -> (r: bool)
        ensures
            r == self.conflicts,
    {
        self.conflicts
    }
}

/// Computes the full overlap relationship between two footprints.
pub fn overlap(a: &TransactionFootprint, b: &TransactionFootprint) -> (r: Overlap)
    ensures
        sorted_keys(r.shared_keys@),
        key_set(r.shared_keys@) == a.touched().intersect(b.touched()),
        sorted_keys(r.conflict_keys@),
        key_set(r.conflict_keys@) == conflict_set(*a, *b),
        r.conflicts == conflicts(*a, *b),
{
    let conflict_keys = a.conflict_keys(b);
    let mine = a.keys();
    let theirs = b.keys();
    let mut shared = empty_keys();
    for i in 0..mine.len()
        invariant
            key_set(mine@) == a.touched(),
            key_set(theirs@) == b.touched(),
            sorted_keys(shared@),
            key_set(shared@) == key_set(mine@.take(i as int)).intersect(b.touched()),
    {
        proof {
            lemma_take_step(mine@, i as int);
        }
        if contains_key(theirs.as_slice(), &mine[i]) {
            insert_key(&mut shared, mine[i].duplicate());
        }
        proof {
            assert(key_set(shared@) =~= key_set(mine@.take(i + 1)).intersect(b.touched()));
        }
    }
    proof {
        assert(mine@.take(mine@.len() as int) =~= mine@);
        lemma_key_set_contains(conflict_keys@, conflict_keys@[0]@);
        if !conflict_set(*a, *b).is_empty() {
            let m = conflict_set(*a, *b).choose();
            lemma_key_set_contains(conflict_keys@, m);
        }
    }
    let conflicts = conflict_keys.len() != 0;
    Overlap { shared_keys: shared, conflict_keys, conflicts }
}

} // verus!
