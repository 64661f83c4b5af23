//! Conflict graphs and stage construction.
//!
//! Transactions in the same stage must not conflict. The conflict graph has
//! one vertex per transaction and an edge between every conflicting pair; a
//! schedule assigns every transaction, in index order, to the earliest stage
//! in which it has no conflicting member.

use vstd::prelude::*;

use crate::footprint::{conflict_set, conflicts, TransactionFootprint};
use crate::keys::{KeyModel, LedgerKey};

verus! {

/// A strictly increasing sequence of indices.
pub open spec fn increasing(s: Seq<usize>) -> bool {
    forall|i: int, j: int| 0 <= i < j < s.len() ==> #[trigger] s[i] < #[trigger] s[j]
}

/// Inserts `x` into a strictly increasing vector, keeping it so.
pub fn insert_index(v: &mut Vec<usize>, x: usize)
    requires
        increasing(old(v)@),
    ensures
        increasing(final(v)@),
        forall|y: usize| #[trigger] final(v)@.contains(y) <==> (old(v)@.contains(y) || y == x),
{
    let ghost before = v@;
    let mut i: usize = 0;
    while i < v.len() && v[i] < x
        invariant
            i <= v.len(),
            v@ == before,
            increasing(before),
            forall|j: int| 0 <= j < i ==> #[trigger] before[j] < x,
        decreases v.len() - i,
    {
        i = i + 1;
    }
    if i < v.len() && v[i] == x {
        return;
    }
    v.insert(i, x);
    proof {
        let after = v@;
        assert(after =~= before.take(i as int).push(x).add(before.skip(i as int)));
        assert forall|a: int, b: int| 0 <= a < b < after.len() implies #[trigger] after[a] < #[trigger] after[b] by {
            if b < i {
                assert(after[a] == before[a] && after[b] == before[b]);
            } else if b == i {
                assert(after[a] == before[a]);
            } else if a < i {
                assert(after[a] == before[a] && after[b] == before[b - 1]);
                assert(before[i as int] > x);
                if b - 1 > i {
                    assert(before[i as int] < before[b - 1]);
                }
            } else if a == i {
                assert(after[b] == before[b - 1]);
                assert(before[i as int] > x);
                if b - 1 > i {
                    assert(before[i as int] < before[b - 1]);
                }
            } else {
                assert(after[a] == before[a - 1] && after[b] == before[b - 1]);
            }
        }
        assert forall|y: usize| #[trigger] after.contains(y) <==> (before.contains(y) || y == x) by {
            if after.contains(y) {
                let p = choose|p: int| 0 <= p < after.len() && after[p] == y;
                if p < i {
                    assert(before[p] == y);
                } else if p > i {
                    assert(before[p - 1] == y);
                }
            }
            if before.contains(y) {
                let p = choose|p: int| 0 <= p < before.len() && before[p] == y;
                if p < i {
                    assert(after[p] == y);
                } else {
                    assert(after[p + 1] == y);
                }
            }
            if y == x {
                assert(after[i as int] == x);
            }
        }
    }
}

/// The conflict graph over an ordered list of transaction footprints.
///
/// Vertices are transaction indices; an edge connects two vertices whose
/// footprints conflict.
#[derive(Debug, Clone, Default, PartialEq, Eq)]
pub struct ConflictGraph {
    /// `adjacency[i]` lists the neighbors of transaction `i`.
    pub adjacency: Vec<Vec<usize>>,
}

impl View for ConflictGraph {
    type V = Seq<Seq<usize>>;

    open spec fn view(&self) -> Seq<Seq<usize>> {
        rows(self.adjacency@)
    }
}

/// Every adjacency list is strictly increasing.
pub open spec fn rows_increasing(adj: Seq<Seq<usize>>) -> bool {
    forall|u: int| 0 <= u < adj.len() ==> increasing(#[trigger] adj[u])
}

/// `adj` is the conflict graph of `fps`: one increasing neighbor list per
/// transaction, listing exactly the other transactions it conflicts with.
pub open spec fn is_conflict_graph(adj: Seq<Seq<usize>>, fps: Seq<TransactionFootprint>) -> bool {
    &&& adj.len() == fps.len()
    &&& rows_increasing(adj)
    &&& forall|u: int, v: usize|
        0 <= u < adj.len() ==> (#[trigger] adj[u].contains(v) <==> (v < fps.len() && v != u
            && conflicts(fps[u], fps[v as int])))
}

impl ConflictGraph {
    /// The number of vertices.
    pub fn order(&self) -> (r: usize)
        ensures
            r == self@.len(),
    {
        self.adjacency.len()
    }

    /// The number of undirected edges: half the total neighbor-list length.
    pub fn edge_count(&self) -> (r: usize)
        requires
            total_len(self@) <= usize::MAX,
        ensures
            r == total_len(self@) / 2,
    {
        let mut sum: usize = 0;
        for i in 0..self.adjacency.len()
            invariant
                sum == total_len(self@.take(i as int)),
                total_len(self@) <= usize::MAX,
        {
            proof {
                lemma_total_len_prefix(self@, i as int + 1);
                lemma_total_len_step(self@, i as int);
            }
            sum = sum + self.adjacency[i].len();
        }
        proof {
            assert(self@.take(self@.len() as int) =~= self@);
        }
        sum / 2
    }
}

/// The sum of the lengths of a sequence of lists.
pub open spec fn total_len(s: Seq<Seq<usize>>) -> int
    decreases s.len(),
{
    if s.len() == 0 {
        0
    } else {
        total_len(s.drop_last()) + s.last().len()
    }
}

pub proof fn lemma_total_len_step(s: Seq<Seq<usize>>, i: int)
    requires
        0 <= i < s.len(),
    ensures
        total_len(s.take(i + 1)) == total_len(s.take(i)) + s[i].len(),
{
    assert(s.take(i + 1).drop_last() =~= s.take(i));
}

pub proof fn lemma_total_len_prefix(s: Seq<Seq<usize>>, i: int)
    requires
        0 <= i <= s.len(),
    ensures
        0 <= total_len(s.take(i)) <= total_len(s),
    decreases s.len(),
{
    if s.len() > 0 {
        if i == s.len() {
            assert(s.take(i) =~= s);
            lemma_total_len_prefix(s.drop_last(), i - 1);
            assert(s.drop_last().take(i - 1) =~= s.drop_last());
        } else {
            lemma_total_len_prefix(s.drop_last(), i);
            assert(s.drop_last().take(i) =~= s.take(i));
        }
    }
}


/// The neighbor lists held by a vector of rows.
pub open spec fn rows(s: Seq<Vec<usize>>) -> Seq<Seq<usize>> {
    s.map_values(|row: Vec<usize>| row@)
}

/// Whether `v` is listed as a neighbor of `u`.
pub open spec fn linked(adj: Seq<Seq<usize>>, u: usize, v: usize) -> bool {
    u < adj.len() && adj[u as int].contains(v)
}

/// Adds the undirected edge `{x, y}`.
fn add_edge(adj: &mut Vec<Vec<usize>>, x: usize, y: usize)
    requires
        x < old(adj).len(),
        y < old(adj).len(),
        rows_increasing(rows(old(adj)@)),
    ensures
        final(adj).len() == old(adj).len(),
        rows_increasing(rows(final(adj)@)),
        forall|u: usize, v: usize|
            #[trigger] linked(rows(final(adj)@), u, v) <==> (linked(rows(old(adj)@), u, v) || (u == x
                && v == y) || (u == y && v == x)),
{
    let ghost a0 = rows(adj@);
    assert(increasing(a0[x as int]));
    insert_index(&mut adj[x], y);
    let ghost a1 = rows(adj@);
    proof {
        assert forall|u: int| 0 <= u < a1.len() implies increasing(#[trigger] a1[u]) by {
            if u != x {
                assert(a1[u] == a0[u]);
            }
        }
    }
    assert(increasing(a1[y as int]));
    insert_index(&mut adj[y], x);
    proof {
        let a2 = rows(adj@);
        assert forall|u: int| 0 <= u < a2.len() implies increasing(#[trigger] a2[u]) by {
            if u != y {
                assert(a2[u] == a1[u]);
            }
        }
        assert forall|u: usize, v: usize| #[trigger] linked(a2, u, v) <==> (linked(a0, u, v) || (u == x
            && v == y) || (u == y && v == x)) by {
            if u < a2.len() {
                if u != y {
                    assert(a2[u as int] == a1[u as int]);
                }
                if u != x {
                    assert(a1[u as int] == a0[u as int]);
                }
            }
        }
    }
}

/// The pairs that one key's writers and readers contribute: two distinct
/// writers, or a writer and a distinct reader.
pub open spec fn key_pair(w: Seq<usize>, r: Seq<usize>, u: usize, v: usize) -> bool {
    u != v && ((w.contains(u) && w.contains(v)) || (w.contains(u) && r.contains(v)) || (r.contains(u)
        && w.contains(v)))
}

/// Links every pair of distinct writers, and every writer with every
/// distinct reader.
fn link_key(adj: &mut Vec<Vec<usize>>, writers: &Vec<usize>, readers: &Vec<usize>)
    requires
        rows_increasing(rows(old(adj)@)),
        increasing(writers@),
        forall|i: int| 0 <= i < writers@.len() ==> #[trigger] writers@[i] < old(adj).len(),
        forall|i: int| 0 <= i < readers@.len() ==> #[trigger] readers@[i] < old(adj).len(),
    ensures
        final(adj).len() == old(adj).len(),
        rows_increasing(rows(final(adj)@)),
        forall|u: usize, v: usize|
            #[trigger] linked(rows(final(adj)@), u, v) <==> (linked(rows(old(adj)@), u, v) || key_pair(
                writers@,
                readers@,
                u,
                v,
            )),
{
    let ghost a0 = rows(adj@);
    let ghost w = writers@;
    let ghost r = readers@;
    let n = adj.len();
    for a in 0..writers.len()
        invariant
            adj.len() == n,
            n == a0.len(),
            w == writers@,
            r == readers@,
            increasing(w),
            forall|i: int| 0 <= i < w.len() ==> #[trigger] w[i] < n,
            rows_increasing(rows(adj@)),
            forall|u: usize, v: usize|
                #[trigger] linked(rows(adj@), u, v) <==> (linked(a0, u, v) || (u != v && w.contains(u)
                    && w.contains(v) && (w.take(a as int).contains(u) || w.take(a as int).contains(v)))),
    {
        let wa = writers[a];
        for b in (a + 1)..writers.len()
            invariant
                adj.len() == n,
                n == a0.len(),
                w == writers@,
                wa == w[a as int],
                a < w.len(),
                increasing(w),
                forall|i: int| 0 <= i < w.len() ==> #[trigger] w[i] < n,
                rows_increasing(rows(adj@)),
                forall|u: usize, v: usize|
                    #[trigger] linked(rows(adj@), u, v) <==> (linked(a0, u, v) || (u != v && w.contains(u)
                        && w.contains(v) && (w.take(a as int).contains(u) || w.take(a as int).contains(v)))
                        || (u != v && ((u == wa && w.subrange(a + 1, b as int).contains(v)) || (v == wa
                        && w.subrange(a + 1, b as int).contains(u))))),
        {
            let wb = writers[b];
            assert(wa < wb);
            let ghost before = rows(adj@);
            add_edge(adj, wa, wb);
            proof {
                let sub0 = w.subrange(a + 1, b as int);
                let sub1 = w.subrange(a + 1, b + 1);
                assert(sub1 =~= sub0.push(wb));
                assert forall|x: usize| sub1.contains(x) <==> (sub0.contains(x) || x == wb) by {
                    if sub1.contains(x) {
                        let p = choose|p: int| 0 <= p < sub1.len() && sub1[p] == x;
                        if p < sub0.len() {
                            assert(sub0[p] == x);
                        }
                    }
                    if sub0.contains(x) {
                        let p = choose|p: int| 0 <= p < sub0.len() && sub0[p] == x;
                        assert(sub1[p] == x);
                    }
                    if x == wb {
                        assert(sub1[sub0.len() as int] == x);
                    }
                }
                assert forall|u: usize, v: usize| #[trigger] linked(rows(adj@), u, v) <==> (linked(a0, u, v)
                    || (u != v && w.contains(u) && w.contains(v) && (w.take(a as int).contains(u) || w.take(
                    a as int,
                ).contains(v))) || (u != v && ((u == wa && sub1.contains(v)) || (v == wa && sub1.contains(
                    u,
                ))))) by {
                    assert(linked(before, u, v) == linked(rows(adj@), u, v) || (u == wa && v == wb) || (u
                        == wb && v == wa));
                    if u == wa && v == wb || u == wb && v == wa {
                        assert(w[b as int] == wb);
                        assert(w.contains(wb));
                        assert(w[a as int] == wa);
                        assert(w.contains(wa));
                    }
                    if u == wa && sub0.contains(v) || v == wa && sub0.contains(u) {
                        assert(w.contains(wa));
                        if u == wa {
                            let p = choose|p: int| 0 <= p < sub0.len() && sub0[p] == v;
                            assert(w[a + 1 + p] == v);
                        } else {
                            let p = choose|p: int| 0 <= p < sub0.len() && sub0[p] == u;
                            assert(w[a + 1 + p] == u);
                        }
                    }
                }
            }
        }
        proof {
            let take0 = w.take(a as int);
            let take1 = w.take(a + 1);
            let rest = w.subrange(a + 1, w.len() as int);
            assert(take1 =~= take0.push(wa));
            assert forall|x: usize| #[trigger] w.contains(x) ==> (take0.contains(x) || x == wa || rest.contains(x)) by {
                if w.contains(x) {
                    let p = choose|p: int| 0 <= p < w.len() && w[p] == x;
                    if p < a {
                        assert(take0[p] == x);
                    } else if p > a {
                        assert(rest[p - a - 1] == x);
                    }
                }
            }
            assert forall|x: usize| take1.contains(x) <==> (take0.contains(x) || x == wa) by {
                if take1.contains(x) {
                    let p = choose|p: int| 0 <= p < take1.len() && take1[p] == x;
                    if p < a {
                        assert(take0[p] == x);
                    }
                }
                if take0.contains(x) {
                    let p = choose|p: int| 0 <= p < take0.len() && take0[p] == x;
                    assert(take1[p] == x);
                }
                if x == wa {
                    assert(take1[a as int] == x);
                }
            }
            assert forall|x: usize| rest.contains(x) ==> w.contains(x) by {
                if rest.contains(x) {
                    let p = choose|p: int| 0 <= p < rest.len() && rest[p] == x;
                    assert(w[a + 1 + p] == x);
                }
            }
            assert(w.contains(wa)) by {
                assert(w[a as int] == wa);
            }
        }
    }
    let ghost a1 = rows(adj@);
    proof {
        assert(w.take(w.len() as int) =~= w);
        assert forall|u: usize, v: usize| #[trigger] linked(a1, u, v) <==> (linked(a0, u, v) || (u != v
            && w.contains(u) && w.contains(v))) by {
            if u != v && w.contains(u) && w.contains(v) {
                assert(w.take(w.len() as int).contains(u));
            }
        }
    }
    for a in 0..writers.len()
        invariant
            adj.len() == n,
            n == a0.len(),
            w == writers@,
            r == readers@,
            forall|i: int| 0 <= i < w.len() ==> #[trigger] w[i] < n,
            forall|i: int| 0 <= i < r.len() ==> #[trigger] r[i] < n,
            rows_increasing(rows(adj@)),
            forall|u: usize, v: usize|
                #[trigger] linked(rows(adj@), u, v) <==> (linked(a1, u, v) || (u != v && ((w.take(
                    a as int,
                ).contains(u) && r.contains(v)) || (w.take(a as int).contains(v) && r.contains(u))))),
    {
        let wa = writers[a];
        for b in 0..readers.len()
            invariant
                adj.len() == n,
                n == a0.len(),
                w == writers@,
                r == readers@,
                wa == w[a as int],
                a < w.len(),
                forall|i: int| 0 <= i < w.len() ==> #[trigger] w[i] < n,
                forall|i: int| 0 <= i < r.len() ==> #[trigger] r[i] < n,
                rows_increasing(rows(adj@)),
                forall|u: usize, v: usize|
                    #[trigger] linked(rows(adj@), u, v) <==> (linked(a1, u, v) || (u != v && ((w.take(
                        a as int,
                    ).contains(u) && r.contains(v)) || (w.take(a as int).contains(v) && r.contains(u))))
                        || (u != v && ((u == wa && r.take(b as int).contains(v)) || (v == wa && r.take(
                        b as int,
                    ).contains(u))))),
        {
            let rb = readers[b];
            let ghost before = rows(adj@);
            if wa != rb {
                add_edge(adj, wa, rb);
            }
            proof {
                let t0 = r.take(b as int);
                let t1 = r.take(b + 1);
                assert(t1 =~= t0.push(rb));
                assert forall|x: usize| t1.contains(x) <==> (t0.contains(x) || x == rb) by {
                    if t1.contains(x) {
                        let p = choose|p: int| 0 <= p < t1.len() && t1[p] == x;
                        if p < b {
                            assert(t0[p] == x);
                        }
                    }
                    if t0.contains(x) {
                        let p = choose|p: int| 0 <= p < t0.len() && t0[p] == x;
                        assert(t1[p] == x);
                    }
                    if x == rb {
                        assert(t1[b as int] == x);
                    }
                }
                assert forall|u: usize, v: usize| #[trigger] linked(rows(adj@), u, v) <==> (linked(a1, u, v)
                    || (u != v && ((w.take(a as int).contains(u) && r.contains(v)) || (w.take(a as int).contains(
                    v,
                ) && r.contains(u)))) || (u != v && ((u == wa && t1.contains(v)) || (v == wa && t1.contains(
                    u,
                ))))) by {
                    if (u == wa && v == rb) || (u == rb && v == wa) {
                        assert(r[b as int] == rb);
                        assert(r.contains(rb));
                    }
                }
            }
        }
        proof {
            let take0 = w.take(a as int);
            let take1 = w.take(a + 1);
            assert(take1 =~= take0.push(wa));
            assert forall|x: usize| take1.contains(x) <==> (take0.contains(x) || x == wa) by {
                if take1.contains(x) {
                    let p = choose|p: int| 0 <= p < take1.len() && take1[p] == x;
                    if p < a {
                        assert(take0[p] == x);
                    }
                }
                if take0.contains(x) {
                    let p = choose|p: int| 0 <= p < take0.len() && take0[p] == x;
                    assert(take1[p] == x);
                }
                if x == wa {
                    assert(take1[a as int] == x);
                }
            }
            assert(r.take(r.len() as int) =~= r);
        }
    }
    proof {
        assert(w.take(w.len() as int) =~= w);
    }
}


/// One key of the per-key index: the transactions that write it and the
/// transactions that only read it, each in index order.
struct KeyUse {
    key: LedgerKey,
    writers: Vec<usize>,
    readers: Vec<usize>,
}

/// No two index entries are for the same key.
spec fn unique_keys(idx: Seq<KeyUse>) -> bool {
    forall|e1: int, e2: int|
        0 <= e1 < idx.len() && 0 <= e2 < idx.len() && e1 != e2 ==> #[trigger] idx[e1].key@
            != #[trigger] idx[e2].key@
}

/// Some entry of the index is for `m`.
spec fn has_entry(idx: Seq<KeyUse>, m: KeyModel) -> bool {
    exists|e: int| 0 <= e < idx.len() && #[trigger] idx[e].key@ == m
}

/// The shape every index entry keeps: increasing lists of indices no
/// greater than `bound`.
spec fn entries_bounded(idx: Seq<KeyUse>, bound: usize) -> bool {
    &&& forall|e: int| 0 <= e < idx.len() ==> increasing(#[trigger] idx[e].writers@)
    &&& forall|e: int| 0 <= e < idx.len() ==> increasing(#[trigger] idx[e].readers@)
    &&& forall|e: int, i: usize|
        0 <= e < idx.len() && #[trigger] idx[e].writers@.contains(i) ==> i <= bound
    &&& forall|e: int, i: usize|
        0 <= e < idx.len() && #[trigger] idx[e].readers@.contains(i) ==> i <= bound
}

/// Pushes `txn` onto an increasing list whose elements are at most `txn`,
/// unless it is already last.
fn push_index(v: &mut Vec<usize>, txn: usize)
    requires
        increasing(old(v)@),
        forall|i: usize| #[trigger] old(v)@.contains(i) ==> i <= txn,
    ensures
        increasing(final(v)@),
        forall|i: usize| #[trigger] final(v)@.contains(i) <==> (old(v)@.contains(i) || i == txn),
{
    let len = v.len();
    if len > 0 && v[len - 1] == txn {
        return;
    }
    let ghost before = v@;
    proof {
        if len > 0 {
            assert(before.contains(before[len - 1]));
        }
    }
    v.push(txn);
    proof {
        assert forall|a: int, b: int| 0 <= a < b < v@.len() implies #[trigger] v@[a] < #[trigger] v@[b] by {
            if b == len {
                assert(before.contains(before[a]));
                if a < len - 1 {
                    assert(before[a] < before[len - 1]);
                }
            } else {
                assert(v@[a] == before[a] && v@[b] == before[b]);
            }
        }
        assert forall|i: usize| #[trigger] v@.contains(i) <==> (before.contains(i) || i == txn) by {
            if v@.contains(i) {
                let p = choose|p: int| 0 <= p < v@.len() && v@[p] == i;
                if p < len {
                    assert(before[p] == i);
                }
            }
            if before.contains(i) {
                let p = choose|p: int| 0 <= p < before.len() && before[p] == i;
                assert(v@[p] == i);
            }
            if i == txn {
                assert(v@[len as int] == i);
            }
        }
    }
}

/// Records an access by transaction `txn` to `key` in the index, adding an
/// entry for the key when it has none.
fn note_access(idx: &mut Vec<KeyUse>, key: &LedgerKey, txn: usize, write: bool)
    requires
        unique_keys(old(idx)@),
        entries_bounded(old(idx)@, txn),
    ensures
        unique_keys(final(idx)@),
        entries_bounded(final(idx)@, txn),
        final(idx)@.len() >= old(idx)@.len(),
        forall|e: int| 0 <= e < old(idx)@.len() ==> #[trigger] final(idx)@[e].key@ == old(idx)@[e].key@,
        forall|e: int| old(idx)@.len() <= e < final(idx)@.len() ==> #[trigger] final(idx)@[e].key@ == key@,
        forall|e: int, i: usize|
            0 <= e < final(idx)@.len() ==> (#[trigger] final(idx)@[e].writers@.contains(i) <==> ((e
                < old(idx)@.len() && old(idx)@[e].writers@.contains(i)) || (write && final(idx)@[e].key@
                == key@ && i == txn))),
        forall|e: int, i: usize|
            0 <= e < final(idx)@.len() ==> (#[trigger] final(idx)@[e].readers@.contains(i) <==> ((e
                < old(idx)@.len() && old(idx)@[e].readers@.contains(i)) || (!write && final(idx)@[e].key@
                == key@ && i == txn))),
        has_entry(final(idx)@, key@),
{
    let ghost before = idx@;
    let mut e: usize = 0;
    while e < idx.len()
        invariant
            e <= idx.len(),
            idx@ == before,
            before == old(idx)@,
            entries_bounded(before, txn),
            unique_keys(before),
            forall|j: int| 0 <= j < e ==> #[trigger] before[j].key@ != key@,
        decreases idx.len() - e,
    {
        if idx[e].key.same_as(key) {
            proof {
                assert(increasing(before[e as int].writers@));
                assert(increasing(before[e as int].readers@));
            }
            if write {
                push_index(&mut idx[e].writers, txn);
            } else {
                push_index(&mut idx[e].readers, txn);
            }
            proof {
                let after = idx@;
                assert forall|j: int| 0 <= j < after.len() && j != e implies #[trigger] after[j] == before[j] by {}
                assert(after[e as int].key == before[e as int].key);
                assert(has_entry(after, key@)) by {
                    assert(after[e as int].key@ == key@);
                }
                assert forall|j: int, i: usize| 0 <= j < after.len() && #[trigger] after[j].writers@.contains(i) implies i <= txn by {
                    if j != e {
                        assert(before[j].writers@.contains(i));
                    }
                }
                assert forall|j: int, i: usize| 0 <= j < after.len() && #[trigger] after[j].readers@.contains(i) implies i <= txn by {
                    if j != e {
                        assert(before[j].readers@.contains(i));
                    }
                }
                assert forall|j: int| 0 <= j < after.len() implies increasing(#[trigger] after[j].writers@) by {
                    if j != e {
                        assert(increasing(before[j].writers@));
                    }
                }
                assert forall|j: int| 0 <= j < after.len() implies increasing(#[trigger] after[j].readers@) by {
                    if j != e {
                        assert(increasing(before[j].readers@));
                    }
                }
                assert forall|j: int, i: usize| 0 <= j < after.len() implies (#[trigger] after[j].writers@.contains(i) <==> ((j
                    < before.len() && before[j].writers@.contains(i)) || (write && after[j].key@ == key@
                    && i == txn))) by {
                    if j != e && after[j].key@ == key@ {
                        assert(before[j].key@ != before[e as int].key@);
                    }
                }
                assert forall|j: int, i: usize| 0 <= j < after.len() implies (#[trigger] after[j].readers@.contains(i) <==> ((j
                    < before.len() && before[j].readers@.contains(i)) || (!write && after[j].key@ == key@
                    && i == txn))) by {
                    if j != e && after[j].key@ == key@ {
                        assert(before[j].key@ != before[e as int].key@);
                    }
                }
                assert forall|e1: int, e2: int| 0 <= e1 < after.len() && 0 <= e2 < after.len() && e1 != e2 implies #[trigger] after[e1].key@
                    != #[trigger] after[e2].key@ by {
                    assert(before[e1].key@ != before[e2].key@);
                }
            }
            return;
        }
        e = e + 1;
    }
    let mut writers: Vec<usize> = Vec::new();
    let mut readers: Vec<usize> = Vec::new();
    if write {
        writers.push(txn);
    } else {
        readers.push(txn);
    }
    idx.push(KeyUse { key: key.duplicate(), writers, readers });
    proof {
        let after = idx@;
        let n = before.len();
        assert(after[n as int].key@ == key@);
        assert(has_entry(after, key@));
        assert forall|j: int| 0 <= j < n implies #[trigger] after[j] == before[j] by {}
        assert forall|e1: int, e2: int| 0 <= e1 < after.len() && 0 <= e2 < after.len() && e1 != e2 implies #[trigger] after[e1].key@
            != #[trigger] after[e2].key@ by {
            if e1 < n && e2 < n {
                assert(before[e1].key@ != before[e2].key@);
            }
        }
        assert forall|j: int, i: usize| 0 <= j < after.len() && #[trigger] after[j].writers@.contains(i) implies i <= txn by {
            if j < n {
                assert(before[j].writers@.contains(i));
            } else {
                let p = choose|p: int| 0 <= p < after[j].writers@.len() && after[j].writers@[p] == i;
            }
        }
        assert forall|j: int, i: usize| 0 <= j < after.len() && #[trigger] after[j].readers@.contains(i) implies i <= txn by {
            if j < n {
                assert(before[j].readers@.contains(i));
            } else {
                let p = choose|p: int| 0 <= p < after[j].readers@.len() && after[j].readers@[p] == i;
            }
        }
        assert forall|j: int| 0 <= j < after.len() implies increasing(#[trigger] after[j].writers@) by {
            if j < n {
                assert(increasing(before[j].writers@));
            }
        }
        assert forall|j: int| 0 <= j < after.len() implies increasing(#[trigger] after[j].readers@) by {
            if j < n {
                assert(increasing(before[j].readers@));
            }
        }
        assert forall|j: int, i: usize| 0 <= j < after.len() implies (#[trigger] after[j].writers@.contains(i) <==> ((j
            < before.len() && before[j].writers@.contains(i)) || (write && after[j].key@ == key@
            && i == txn))) by {
            if j == n && write && i == txn {
                assert(after[j].writers@[0] == i);
            }
            if j < n && after[j].key@ == key@ {
                assert(before[j].key@ != key@);
            }
        }
        assert forall|j: int, i: usize| 0 <= j < after.len() implies (#[trigger] after[j].readers@.contains(i) <==> ((j
            < before.len() && before[j].readers@.contains(i)) || (!write && after[j].key@ == key@
            && i == txn))) by {
            if j == n && !write && i == txn {
                assert(after[j].readers@[0] == i);
            }
            if j < n && after[j].key@ == key@ {
                assert(before[j].key@ != key@);
            }
        }
    }
}


/// The index reflects the accesses of transactions `0..p`, plus the writes
/// in `ws` and the reads in `rs` of transaction `p`.
spec fn index_state(
    idx: Seq<KeyUse>,
    fps: Seq<TransactionFootprint>,
    p: int,
    ws: Set<KeyModel>,
    rs: Set<KeyModel>,
) -> bool {
    &&& 0 <= p <= fps.len()
    &&& p <= usize::MAX
    &&& unique_keys(idx)
    &&& entries_bounded(idx, p as usize)
    &&& forall|e: int, i: usize|
        0 <= e < idx.len() ==> (#[trigger] idx[e].writers@.contains(i) <==> ((i < p && fps[i as int].rw().contains(
            idx[e].key@,
        )) || (i == p && ws.contains(idx[e].key@))))
    &&& forall|e: int, i: usize|
        0 <= e < idx.len() ==> (#[trigger] idx[e].readers@.contains(i) <==> ((i < p && fps[i as int].ro().contains(
            idx[e].key@,
        )) || (i == p && rs.contains(idx[e].key@))))
    &&& forall|i: int, m: KeyModel|
        0 <= i < p && #[trigger] fps[i].touched().contains(m) ==> has_entry(idx, m)
    &&& forall|m: KeyModel| ws.contains(m) ==> has_entry(idx, m)
    &&& forall|m: KeyModel| rs.contains(m) ==> has_entry(idx, m)
}

/// Recording one access keeps the index in step with the footprints.
proof fn lemma_index_step(
    before: Seq<KeyUse>,
    after: Seq<KeyUse>,
    fps: Seq<TransactionFootprint>,
    p: int,
    ws: Set<KeyModel>,
    rs: Set<KeyModel>,
    k: KeyModel,
    write: bool,
)
    requires
        index_state(before, fps, p, ws, rs),
        p < fps.len(),
        unique_keys(after),
        entries_bounded(after, p as usize),
        after.len() >= before.len(),
        forall|e: int| 0 <= e < before.len() ==> #[trigger] after[e].key@ == before[e].key@,
        forall|e: int| before.len() <= e < after.len() ==> #[trigger] after[e].key@ == k,
        forall|e: int, i: usize|
            0 <= e < after.len() ==> (#[trigger] after[e].writers@.contains(i) <==> ((e < before.len()
                && before[e].writers@.contains(i)) || (write && after[e].key@ == k && i == p))),
        forall|e: int, i: usize|
            0 <= e < after.len() ==> (#[trigger] after[e].readers@.contains(i) <==> ((e < before.len()
                && before[e].readers@.contains(i)) || (!write && after[e].key@ == k && i == p))),
        has_entry(after, k),
    ensures
        index_state(after, fps, p, if write { ws.insert(k) } else { ws }, if write { rs } else { rs.insert(k) }),
{
    let ws2 = if write { ws.insert(k) } else { ws };
    let rs2 = if write { rs } else { rs.insert(k) };
    assert forall|m: KeyModel| has_entry(before, m) implies has_entry(after, m) by {
        let e = choose|e: int| 0 <= e < before.len() && #[trigger] before[e].key@ == m;
        assert(after[e].key@ == m);
    }
    // A new entry is for a key that had no entry before.
    assert forall|e: int| before.len() <= e < after.len() implies !has_entry(before, #[trigger] after[e].key@) by {
        if has_entry(before, after[e].key@) {
            let e2 = choose|e2: int| 0 <= e2 < before.len() && #[trigger] before[e2].key@ == after[e].key@;
            assert(after[e2].key@ == after[e].key@);
        }
    }
    assert forall|e: int, i: usize| 0 <= e < after.len() implies (#[trigger] after[e].writers@.contains(i) <==> ((i < p
        && fps[i as int].rw().contains(after[e].key@)) || (i == p && ws2.contains(after[e].key@)))) by {
        if e >= before.len() {
            assert(!has_entry(before, after[e].key@));
            if i < p && fps[i as int].rw().contains(after[e].key@) {
                assert(fps[i as int].touched().contains(after[e].key@));
            }
        }
    }
    assert forall|e: int, i: usize| 0 <= e < after.len() implies (#[trigger] after[e].readers@.contains(i) <==> ((i < p
        && fps[i as int].ro().contains(after[e].key@)) || (i == p && rs2.contains(after[e].key@)))) by {
        if e >= before.len() {
            assert(!has_entry(before, after[e].key@));
            if i < p && fps[i as int].ro().contains(after[e].key@) {
                assert(fps[i as int].touched().contains(after[e].key@));
            }
        }
    }
}

/// Builds the conflict graph over an ordered list of footprints.
///
/// Uses a per-key index: every key maps to the transactions that write it and
/// the transactions that only read it. Edges are emitted as write/write pairs
/// within a key's writers and write/read pairs between a key's writers and
/// readers; each neighbor list is kept increasing and free of repeats.
pub fn build_conflict_graph(footprints: &[TransactionFootprint]) -> (r: ConflictGraph)
    ensures
        is_conflict_graph(r@, footprints@),
{
    let n = footprints.len();
    let ghost fps = footprints@;
    let mut idx: Vec<KeyUse> = Vec::new();
    proof {
        assert forall|e: int, i: usize| 0 <= e < idx@.len() && #[trigger] idx@[e].writers@.contains(i) implies i <= 0 by {}
    }
    for p in 0..n
        invariant
            n == fps.len(),
            fps == footprints@,
            index_state(idx@, fps, p as int, Set::empty(), Set::empty()),
    {
        let fp = &footprints[p];
        for q in 0..fp.read_write.len()
            invariant
                n == fps.len(),
                p < n,
                fp == fps[p as int],
                index_state(idx@, fps, p as int, crate::keyset::key_set(fp.read_write@.take(q as int)), Set::empty()),
        {
            let ghost before = idx@;
            let ghost ws = crate::keyset::key_set(fp.read_write@.take(q as int));
            note_access(&mut idx, &fp.read_write[q], p, true);
            proof {
                lemma_index_step(before, idx@, fps, p as int, ws, Set::empty(), fp.read_write@[q as int]@, true);
                assert(fp.read_write@.take(q + 1) =~= fp.read_write@.take(q as int).push(fp.read_write@[q as int]));
                crate::keyset::lemma_key_set_push(fp.read_write@.take(q as int), fp.read_write@[q as int]);
            }
        }
        proof {
            assert(fp.read_write@.take(fp.read_write@.len() as int) =~= fp.read_write@);
        }
        for q in 0..fp.read_only.len()
            invariant
                n == fps.len(),
                p < n,
                fp == fps[p as int],
                index_state(idx@, fps, p as int, fp.rw(), crate::keyset::key_set(fp.read_only@.take(q as int))),
        {
            let ghost before = idx@;
            let ghost rs = crate::keyset::key_set(fp.read_only@.take(q as int));
            note_access(&mut idx, &fp.read_only[q], p, false);
            proof {
                lemma_index_step(before, idx@, fps, p as int, fp.rw(), rs, fp.read_only@[q as int]@, false);
                assert(fp.read_only@.take(q + 1) =~= fp.read_only@.take(q as int).push(fp.read_only@[q as int]));
                crate::keyset::lemma_key_set_push(fp.read_only@.take(q as int), fp.read_only@[q as int]);
            }
        }
        proof {
            assert(fp.read_only@.take(fp.read_only@.len() as int) =~= fp.read_only@);
            let ix = idx@;
            assert forall|e: int, i: usize| 0 <= e < ix.len() && #[trigger] ix[e].writers@.contains(i) implies i <= p + 1 by {}
            assert forall|e: int, i: usize| 0 <= e < ix.len() && #[trigger] ix[e].readers@.contains(i) implies i <= p + 1 by {}
            assert forall|i: int, m: KeyModel| 0 <= i < p + 1 && #[trigger] fps[i].touched().contains(m) implies has_entry(ix, m) by {
                if i == p {
                    assert(fp.rw().contains(m) || fp.ro().contains(m));
                }
            }
        }
    }
    // Emit the edges key by key.
    let mut adj: Vec<Vec<usize>> = Vec::new();
    for i in 0..n
        invariant
            adj@.len() == i,
            forall|u: int| 0 <= u < i ==> (#[trigger] adj@[u])@.len() == 0,
    {
        adj.push(Vec::new());
    }
    proof {
        assert forall|u: int| 0 <= u < rows(adj@).len() implies increasing(#[trigger] rows(adj@)[u]) by {}
        assert forall|u: usize, v: usize| !#[trigger] linked(rows(adj@), u, v) by {}
    }
    let ghost ix = idx@;
    for e in 0..idx.len()
        invariant
            n == fps.len(),
            ix == idx@,
            index_state(ix, fps, n as int, Set::empty(), Set::empty()),
            adj@.len() == n,
            rows_increasing(rows(adj@)),
            forall|u: usize, v: usize|
                #[trigger] linked(rows(adj@), u, v) <==> exists|e2: int|
                    0 <= e2 < e && key_pair(#[trigger] ix[e2].writers@, ix[e2].readers@, u, v),
    {
        let entry = &idx[e];
        proof {
            assert(increasing(ix[e as int].writers@));
            assert forall|i: int| 0 <= i < entry.writers@.len() implies #[trigger] entry.writers@[i] < adj@.len() by {
                assert(entry.writers@.contains(entry.writers@[i]));
            }
            assert forall|i: int| 0 <= i < entry.readers@.len() implies #[trigger] entry.readers@[i] < adj@.len() by {
                assert(entry.readers@.contains(entry.readers@[i]));
            }
        }
        let ghost before = rows(adj@);
        link_key(&mut adj, &entry.writers, &entry.readers);
        proof {
            assert forall|u: usize, v: usize| #[trigger] linked(rows(adj@), u, v) <==> exists|e2: int|
                0 <= e2 < e + 1 && key_pair(#[trigger] ix[e2].writers@, ix[e2].readers@, u, v) by {
                if key_pair(ix[e as int].writers@, ix[e as int].readers@, u, v) {
                    assert(0 <= e < e + 1);
                }
                if linked(before, u, v) {
                    let e2 = choose|e2: int| 0 <= e2 < e && key_pair(#[trigger] ix[e2].writers@, ix[e2].readers@, u, v);
                    assert(0 <= e2 < e + 1);
                }
            }
        }
    }
    let graph = ConflictGraph { adjacency: adj };
    proof {
        let g = graph@;
        assert forall|u: int, v: usize| 0 <= u < g.len() implies (#[trigger] g[u].contains(v) <==> (v < fps.len() && v != u
            && conflicts(fps[u], fps[v as int]))) by {
            let uu = u as usize;
            assert(linked(g, uu, v) == g[u].contains(v));
            if g[u].contains(v) {
                let e2 = choose|e2: int| 0 <= e2 < ix.len() && key_pair(#[trigger] ix[e2].writers@, ix[e2].readers@, uu, v);
                let m = ix[e2].key@;
                assert(ix[e2].writers@.contains(uu) ==> fps[u].rw().contains(m));
                assert(ix[e2].readers@.contains(uu) ==> fps[u].ro().contains(m));
                assert(ix[e2].writers@.contains(v) ==> (v < n && fps[v as int].rw().contains(m)));
                assert(ix[e2].readers@.contains(v) ==> (v < n && fps[v as int].ro().contains(m)));
                assert(conflict_set(fps[u], fps[v as int]).contains(m));
            }
            if v < fps.len() && v != u && conflicts(fps[u], fps[v as int]) {
                let m = conflict_set(fps[u], fps[v as int]).choose();
                assert(fps[u].touched().contains(m));
                let e2 = choose|e2: int| 0 <= e2 < ix.len() && #[trigger] ix[e2].key@ == m;
                assert(ix[e2].writers@.contains(uu) == fps[u].rw().contains(m));
                assert(ix[e2].readers@.contains(uu) == fps[u].ro().contains(m));
                assert(ix[e2].writers@.contains(v) == fps[v as int].rw().contains(m));
                assert(ix[e2].readers@.contains(v) == fps[v as int].ro().contains(m));
                assert(key_pair(ix[e2].writers@, ix[e2].readers@, uu, v));
            }
        }
    }
    graph
}


/// A set of transactions executed in the same stage. Members are indices into
/// the input transaction list.
#[derive(Debug, Clone, PartialEq, Eq)]
pub struct Cluster {
    pub txns: Vec<usize>,
}

impl Cluster {
    /// The stage's width: how many transactions execute in parallel.
    pub fn width(&self) -> (r: usize)
        ensures
            r == self.txns@.len(),
    {
        self.txns.len()
    }
}

/// A schedule: an ordered list of clusters, one per stage.
#[derive(Debug, Clone, Default, PartialEq, Eq)]
pub struct Schedule {
    pub stages: Vec<Cluster>,
}

/// The member lists of a sequence of clusters.
pub open spec fn members(s: Seq<Cluster>) -> Seq<Seq<usize>> {
    s.map_values(|c: Cluster| c.txns@)
}

impl View for Schedule {
    type V = Seq<Seq<usize>>;

    open spec fn view(&self) -> Seq<Seq<usize>> {
        members(self.stages@)
    }
}

/// No member of `stage` is listed in `nbrs`.
pub open spec fn compatible(stage: Seq<usize>, nbrs: Seq<usize>) -> bool {
    forall|k: int| 0 <= k < stage.len() ==> !nbrs.contains(#[trigger] stage[k])
}

/// The first stage, from `from` on, that has no member in `nbrs`; the number
/// of stages when there is none.
pub open spec fn first_fit(stages: Seq<Seq<usize>>, nbrs: Seq<usize>, from: int) -> int
    decreases stages.len() - from,
{
    if from >= stages.len() || from < 0 {
        stages.len() as int
    } else if compatible(stages[from], nbrs) {
        from
    } else {
        first_fit(stages, nbrs, from + 1)
    }
}

/// Places `txn` in the earliest stage with no member among its neighbors, or
/// in a new last stage.
pub open spec fn place(stages: Seq<Seq<usize>>, txn: usize, nbrs: Seq<usize>) -> Seq<Seq<usize>> {
    let s = first_fit(stages, nbrs, 0);
    if s < stages.len() {
        stages.update(s, stages[s].push(txn))
    } else {
        stages.push(seq![txn])
    }
}

/// The greedy schedule of the first `k` transactions of a graph, each placed
/// in index order.
pub open spec fn greedy_stages(adj: Seq<Seq<usize>>, k: nat) -> Seq<Seq<usize>>
    decreases k,
{
    if k == 0 {
        Seq::empty()
    } else {
        place(greedy_stages(adj, (k - 1) as nat), (k - 1) as usize, adj[k - 1])
    }
}

/// Whether no member of `stage` is listed in `nbrs`.
fn compatible_exec(stage: &Vec<usize>, nbrs: &Vec<usize>) -> (r: bool)
    ensures
        r == compatible(stage@, nbrs@),
{
    for k in 0..stage.len()
        invariant
            forall|j: int| 0 <= j < k ==> !nbrs@.contains(#[trigger] stage@[j]),
    {
        let member = stage[k];
        for m in 0..nbrs.len()
            invariant
                k < stage@.len(),
                member == stage@[k as int],
                forall|j: int| 0 <= j < m ==> nbrs@[j] != member,
        {
            if nbrs[m] == member {
                assert(nbrs@[m as int] == member);
                assert(nbrs@.contains(stage@[k as int]));
                return false;
            }
        }
    }
    true
}

proof fn lemma_first_fit_skip(stages: Seq<Seq<usize>>, nbrs: Seq<usize>, s: int)
    requires
        0 <= s < stages.len(),
        !compatible(stages[s], nbrs),
    ensures
        first_fit(stages, nbrs, s) == first_fit(stages, nbrs, s + 1),
{
}

/// Assigns every transaction to the earliest stage in which it conflicts with
/// no existing member (deterministic greedy coloring in index order).
pub fn greedy_schedule(graph: &ConflictGraph) -> (r: Schedule)
    ensures
        r@ == greedy_stages(graph@, graph@.len()),
{
    let n = graph.order();
    let mut stages: Vec<Cluster> = Vec::new();
    proof {
        assert(members(stages@) =~= greedy_stages(graph@, 0));
    }
    for txn in 0..n
        invariant
            n == graph@.len(),
            members(stages@) == greedy_stages(graph@, txn as nat),
    {
        let nbrs = &graph.adjacency[txn];
        let ghost g = members(stages@);
        assert(nbrs@ == graph@[txn as int]);
        let mut s: usize = 0;
        while s < stages.len()
            invariant
                s <= stages.len(),
                g == members(stages@),
                first_fit(g, nbrs@, 0) == first_fit(g, nbrs@, s as int),
            ensures
                s <= stages.len(),
                first_fit(g, nbrs@, 0) == s,
            decreases stages.len() - s,
        {
            if compatible_exec(&stages[s].txns, nbrs) {
                break;
            }
            proof {
                lemma_first_fit_skip(g, nbrs@, s as int);
            }
            s = s + 1;
        }
        let ghost before = stages@;
        if s < stages.len() {
            stages[s].txns.push(txn);
            proof {
                assert(stages@ == before.update(s as int, stages@[s as int]));
                assert(members(stages@) =~= g.update(s as int, g[s as int].push(txn)));
            }
        } else {
            let mut fresh: Vec<usize> = Vec::new();
            fresh.push(txn);
            stages.push(Cluster { txns: fresh });
            proof {
                assert(fresh@ =~= seq![txn]);
                assert(members(stages@) =~= g.push(seq![txn]));
            }
        }
        proof {
            let expect = greedy_stages(graph@, (txn + 1) as nat);
            assert(expect == place(g, txn, graph@[txn as int]));
        }
    }
    Schedule { stages }
}


/// The members of all stages, stage after stage.
pub open spec fn flatten(stages: Seq<Seq<usize>>) -> Seq<usize>
    decreases stages.len(),
{
    if stages.len() == 0 {
        Seq::empty()
    } else {
        flatten(stages.drop_last()) + stages.last()
    }
}

/// Every transaction `0..n` is scheduled exactly once, and nothing else is.
pub open spec fn complete(stages: Seq<Seq<usize>>, n: int) -> bool {
    &&& flatten(stages).no_duplicates()
    &&& forall|x: usize| #[trigger] flatten(stages).contains(x) <==> x < n
}

/// No stage holds two transactions whose footprints conflict.
pub open spec fn conflict_free(stages: Seq<Seq<usize>>, fps: Seq<TransactionFootprint>) -> bool {
    forall|s: int, i: int, j: int|
        0 <= s < stages.len() && 0 <= i < j < stages[s].len() ==> !conflicts(
            fps[#[trigger] stages[s][i] as int],
            fps[#[trigger] stages[s][j] as int],
        )
}

/// The stages partition `0..k`: each stage increasing, no transaction in two
/// stages, and exactly the transactions below `k` scheduled.
pub open spec fn partitions(stages: Seq<Seq<usize>>, k: int) -> bool {
    &&& forall|s: int| 0 <= s < stages.len() ==> increasing(#[trigger] stages[s])
    &&& forall|s1: int, s2: int, x: usize|
        0 <= s1 < stages.len() && 0 <= s2 < stages.len() && s1 != s2 && #[trigger] stages[s1].contains(x)
            ==> !#[trigger] stages[s2].contains(x)
    &&& forall|x: usize| #[trigger] scheduled(stages, x) <==> x < k
}

/// Some stage holds `x`.
pub open spec fn scheduled(stages: Seq<Seq<usize>>, x: usize) -> bool {
    exists|s: int| 0 <= s < stages.len() && #[trigger] stages[s].contains(x)
}

/// Within a stage, no later member lists an earlier member as a neighbor.
pub open spec fn respects(stages: Seq<Seq<usize>>, adj: Seq<Seq<usize>>) -> bool {
    forall|s: int, i: int, j: int|
        0 <= s < stages.len() && 0 <= i < j < stages[s].len() ==> !adj[#[trigger] stages[s][j] as int].contains(
            #[trigger] stages[s][i],
        )
}

proof fn lemma_first_fit(stages: Seq<Seq<usize>>, nbrs: Seq<usize>, from: int)
    requires
        0 <= from,
    ensures
        first_fit(stages, nbrs, from) >= from || first_fit(stages, nbrs, from) == stages.len(),
        first_fit(stages, nbrs, from) <= stages.len(),
        first_fit(stages, nbrs, from) < stages.len() ==> compatible(
            stages[first_fit(stages, nbrs, from)],
            nbrs,
        ),
    decreases stages.len() - from,
{
    if from < stages.len() && !compatible(stages[from], nbrs) {
        lemma_first_fit(stages, nbrs, from + 1);
    }
}

/// The greedy stages partition the transactions placed so far and never put
/// a transaction beside one of its neighbors.
pub proof fn lemma_greedy_valid(adj: Seq<Seq<usize>>, k: nat)
    requires
        k <= adj.len(),
        k <= usize::MAX + 1,
    ensures
        partitions(greedy_stages(adj, k), k as int),
        respects(greedy_stages(adj, k), adj),
    decreases k,
{
    if k == 0 {
        let g = greedy_stages(adj, 0);
        assert(g.len() == 0);
    } else {
        let t = (k - 1) as usize;
        lemma_greedy_valid(adj, (k - 1) as nat);
        let g = greedy_stages(adj, (k - 1) as nat);
        let nbrs = adj[k - 1];
        let s = first_fit(g, nbrs, 0);
        lemma_first_fit(g, nbrs, 0);
        let g2 = greedy_stages(adj, k);
        assert(g2 == place(g, t, nbrs));
        // Every member of the old stages is below t.
        assert forall|q: int, x: usize| 0 <= q < g.len() && #[trigger] g[q].contains(x) implies x < t by {
            assert(scheduled(g, x));
        }
        if s < g.len() {
            assert(g2 == g.update(s, g[s].push(t)));
            let old_stage = g[s];
            let new_stage = old_stage.push(t);
            assert forall|x: usize| #[trigger] new_stage.contains(x) <==> (old_stage.contains(x) || x == t) by {
                if new_stage.contains(x) {
                    let p = choose|p: int| 0 <= p < new_stage.len() && new_stage[p] == x;
                    if p < old_stage.len() {
                        assert(old_stage[p] == x);
                    }
                }
                if old_stage.contains(x) {
                    let p = choose|p: int| 0 <= p < old_stage.len() && old_stage[p] == x;
                    assert(new_stage[p] == x);
                }
                if x == t {
                    assert(new_stage[old_stage.len() as int] == x);
                }
            }
            assert forall|q: int| 0 <= q < g2.len() implies increasing(#[trigger] g2[q]) by {
                if q == s {
                    assert forall|a: int, b: int| 0 <= a < b < new_stage.len() implies #[trigger] new_stage[a]
                        < #[trigger] new_stage[b] by {
                        if b == old_stage.len() {
                            assert(old_stage.contains(old_stage[a]));
                        } else {
                            assert(increasing(g[s]));
                        }
                    }
                } else {
                    assert(increasing(g[q]));
                }
            }
            assert forall|s1: int, s2: int, x: usize| 0 <= s1 < g2.len() && 0 <= s2 < g2.len() && s1 != s2
                && #[trigger] g2[s1].contains(x) implies !#[trigger] g2[s2].contains(x) by {
                if s1 != s && s2 != s {
                    assert(!g[s2].contains(x));
                } else if s1 == s {
                    if x == t {
                        assert(!g[s2].contains(x));
                    } else {
                        assert(g[s1].contains(x));
                    }
                } else {
                    if g2[s2].contains(x) {
                        if x != t {
                            assert(g[s2].contains(x));
                        }
                    }
                }
            }
            assert forall|x: usize| #[trigger] scheduled(g2, x) <==> x < k by {
                if exists|q: int| 0 <= q < g2.len() && #[trigger] g2[q].contains(x) {
                    let q = choose|q: int| 0 <= q < g2.len() && #[trigger] g2[q].contains(x);
                    if q != s || x != t {
                        if q == s {
                            assert(g[q].contains(x));
                        } else {
                            assert(g[q].contains(x));
                        }
                    }
                }
                if x < k {
                    if x == t {
                        assert(g2[s].contains(x));
                    } else {
                        assert(scheduled(g, x));
                        let q = choose|q: int| 0 <= q < g.len() && #[trigger] g[q].contains(x);
                        assert(g2[q].contains(x));
                    }
                }
            }
            assert forall|q: int, i: int, j: int| 0 <= q < g2.len() && 0 <= i < j < g2[q].len() implies !adj[
                #[trigger] g2[q][j] as int].contains(#[trigger] g2[q][i]) by {
                if q == s && j == old_stage.len() {
                    assert(compatible(g[s], nbrs));
                    assert(g2[q][i] == old_stage[i]);
                } else if q == s {
                    assert(g2[q][i] == g[q][i] && g2[q][j] == g[q][j]);
                } else {
                    assert(g2[q] == g[q]);
                }
            }
        } else {
            assert(g2 == g.push(seq![t]));
            let fresh = seq![t];
            assert forall|x: usize| #[trigger] fresh.contains(x) <==> x == t by {
                if fresh.contains(x) {
                    let p = choose|p: int| 0 <= p < fresh.len() && fresh[p] == x;
                }
                if x == t {
                    assert(fresh[0] == x);
                }
            }
            assert forall|q: int| 0 <= q < g2.len() implies increasing(#[trigger] g2[q]) by {
                if q < g.len() {
                    assert(g2[q] == g[q]);
                }
            }
            assert forall|s1: int, s2: int, x: usize| 0 <= s1 < g2.len() && 0 <= s2 < g2.len() && s1 != s2
                && #[trigger] g2[s1].contains(x) implies !#[trigger] g2[s2].contains(x) by {
                if s1 < g.len() && s2 < g.len() {
                    assert(g2[s1] == g[s1] && g2[s2] == g[s2]);
                } else if s1 < g.len() {
                    assert(g2[s1] == g[s1]);
                } else {
                    assert(g2[s2] == g[s2]);
                }
            }
            assert forall|x: usize| #[trigger] scheduled(g2, x) <==> x < k by {
                if exists|q: int| 0 <= q < g2.len() && #[trigger] g2[q].contains(x) {
                    let q = choose|q: int| 0 <= q < g2.len() && #[trigger] g2[q].contains(x);
                    if q < g.len() {
                        assert(g[q].contains(x));
                    }
                }
                if x < k {
                    if x == t {
                        assert(g2[g.len() as int].contains(x));
                    } else {
                        assert(scheduled(g, x));
                        let q = choose|q: int| 0 <= q < g.len() && #[trigger] g[q].contains(x);
                        assert(g2[q].contains(x));
                    }
                }
            }
            assert forall|q: int, i: int, j: int| 0 <= q < g2.len() && 0 <= i < j < g2[q].len() implies !adj[
                #[trigger] g2[q][j] as int].contains(#[trigger] g2[q][i]) by {
                if q < g.len() {
                    assert(g2[q] == g[q]);
                }
            }
        }
    }
}


pub proof fn lemma_flatten(stages: Seq<Seq<usize>>)
    ensures
        forall|x: usize| #[trigger] flatten(stages).contains(x) <==> scheduled(stages, x),
        ((forall|s: int| 0 <= s < stages.len() ==> increasing(#[trigger] stages[s])) && (forall|
            s1: int,
            s2: int,
            x: usize,
        |
            0 <= s1 < stages.len() && 0 <= s2 < stages.len() && s1 != s2 && #[trigger] stages[s1].contains(x)
                ==> !#[trigger] stages[s2].contains(x))) ==> flatten(stages).no_duplicates(),
    decreases stages.len(),
{
    if stages.len() > 0 {
        let init = stages.drop_last();
        let last = stages.last();
        lemma_flatten(init);
        let f0 = flatten(init);
        let f = flatten(stages);
        assert(f == f0 + last);
        assert forall|x: usize| #[trigger] f.contains(x) <==> scheduled(stages, x) by {
            if f.contains(x) {
                let p = choose|p: int| 0 <= p < f.len() && f[p] == x;
                if p < f0.len() {
                    assert(f0.contains(x));
                    let q = choose|q: int| 0 <= q < init.len() && #[trigger] init[q].contains(x);
                    assert(stages[q] == init[q]);
                } else {
                    assert(last[p - f0.len()] == x);
                    assert(stages[stages.len() - 1].contains(x));
                }
            }
            if scheduled(stages, x) {
                let q = choose|q: int| 0 <= q < stages.len() && #[trigger] stages[q].contains(x);
                if q < init.len() {
                    assert(init[q] == stages[q]);
                    assert(scheduled(init, x));
                    assert(f0.contains(x));
                    let p = choose|p: int| 0 <= p < f0.len() && f0[p] == x;
                    assert(f[p] == x);
                } else {
                    let p = choose|p: int| 0 <= p < last.len() && last[p] == x;
                    assert(f[f0.len() + p] == x);
                }
            }
        }
        if (forall|s: int| 0 <= s < stages.len() ==> increasing(#[trigger] stages[s])) && (forall|
            s1: int,
            s2: int,
            x: usize,
        |
            0 <= s1 < stages.len() && 0 <= s2 < stages.len() && s1 != s2 && #[trigger] stages[s1].contains(x)
                ==> !#[trigger] stages[s2].contains(x)) {
            assert forall|s: int| 0 <= s < init.len() implies increasing(#[trigger] init[s]) by {
                assert(init[s] == stages[s]);
            }
            assert forall|s1: int, s2: int, x: usize| 0 <= s1 < init.len() && 0 <= s2 < init.len() && s1
                != s2 && #[trigger] init[s1].contains(x) implies !#[trigger] init[s2].contains(x) by {
                assert(init[s1] == stages[s1] && init[s2] == stages[s2]);
            }
            assert(increasing(stages[stages.len() - 1]));
            assert forall|i: int, j: int| 0 <= i < f.len() && 0 <= j < f.len() && i != j implies f[i] != f[j] by {
                if i >= f0.len() && j >= f0.len() {
                    if i < j {
                        assert(last[i - f0.len()] < last[j - f0.len()]);
                    } else {
                        assert(last[j - f0.len()] < last[i - f0.len()]);
                    }
                } else if i < f0.len() && j < f0.len() {
                } else {
                    let (a, b) = if i < f0.len() { (i, j) } else { (j, i) };
                    if f[a] == f[b] {
                        let x = f[a];
                        assert(f0.contains(x));
                        let q = choose|q: int| 0 <= q < init.len() && #[trigger] init[q].contains(x);
                        assert(stages[q].contains(x));
                        assert(last[b - f0.len()] == x);
                        assert(stages[stages.len() - 1].contains(x));
                    }
                }
            }
        }
    }
}

/// A greedy schedule of a conflict graph schedules every transaction exactly
/// once and never places two conflicting transactions in the same stage.
pub proof fn lemma_greedy_schedule_is_valid(adj: Seq<Seq<usize>>, fps: Seq<TransactionFootprint>)
    requires
        is_conflict_graph(adj, fps),
        adj.len() <= usize::MAX,
    ensures
        complete(greedy_stages(adj, adj.len()), adj.len() as int),
        conflict_free(greedy_stages(adj, adj.len()), fps),
{
    let g = greedy_stages(adj, adj.len());
    lemma_greedy_valid(adj, adj.len());
    lemma_flatten(g);
    assert forall|s: int, i: int, j: int| 0 <= s < g.len() && 0 <= i < j < g[s].len() implies !conflicts(
        fps[#[trigger] g[s][i] as int],
        fps[#[trigger] g[s][j] as int],
    ) by {
        let a = g[s][i];
        let b = g[s][j];
        assert(g[s].contains(a) && g[s].contains(b));
        assert(scheduled(g, a) && scheduled(g, b));
        assert(increasing(g[s]));
        assert(!adj[b as int].contains(a));
        crate::footprint::lemma_conflict_rule(fps[a as int], fps[b as int], (0int, Seq::<char>::empty(), Seq::<char>::empty()));
    }
}

impl Schedule {
    /// Number of stages (the parallel span of the schedule).
    pub fn stage_count(&self) -> (r: usize)
        ensures
            r == self@.len(),
    {
        self.stages.len()
    }

    /// Total number of transactions scheduled.
    pub fn transaction_count(&self) -> (r: usize)
        requires
            total_len(self@) <= usize::MAX,
        ensures
            r == total_len(self@),
    {
        let mut sum: usize = 0;
        for i in 0..self.stages.len()
            invariant
                sum == total_len(self@.take(i as int)),
                total_len(self@) <= usize::MAX,
        {
            proof {
                lemma_total_len_prefix(self@, i as int + 1);
                lemma_total_len_step(self@, i as int);
            }
            sum = sum + self.stages[i].width();
        }
        proof {
            assert(self@.take(self@.len() as int) =~= self@);
        }
        sum
    }

    /// The stage index a transaction was assigned to, if scheduled.
    pub fn stage_of(&self, txn: usize) -> (r: Option<usize>)
        ensures
            r == first_stage(self@, txn),
    {
        let ns = self.stages.len();
        proof {
            lemma_first_stage(self@, txn, 0);
        }
        for s in 0..ns
            invariant
                ns == self@.len(),
                forall|t: int| 0 <= t < s ==> !(#[trigger] self@[t]).contains(txn),
        {
            let stage = &self.stages[s].txns;
            let ghost row = self@[s as int];
            assert(stage@ == row);
            for k in 0..stage.len()
                invariant
                    stage@ == row,
                    s < self@.len(),
                    row == self@[s as int],
                    ns == self@.len(),
                    forall|t: int| 0 <= t < s ==> !(#[trigger] self@[t]).contains(txn),
                    forall|j: int| 0 <= j < k ==> row[j] != txn,
            {
                if stage[k] == txn {
                    assert(row[k as int] == txn);
                    assert(row.contains(txn));
                    proof {
                        lemma_first_stage(self@, txn, 0);
                    }
                    return Some(s);
                }
            }
        }
        proof {
            lemma_first_stage(self@, txn, 0);
        }
        None
    }

    /// True if no stage contains a conflicting pair of transactions.
    pub fn is_conflict_free(&self, footprints: &[TransactionFootprint]) -> (r: bool)
        requires
            forall|s: int, i: int|
                0 <= s < self@.len() && 0 <= i < self@[s].len() && self@[s].len() > 1 ==> #[trigger] self@[s][i]
                    < footprints@.len(),
        ensures
            r == conflict_free(self@, footprints@),
    {
        let ghost g = self@;
        for s in 0..self.stages.len()
            invariant
                g == self@,
                forall|s2: int, i: int|
                    0 <= s2 < g.len() && 0 <= i < g[s2].len() && g[s2].len() > 1 ==> #[trigger] g[s2][i]
                        < footprints@.len(),
                forall|q: int, i: int, j: int|
                    0 <= q < s && 0 <= i < j < g[q].len() ==> !conflicts(
                        footprints@[#[trigger] g[q][i] as int],
                        footprints@[#[trigger] g[q][j] as int],
                    ),
        {
            let stage = &self.stages[s].txns;
            assert(stage@ == g[s as int]);
            for i in 0..stage.len()
                invariant
                    g == self@,
                    s < g.len(),
                    stage@ == g[s as int],
                    forall|s2: int, i2: int|
                        0 <= s2 < g.len() && 0 <= i2 < g[s2].len() && g[s2].len() > 1 ==> #[trigger] g[s2][i2]
                            < footprints@.len(),
                    forall|a: int, b: int|
                        0 <= a < i && a < b < stage@.len() ==> !conflicts(
                            footprints@[#[trigger] stage@[a] as int],
                            footprints@[#[trigger] stage@[b] as int],
                        ),
            {
                for j in (i + 1)..stage.len()
                    invariant
                        g == self@,
                        s < g.len(),
                        i < stage@.len(),
                        stage@ == g[s as int],
                        forall|s2: int, i2: int|
                            0 <= s2 < g.len() && 0 <= i2 < g[s2].len() && g[s2].len() > 1 ==> #[trigger] g[s2][i2]
                                < footprints@.len(),
                        forall|a: int, b: int|
                            0 <= a < i && a < b < stage@.len() ==> !conflicts(
                                footprints@[#[trigger] stage@[a] as int],
                                footprints@[#[trigger] stage@[b] as int],
                            ),
                        forall|b: int|
                            i < b < j ==> !conflicts(
                                footprints@[stage@[i as int] as int],
                                footprints@[#[trigger] stage@[b] as int],
                            ),
                {
                    assert(g[s as int][i as int] < footprints@.len());
                    assert(g[s as int][j as int] < footprints@.len());
                    if footprints[stage[i]].conflicts_with(&footprints[stage[j]]) {
                        return false;
                    }
                }
            }
        }
        true
    }

    /// Validates that every transaction `0..n_txns` appears exactly once, and
    /// no other transaction appears.
    pub fn is_complete(&self, n_txns: usize) -> (r: bool)
        ensures
            r == complete(self@, n_txns as int),
    {
        let ghost g = self@;
        let mut flat: Vec<usize> = Vec::new();
        for s in 0..self.stages.len()
            invariant
                g == self@,
                flat@ == flatten(g.take(s as int)),
        {
            let stage = &self.stages[s].txns;
            for k in 0..stage.len()
                invariant
                    g == self@,
                    s < g.len(),
                    stage@ == g[s as int],
                    flat@ == flatten(g.take(s as int)) + stage@.take(k as int),
            {
                flat.push(stage[k]);
                assert(stage@.take(k + 1) =~= stage@.take(k as int).push(stage@[k as int]));
                assert(flat@ =~= flatten(g.take(s as int)) + stage@.take(k + 1));
            }
            proof {
                assert(stage@.take(stage@.len() as int) =~= stage@);
                assert(g.take(s + 1).drop_last() =~= g.take(s as int));
            }
        }
        proof {
            assert(g.take(g.len() as int) =~= g);
        }
        let r = exactly_once(&flat, n_txns);
        proof {
            assert(complete(g, n_txns as int) == exactly_once_spec(flat@, n_txns as int));
        }
        r
    }
}

/// Each of `0..n` occurs exactly once in `s`, and nothing else does.
pub open spec fn exactly_once_spec(s: Seq<usize>, n: int) -> bool {
    &&& s.no_duplicates()
    &&& forall|x: usize| #[trigger] s.contains(x) <==> x < n
}

/// Whether each of `0..n_txns` occurs exactly once in `flat`, and nothing
/// else does.
pub fn exactly_once(flat: &Vec<usize>, n_txns: usize) -> (r: bool)
    ensures
        r == exactly_once_spec(flat@, n_txns as int),
{
        let ghost f = flat@;
        if flat.len() != n_txns {
            proof {
                if exactly_once_spec(flat@, n_txns as int) {
                    assert(f.to_set() =~= below(n_txns));
                    f.unique_seq_to_set();
                    lemma_below_len(n_txns);
                }
            }
            return false;
        }
        let mut seen: Vec<bool> = Vec::new();
        for i in 0..n_txns
            invariant
                seen@.len() == i,
                forall|j: int| 0 <= j < i ==> !seen@[j],
        {
            seen.push(false);
        }
        proof {
            assert(f.take(0).no_duplicates());
        }
        let mut k: usize = 0;
        while k < flat.len()
            invariant
                0 <= k <= f.len(),
                f == flat@,
                seen@.len() == n_txns,
                f.len() == n_txns,
                forall|x: int| 0 <= x < n_txns ==> (seen@[x] <==> f.take(k as int).contains(x as usize)),
                forall|x: usize| #[trigger] f.take(k as int).contains(x) ==> x < n_txns,
                f.take(k as int).no_duplicates(),
            decreases f.len() - k,
        {
            let x = flat[k];
            if x >= n_txns || seen[x] {
                proof {
                    assert(f[k as int] == x);
                    assert(f.contains(x));
                    if x < n_txns {
                        let p = choose|p: int| 0 <= p < k && f.take(k as int)[p] == x;
                        assert(f[p] == x);
                    }
                }
                return false;
            }
            seen.set(x, true);
            proof {
                let t0 = f.take(k as int);
                let t1 = f.take(k + 1);
                assert(t1 =~= t0.push(x));
                assert forall|y: usize| #[trigger] t1.contains(y) <==> (t0.contains(y) || y == x) by {
                    if t1.contains(y) {
                        let p = choose|p: int| 0 <= p < t1.len() && t1[p] == y;
                        if p < k {
                            assert(t0[p] == y);
                        }
                    }
                    if t0.contains(y) {
                        let p = choose|p: int| 0 <= p < t0.len() && t0[p] == y;
                        assert(t1[p] == y);
                    }
                    if y == x {
                        assert(t1[k as int] == y);
                    }
                }
                assert forall|a: int, b: int| 0 <= a < t1.len() && 0 <= b < t1.len() && a != b implies t1[a] != t1[b] by {
                    if a < k && b < k {
                        assert(t0[a] != t0[b]);
                    } else if a < k {
                        assert(t0.contains(t1[a]));
                    } else if b < k {
                        assert(t0.contains(t1[b]));
                    }
                }
                assert forall|z: int| 0 <= z < n_txns implies (seen@[z] <==> t1.contains(z as usize)) by {}
                assert forall|y: usize| #[trigger] t1.contains(y) implies y < n_txns by {
                    if y != x {
                        assert(t0.contains(y));
                    }
                }
            }
            k = k + 1;
        }
        proof {
            assert(f.take(f.len() as int) =~= f);
            assert forall|y: usize| #[trigger] f.contains(y) implies y < n_txns by {
                assert(f.take(f.len() as int).contains(y));
            }
        }
        for i in 0..n_txns
            invariant
                f == flat@,
                seen@.len() == n_txns,
                forall|x: int| 0 <= x < n_txns ==> (seen@[x] <==> f.contains(x as usize)),
                forall|x: usize| #[trigger] f.contains(x) ==> x < n_txns,
                f.no_duplicates(),
                forall|x: int| 0 <= x < i ==> seen@[x],
        {
            if !seen[i] {
                return false;
            }
        }
        proof {
            assert forall|x: usize| #[trigger] f.contains(x) <==> x < n_txns by {
                if x < n_txns {
                    assert(seen@[x as int]);
                }
            }
        }
        true
}

/// The indices below `n`.
pub open spec fn below(n: usize) -> Set<usize> {
    Set::new(|x: usize| x < n)
}

proof fn lemma_below_len(n: usize)
    ensures
        below(n).len() == n,
        below(n).finite(),
    decreases n,
{
    if n == 0 {
        assert(below(n) =~= Set::<usize>::empty());
    } else {
        lemma_below_len((n - 1) as usize);
        assert(below(n) =~= below((n - 1) as usize).insert((n - 1) as usize));
    }
}


/// A baseline schedule that runs every transaction in its own stage. Used as
/// the "no parallelism" reference for scoring.
pub fn serial_schedule(n_txns: usize) -> (r: Schedule)
    ensures
        r@ == serial_stages(n_txns as nat),
{
    let mut stages: Vec<Cluster> = Vec::new();
    for txn in 0..n_txns
        invariant
            members(stages@) == Seq::new(txn as nat, |t: int| seq![t as usize]),
    {
        let mut one: Vec<usize> = Vec::new();
        one.push(txn);
        assert(one@ =~= seq![txn]);
        let ghost prev = members(stages@);
        stages.push(Cluster { txns: one });
        assert(members(stages@) =~= prev.push(seq![txn]));
        assert(members(stages@) =~= Seq::new((txn + 1) as nat, |t: int| seq![t as usize]));
    }
    Schedule { stages }
}

/// The stages of the serial baseline over `n` transactions.
pub open spec fn serial_stages(n: nat) -> Seq<Seq<usize>> {
    Seq::new(n, |t: int| seq![t as usize])
}

proof fn lemma_serial_flatten(n: nat)
    requires
        n <= usize::MAX + 1,
    ensures
        flatten(serial_stages(n)) == Seq::new(n, |t: int| t as usize),
    decreases n,
{
    if n > 0 {
        let m = (n - 1) as nat;
        assert(serial_stages(n).drop_last() =~= serial_stages(m));
        lemma_serial_flatten(m);
        assert(flatten(serial_stages(n)) =~= Seq::new(m, |t: int| t as usize) + seq![m as usize]);
        assert(Seq::new(m, |t: int| t as usize) + seq![m as usize] =~= Seq::new(n, |t: int| t as usize));
    }
}

/// The serial baseline is a valid schedule for any transaction set: every
/// transaction runs exactly once, and no stage holds two transactions.
pub proof fn lemma_serial_schedule_is_valid(fps: Seq<TransactionFootprint>)
    requires
        fps.len() <= usize::MAX,
    ensures
        complete(serial_stages(fps.len()), fps.len() as int),
        conflict_free(serial_stages(fps.len()), fps),
{
    let n = fps.len();
    lemma_serial_flatten(n);
    let f = Seq::new(n, |t: int| t as usize);
    assert forall|x: usize| #[trigger] f.contains(x) <==> x < n by {
        if x < n {
            assert(f[x as int] == x);
        }
    }
    assert forall|i: int, j: int| 0 <= i < f.len() && 0 <= j < f.len() && i != j implies f[i] != f[j] by {}
}

/// Builds the conflict graph for `footprints` and schedules it greedily.
/// The schedule holds every transaction exactly once and no stage holds two
/// conflicting transactions.
pub fn schedule(footprints: &[TransactionFootprint]) -> (r: (ConflictGraph, Schedule))
    ensures
        is_conflict_graph(r.0@, footprints@),
        r.1@ == greedy_stages(r.0@, footprints@.len()),
        complete(r.1@, footprints@.len() as int),
        conflict_free(r.1@, footprints@),
{
    let n = footprints.len();
    let graph = build_conflict_graph(footprints);
    let sched = greedy_schedule(&graph);
    proof {
        lemma_greedy_schedule_is_valid(graph@, footprints@);
    }
    (graph, sched)
}


/// Two increasing sequences holding the same elements are equal.
pub proof fn lemma_increasing_unique(a: Seq<usize>, b: Seq<usize>)
    requires
        increasing(a),
        increasing(b),
        forall|x: usize| #[trigger] a.contains(x) <==> b.contains(x),
    ensures
        a == b,
    decreases a.len() + b.len(),
{
    if a.len() > 0 && b.len() > 0 {
        assert(a.contains(a[0]) && b.contains(b[0]));
        assert(a.contains(b[0]) && b.contains(a[0]));
        let i = choose|i: int| 0 <= i < a.len() && a[i] == b[0];
        let j = choose|j: int| 0 <= j < b.len() && b[j] == a[0];
        if i > 0 {
            assert(a[0] < a[i]);
            if j > 0 {
                assert(b[0] < b[j]);
            }
        }
        if j > 0 {
            assert(b[0] < b[j]);
        }
        assert(a[0] == b[0]);
        let ra = a.drop_first();
        let rb = b.drop_first();
        assert forall|x: usize| #[trigger] ra.contains(x) <==> rb.contains(x) by {
            if ra.contains(x) {
                let p = choose|p: int| 0 <= p < ra.len() && ra[p] == x;
                assert(a[p + 1] == x);
                assert(a.contains(x));
                assert(b.contains(x));
                let q = choose|q: int| 0 <= q < b.len() && b[q] == x;
                if q == 0 {
                    assert(a[0] < a[p + 1]);
                }
                assert(rb[q - 1] == x);
            }
            if rb.contains(x) {
                let p = choose|p: int| 0 <= p < rb.len() && rb[p] == x;
                assert(b[p + 1] == x);
                assert(b.contains(x));
                assert(a.contains(x));
                let q = choose|q: int| 0 <= q < a.len() && a[q] == x;
                if q == 0 {
                    assert(b[0] < b[p + 1]);
                }
                assert(ra[q - 1] == x);
            }
        }
        lemma_increasing_unique(ra, rb);
        assert(a =~= seq![a[0]] + ra);
        assert(b =~= seq![b[0]] + rb);
    } else if a.len() > 0 {
        assert(a.contains(a[0]));
        assert(b.contains(a[0]));
    } else if b.len() > 0 {
        assert(b.contains(b[0]));
        assert(a.contains(b[0]));
    } else {
        assert(a =~= b);
    }
}


/// The first stage, from `from` on, that holds `txn`.
pub open spec fn first_stage_from(stages: Seq<Seq<usize>>, txn: usize, from: int) -> Option<usize>
    decreases stages.len() - from,
{
    if from < 0 || from >= stages.len() {
        None
    } else if stages[from].contains(txn) {
        Some(from as usize)
    } else {
        first_stage_from(stages, txn, from + 1)
    }
}

/// The first stage that holds `txn`, if any.
pub open spec fn first_stage(stages: Seq<Seq<usize>>, txn: usize) -> Option<usize> {
    first_stage_from(stages, txn, 0)
}

proof fn lemma_first_stage(stages: Seq<Seq<usize>>, txn: usize, from: int)
    requires
        0 <= from,
        stages.len() <= usize::MAX,
    ensures
        match first_stage_from(stages, txn, from) {
            Some(s) => from <= s < stages.len() && stages[s as int].contains(txn) && forall|t: int|
                from <= t < s ==> !(#[trigger] stages[t]).contains(txn),
            None => forall|t: int| from <= t < stages.len() ==> !(#[trigger] stages[t]).contains(txn),
        },
    decreases stages.len() - from,
{
    if from < stages.len() && !stages[from].contains(txn) {
        lemma_first_stage(stages, txn, from + 1);
    }
}

} // verus!
