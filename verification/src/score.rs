//! Contention metrics: per-transaction metrics, the longest conflict chain
//! (plain and weighted by access cost), hot-key ranking and per-key
//! contention attribution.

use vstd::prelude::*;

use crate::footprint::{conflicts, TransactionFootprint};
use crate::keys::{key_lt, KeyModel, KeyOrder, LedgerKey};
use crate::keyset::{key_set, models, sorted_keys};
use crate::scheduler::{complete, flatten, is_conflict_graph, scheduled, ConflictGraph, Schedule};

verus! {

/// Per-transaction contention metrics.
#[derive(Debug, Clone, PartialEq, Eq)]
pub struct TxnMetric {
    pub index: usize,
    /// Number of distinct keys touched.
    pub footprint_size: usize,
    /// Number of keys written.
    pub write_count: usize,
    /// Number of other transactions this transaction conflicts with.
    pub conflict_count: usize,
    /// Stage this transaction was assigned to, if scheduled.
    pub stage: Option<usize>,
}

/// A single hot key and its access profile.
#[derive(Debug, Clone, PartialEq, Eq)]
pub struct HotKey {
    pub key: LedgerKey,
    /// Number of transactions that read the key (writers read it too).
    pub reads: usize,
    /// Number of transactions that write the key.
    pub writes: usize,
    /// Total transactions touching the key.
    pub touch_count: usize,
}

/// The longest conflict chain, respecting the input transaction order.
#[derive(Debug, Clone, PartialEq, Eq)]
pub struct CriticalPath {
    /// Number of transactions on the longest chain.
    pub length: usize,
    /// The transactions on the chain, in order.
    pub path: Vec<usize>,
}

/// A cost model for weighted contention metrics: a key a transaction writes
/// costs `write`, and every key it touches costs `read`.
#[derive(Debug, Clone, Copy, PartialEq, Eq)]
pub struct CostModel {
    pub read: u64,
    pub write: u64,
}

impl Default for CostModel {
    fn default() -> (r: Self)
        ensures
            r.read == 1 && r.write == 2,
    {
        CostModel { read: 1, write: 2 }
    }
}

impl CostModel {
    /// A model that weighs every access equally.
    pub fn uniform() -> (r: Self)
        ensures
            r.read == 1 && r.write == 1,
    {
        CostModel { read: 1, write: 1 }
    }
}

/// The access cost of a footprint: every key touched in either list costs
/// `read`, every key written costs `write` in addition.
pub open spec fn access_cost_spec(fp: TransactionFootprint, model: CostModel) -> int {
    (fp.read_only@.len() + fp.read_write@.len()) * model.read + fp.read_write@.len() * model.write
}

/// The access cost of a well-formed footprint counts its keys: the read rate
/// for every read-only and every written key, and the write rate once more
/// for every written key.
pub proof fn lemma_access_cost_counts_keys(fp: TransactionFootprint, model: CostModel)
    requires
        fp.wf(),
    ensures
        access_cost_spec(fp, model) == (fp.ro().len() + fp.rw().len()) * model.read + fp.rw().len() * model.write,
{
    crate::keyset::lemma_sorted_len(fp.read_only@);
    crate::keyset::lemma_sorted_len(fp.read_write@);
}

/// Writing one more key raises a footprint's access cost by the read rate
/// plus the write rate; reading one more key (not already read) raises it by
/// the read rate.
pub proof fn lemma_access_cost_step(fp: TransactionFootprint, g: TransactionFootprint, k: KeyModel, model: CostModel)
    requires
        fp.wf(),
        g.wf(),
    ensures
        g.ro() == fp.ro() && g.rw() == fp.rw().insert(k) && !fp.rw().contains(k) ==> access_cost_spec(g, model)
            == access_cost_spec(fp, model) + model.read + model.write,
        g.rw() == fp.rw() && g.ro() == fp.ro().insert(k) && !fp.ro().contains(k) ==> access_cost_spec(g, model)
            == access_cost_spec(fp, model) + model.read,
{
    lemma_access_cost_counts_keys(fp, model);
    lemma_access_cost_counts_keys(g, model);
    crate::keyset::lemma_sorted_len(fp.read_only@);
    crate::keyset::lemma_sorted_len(fp.read_write@);
    assert((fp.ro().len() + fp.rw().len() + 1) * model.read + (fp.rw().len() + 1) * model.write == (fp.ro().len()
        + fp.rw().len()) * model.read + fp.rw().len() * model.write + model.read + model.write) by (nonlinear_arith);
    assert((fp.ro().len() + 1 + fp.rw().len()) * model.read + fp.rw().len() * model.write == (fp.ro().len()
        + fp.rw().len()) * model.read + fp.rw().len() * model.write + model.read) by (nonlinear_arith);
}

/// The total access cost of a footprint under a cost model.
pub fn access_cost(fp: &TransactionFootprint, model: &CostModel) -> (r: u64)
    requires
        fp.read_only@.len() + fp.read_write@.len() <= usize::MAX,
        access_cost_spec(*fp, *model) <= u64::MAX,
    ensures
        r == access_cost_spec(*fp, *model),
        fp.wf() ==> r == (fp.ro().len() + fp.rw().len()) * model.read + fp.rw().len() * model.write,
{
    proof {
        if fp.wf() {
            lemma_access_cost_counts_keys(*fp, *model);
        }
    }
    let reads = (fp.read_only.len() + fp.read_write.len()) as u64;
    let writes = fp.read_write.len() as u64;
    proof {
        assert(reads * model.read <= access_cost_spec(*fp, *model)) by (nonlinear_arith)
            requires
                access_cost_spec(*fp, *model) == reads * model.read + writes * model.write,
                writes * model.write >= 0,
        ;
        assert(writes * model.write >= 0) by (nonlinear_arith)
            requires
                writes >= 0,
                model.write >= 0,
        ;
    }
    reads * model.read + writes * model.write
}

/// The longest conflict chain weighted by transaction access costs.
#[derive(Debug, Clone, PartialEq, Eq)]
pub struct WeightedCriticalPath {
    /// Total weighted cost along the chain.
    pub weight: u64,
    /// The transactions on the chain, in order.
    pub path: Vec<usize>,
}

/// The largest chain weight among the first `k` neighbors of `i` that come
/// before `i` (0 when there is none).
pub open spec fn best_before(adj: Seq<Seq<usize>>, w: Seq<int>, i: int, k: int) -> int
    decreases i, k,
{
    if k <= 0 || i < 0 || i >= adj.len() || k > adj[i].len() {
        0
    } else {
        let j = adj[i][k - 1];
        let m = best_before(adj, w, i, k - 1);
        if j < i && best_ending(adj, w, j as int) > m {
            best_ending(adj, w, j as int)
        } else {
            m
        }
    }
}

/// The weight of the heaviest chain ending at `i`: its own weight plus the
/// heaviest chain ending at an earlier neighbor.
pub open spec fn best_ending(adj: Seq<Seq<usize>>, w: Seq<int>, i: int) -> int
    decreases i, (if 0 <= i < adj.len() { adj[i].len() + 1 } else { 0 }),
{
    if i < 0 || i >= adj.len() {
        0
    } else {
        w[i] + best_before(adj, w, i, adj[i].len() as int)
    }
}


/// The earlier neighbor of `i`, among its first `k`, through which the
/// heaviest chain ending at `i` comes: the first listed that attains the
/// heaviest weight.
pub open spec fn pred_before(adj: Seq<Seq<usize>>, w: Seq<int>, i: int, k: int) -> Option<usize>
    decreases k,
{
    if k <= 0 || i < 0 || i >= adj.len() || k > adj[i].len() {
        None
    } else {
        let j = adj[i][k - 1];
        if j < i && best_ending(adj, w, j as int) > best_before(adj, w, i, k - 1) {
            Some(j)
        } else {
            pred_before(adj, w, i, k - 1)
        }
    }
}

/// The predecessor of `i` on its heaviest chain, if any.
pub open spec fn pred(adj: Seq<Seq<usize>>, w: Seq<int>, i: int) -> Option<usize> {
    if 0 <= i < adj.len() {
        pred_before(adj, w, i, adj[i].len() as int)
    } else {
        None
    }
}

/// The heaviest chain ending at `i`, following predecessors back.
pub open spec fn chain_to(adj: Seq<Seq<usize>>, w: Seq<int>, i: int) -> Seq<usize>
    decreases i,
{
    if i < 0 {
        Seq::empty()
    } else {
        match pred(adj, w, i) {
            Some(j) => if j < i {
                chain_to(adj, w, j as int).push(i as usize)
            } else {
                seq![i as usize]
            },
            None => seq![i as usize],
        }
    }
}

/// The last index in `0..k` whose heaviest chain is heaviest.
pub open spec fn last_heaviest(adj: Seq<Seq<usize>>, w: Seq<int>, k: int) -> int
    decreases k,
{
    if k <= 1 {
        0
    } else {
        let e = last_heaviest(adj, w, k - 1);
        if best_ending(adj, w, k - 1) >= best_ending(adj, w, e) {
            k - 1
        } else {
            e
        }
    }
}

/// Unit weights: every transaction counts once.
pub open spec fn unit_weights(n: int) -> Seq<int> {
    Seq::new(n as nat, |i: int| 1int)
}

/// A chain of transactions: increasing indices below `adj.len()`, each
/// listing its predecessor as a neighbor.
pub open spec fn is_chain(adj: Seq<Seq<usize>>, c: Seq<usize>) -> bool {
    &&& c.len() >= 1
    &&& forall|k: int| 0 <= k < c.len() ==> #[trigger] c[k] < adj.len()
    &&& forall|k: int| 1 <= k < c.len() ==> c[k - 1] < #[trigger] c[k] && adj[c[k] as int].contains(c[k - 1])
}

/// The total weight of a chain.
pub open spec fn chain_weight(w: Seq<int>, c: Seq<usize>) -> int
    decreases c.len(),
{
    if c.len() == 0 {
        0
    } else {
        chain_weight(w, c.drop_last()) + w[c.last() as int]
    }
}

proof fn lemma_pred_before(adj: Seq<Seq<usize>>, w: Seq<int>, i: int, k: int)
    requires
        0 <= i < adj.len(),
        0 <= k <= adj[i].len(),
    ensures
        best_before(adj, w, i, k) >= 0,
        match pred_before(adj, w, i, k) {
            Some(j) => j < i && adj[i].contains(j) && best_before(adj, w, i, k) == best_ending(adj, w, j as int),
            None => best_before(adj, w, i, k) == 0,
        },
        forall|p: int|
            0 <= p < k && adj[i][p] < i ==> best_ending(adj, w, #[trigger] adj[i][p] as int) <= best_before(adj, w, i, k),
    decreases k,
{
    if k > 0 {
        lemma_pred_before(adj, w, i, k - 1);
        let j = adj[i][k - 1];
        if j < i && best_ending(adj, w, j as int) > best_before(adj, w, i, k - 1) {
            assert(adj[i].contains(j));
        }
    }
}

/// The chain following predecessors back from `i` is a chain ending at `i`
/// whose weight is the heaviest chain weight at `i`.
pub proof fn lemma_chain_to(adj: Seq<Seq<usize>>, w: Seq<int>, i: int)
    requires
        0 <= i < adj.len(),
        adj.len() <= usize::MAX,
    ensures
        is_chain(adj, chain_to(adj, w, i)),
        chain_to(adj, w, i).last() == i,
        chain_weight(w, chain_to(adj, w, i)) == best_ending(adj, w, i),
    decreases i,
{
    lemma_pred_before(adj, w, i, adj[i].len() as int);
    let c = chain_to(adj, w, i);
    match pred(adj, w, i) {
        Some(j) => {
            lemma_chain_to(adj, w, j as int);
            let c0 = chain_to(adj, w, j as int);
            assert(c == c0.push(i as usize));
            assert(c.drop_last() =~= c0);
            assert(chain_weight(w, c) == chain_weight(w, c0) + w[i]);
            assert forall|k: int| 1 <= k < c.len() implies c[k - 1] < #[trigger] c[k] && adj[c[k] as int].contains(c[k - 1]) by {
                if k < c0.len() {
                    assert(c[k] == c0[k] && c[k - 1] == c0[k - 1]);
                } else {
                    assert(c[k - 1] == c0.last());
                }
            }
            assert forall|k: int| 0 <= k < c.len() implies #[trigger] c[k] < adj.len() by {
                if k < c0.len() {
                    assert(c[k] == c0[k]);
                }
            }
        },
        None => {
            assert(c.drop_last() =~= Seq::<usize>::empty());
            assert(chain_weight(w, c) == chain_weight(w, Seq::<usize>::empty()) + w[i]);
        },
    }
}

/// No chain ending at `i` is heavier than the heaviest chain weight at `i`.
pub proof fn lemma_chain_bound(adj: Seq<Seq<usize>>, w: Seq<int>, c: Seq<usize>)
    requires
        is_chain(adj, c),
    ensures
        chain_weight(w, c) <= best_ending(adj, w, c.last() as int),
    decreases c.len(),
{
    let i = c.last() as int;
    assert(c[c.len() - 1] < adj.len());
    lemma_pred_before(adj, w, i, adj[i].len() as int);
    if c.len() > 1 {
        let c0 = c.drop_last();
        assert forall|k: int| 0 <= k < c0.len() implies #[trigger] c0[k] < adj.len() by {
            assert(c0[k] == c[k]);
        }
        assert forall|k: int| 1 <= k < c0.len() implies c0[k - 1] < #[trigger] c0[k] && adj[c0[k] as int].contains(c0[k - 1]) by {
            assert(c0[k] == c[k] && c0[k - 1] == c[k - 1]);
        }
        lemma_chain_bound(adj, w, c0);
        let j = c0.last();
        assert(j == c[c.len() - 2]);
        assert(c[c.len() - 1] == c.last());
        assert(adj[i].contains(j));
        let p = choose|p: int| 0 <= p < adj[i].len() && adj[i][p] == j;
        assert(best_ending(adj, w, adj[i][p] as int) <= best_before(adj, w, i, adj[i].len() as int));
        assert(chain_weight(w, c) == chain_weight(w, c0) + w[i]);
    } else {
        assert(c.drop_last() =~= Seq::<usize>::empty());
        assert(chain_weight(w, c) == chain_weight(w, Seq::<usize>::empty()) + w[i]);
    }
}

/// The last heaviest index is below `k` and nothing in `0..k` is heavier.
pub proof fn lemma_last_heaviest(adj: Seq<Seq<usize>>, w: Seq<int>, k: int)
    requires
        k >= 1,
    ensures
        0 <= last_heaviest(adj, w, k) < k,
        forall|t: int| 0 <= t < k ==> #[trigger] best_ending(adj, w, t) <= best_ending(adj, w, last_heaviest(adj, w, k)),
        forall|t: int| last_heaviest(adj, w, k) < t < k ==> #[trigger] best_ending(adj, w, t) < best_ending(adj, w, last_heaviest(adj, w, k)),
    decreases k,
{
    if k > 1 {
        lemma_last_heaviest(adj, w, k - 1);
    }
}

proof fn lemma_unit_best_bound(adj: Seq<Seq<usize>>, i: int)
    requires
        0 <= i < adj.len(),
    ensures
        1 <= best_ending(adj, unit_weights(adj.len() as int), i) <= i + 1,
    decreases i,
{
    let w = unit_weights(adj.len() as int);
    lemma_unit_best_before_bound(adj, i, adj[i].len() as int);
}

proof fn lemma_unit_best_before_bound(adj: Seq<Seq<usize>>, i: int, k: int)
    requires
        0 <= i < adj.len(),
        0 <= k <= adj[i].len(),
    ensures
        0 <= best_before(adj, unit_weights(adj.len() as int), i, k) <= i,
    decreases i, k,
{
    let w = unit_weights(adj.len() as int);
    if k > 0 {
        lemma_unit_best_before_bound(adj, i, k - 1);
        let j = adj[i][k - 1];
        if j < i {
            lemma_unit_best_bound(adj, j as int);
        }
    }
}


/// Follows predecessor links back from `end` and returns the chain in order.
fn trace_back(
    prev: &Vec<Option<usize>>,
    end: usize,
    Ghost(adj): Ghost<Seq<Seq<usize>>>,
    Ghost(w): Ghost<Seq<int>>,
) -> (path: Vec<usize>)
    requires
        end < prev@.len(),
        prev@.len() == adj.len(),
        forall|t: int| 0 <= t < adj.len() ==> #[trigger] prev@[t] == pred(adj, w, t),
    ensures
        path@ == chain_to(adj, w, end as int),
{
    let mut rev: Vec<usize> = Vec::new();
    let mut cur: usize = end;
    loop
        invariant_except_break
            chain_to(adj, w, end as int) == chain_to(adj, w, cur as int) + rev@.reverse(),
        invariant
            cur < prev@.len(),
            prev@.len() == adj.len(),
            forall|t: int| 0 <= t < adj.len() ==> #[trigger] prev@[t] == pred(adj, w, t),
        ensures
            chain_to(adj, w, end as int) == rev@.reverse(),
        decreases cur,
    {
        let ghost before = rev@;
        proof {
            lemma_pred_before(adj, w, cur as int, adj[cur as int].len() as int);
        }
        rev.push(cur);
        assert(rev@.reverse() =~= seq![cur] + before.reverse());
        match prev[cur] {
            Some(j) => {
                assert(prev@[cur as int] == pred(adj, w, cur as int));
                assert(chain_to(adj, w, cur as int) == chain_to(adj, w, j as int).push(cur));
                assert(chain_to(adj, w, j as int).push(cur) + before.reverse() =~= chain_to(adj, w, j as int) + rev@.reverse());
                cur = j;
            },
            None => {
                assert(prev@[cur as int] == pred(adj, w, cur as int));
                assert(chain_to(adj, w, cur as int) == seq![cur]);
                break;
            },
        }
    }
    let mut path: Vec<usize> = Vec::new();
    let len = rev.len();
    for k in 0..len
        invariant
            len == rev@.len(),
            path@ == rev@.reverse().take(k as int),
    {
        path.push(rev[len - 1 - k]);
        assert(path@ =~= rev@.reverse().take(k + 1));
    }
    assert(rev@.reverse().take(len as int) =~= rev@.reverse());
    path
}

/// Computes the longest conflict chain in the order-respecting conflict DAG:
/// each transaction extends the longest chain ending at an earlier neighbor,
/// the chain chosen ends at the last transaction whose chain is longest, and
/// each step back goes to the first listed neighbor attaining the length.
pub fn critical_path(graph: &ConflictGraph) -> (r: CriticalPath)
    ensures
        graph@.len() == 0 ==> r.length == 0 && r.path@.len() == 0,
        graph@.len() > 0 ==> r.length == best_ending(
            graph@,
            unit_weights(graph@.len() as int),
            last_heaviest(graph@, unit_weights(graph@.len() as int), graph@.len() as int),
        ) && r.path@ == chain_to(
            graph@,
            unit_weights(graph@.len() as int),
            last_heaviest(graph@, unit_weights(graph@.len() as int), graph@.len() as int),
        ),
        graph@.len() > 0 ==> is_chain(graph@, r.path@) && r.path@.len() == r.length,
        forall|c: Seq<usize>| is_chain(graph@, c) ==> c.len() <= r.length,
{
    let n = graph.order();
    let ghost adj = graph@;
    let ghost w = unit_weights(n as int);
    if n == 0 {
        proof {
            assert forall|c: Seq<usize>| is_chain(graph@, c) implies c.len() <= 0 by {
                assert(c[0] < adj.len());
            }
        }
        return CriticalPath { length: 0, path: Vec::new() };
    }
    let mut longest: Vec<usize> = Vec::new();
    let mut prev: Vec<Option<usize>> = Vec::new();
    let mut t: usize = 0;
    while t < n
        invariant
            t <= n,
            longest@.len() == t,
            prev@.len() == t,
            forall|u: int| 0 <= u < t ==> #[trigger] longest@[u] == 1,
            forall|u: int| 0 <= u < t ==> #[trigger] prev@[u] is None,
        decreases n - t,
    {
        longest.push(1);
        prev.push(None);
        t = t + 1;
    }
    let mut i: usize = 0;
    while i < n
        invariant
            i <= n,
            n == adj.len(),
            adj == graph@,
            w == unit_weights(n as int),
            longest@.len() == n,
            prev@.len() == n,
            forall|t: int| 0 <= t < i ==> #[trigger] longest@[t] == best_ending(adj, w, t),
            forall|t: int| 0 <= t < i ==> #[trigger] prev@[t] == pred(adj, w, t),
            forall|t: int| i <= t < n ==> #[trigger] longest@[t] == 1,
            forall|t: int| i <= t < n ==> #[trigger] prev@[t] is None,
        decreases n - i,
    {
        let row = &graph.adjacency[i];
        assert(row@ == adj[i as int]);
        let mut k: usize = 0;
        while k < row.len()
            invariant
                k <= row@.len(),
                n == adj.len(),
                i < n,
                row@ == adj[i as int],
                w == unit_weights(n as int),
                longest@.len() == n,
                prev@.len() == n,
                forall|t: int| 0 <= t < i ==> #[trigger] longest@[t] == best_ending(adj, w, t),
            forall|t: int| 0 <= t < i ==> #[trigger] prev@[t] == pred(adj, w, t),
                forall|t: int| i < t < n ==> #[trigger] longest@[t] == 1,
                forall|t: int| i < t < n ==> #[trigger] prev@[t] is None,
                longest@[i as int] == 1 + best_before(adj, w, i as int, k as int),
                prev@[i as int] == pred_before(adj, w, i as int, k as int),
            decreases row@.len() - k,
        {
            let j = row[k];
            if j < i {
                proof {
                    lemma_unit_best_bound(adj, j as int);
                }
                if longest[j] + 1 > longest[i] {
                    let v = longest[j] + 1;
                    longest.set(i, v);
                    prev.set(i, Some(j));
                }
            }
            k = k + 1;
        }
        proof {
            assert(w[i as int] == 1);
        }
        i = i + 1;
    }
    let mut end: usize = 0;
    for t in 1..n
        invariant
            n == adj.len(),
            w == unit_weights(n as int),
            longest@.len() == n,
            forall|u: int| 0 <= u < n ==> #[trigger] longest@[u] == best_ending(adj, w, u),
            end == last_heaviest(adj, w, t as int),
            end < n,
    {
        proof {
            lemma_last_heaviest(adj, w, t as int);
        }
        if longest[t] >= longest[end] {
            end = t;
        }
    }
    let length = longest[end];
    let path = trace_back(&prev, end, Ghost(adj), Ghost(w));
    proof {
        lemma_last_heaviest(adj, w, n as int);
        lemma_chain_to(adj, w, end as int);
        lemma_unit_chain_weight(w, path@, n as int);
        assert forall|c: Seq<usize>| is_chain(graph@, c) implies c.len() <= length by {
            lemma_chain_bound(adj, w, c);
            assert(c[c.len() - 1] < n);
            lemma_unit_chain_weight(w, c, n as int);
        }
    }
    CriticalPath { length, path }
}

/// Under unit weights, a chain of vertices below `n` weighs its length.
proof fn lemma_unit_chain_weight(w: Seq<int>, c: Seq<usize>, n: int)
    requires
        w == unit_weights(n),
        forall|k: int| 0 <= k < c.len() ==> #[trigger] c[k] < n,
    ensures
        chain_weight(w, c) == c.len(),
    decreases c.len(),
{
    if c.len() > 0 {
        let c0 = c.drop_last();
        assert forall|k: int| 0 <= k < c0.len() implies #[trigger] c0[k] < n by {
            assert(c0[k] == c[k]);
        }
        lemma_unit_chain_weight(w, c0, n);
        assert(c[c.len() - 1] < n);
    }
}


/// The access cost of each footprint, as chain weights.
pub open spec fn cost_weights(fps: Seq<TransactionFootprint>, model: CostModel) -> Seq<int> {
    Seq::new(fps.len(), |i: int| access_cost_spec(fps[i], model))
}

/// Every footprint's access cost can be computed without overflow.
pub open spec fn costs_fit(fps: Seq<TransactionFootprint>, model: CostModel) -> bool {
    forall|i: int|
        0 <= i < fps.len() ==> (#[trigger] fps[i]).read_only@.len() + fps[i].read_write@.len() <= usize::MAX
            && access_cost_spec(fps[i], model) <= u64::MAX
}

/// Extending any chain by a later neighbor stays within `u64`.
pub open spec fn chains_fit(adj: Seq<Seq<usize>>, w: Seq<int>) -> bool {
    forall|i: int, k: int|
        0 <= i < adj.len() && 0 <= k < adj[i].len() && adj[i][k] < i ==> best_ending(
            adj,
            w,
            #[trigger] adj[i][k] as int,
        ) + w[i] <= u64::MAX
}

/// Computes the heaviest conflict chain, each transaction weighing its
/// [`access_cost`]; ties are broken as in [`critical_path`].
pub fn critical_path_weighted(graph: &ConflictGraph, footprints: &[TransactionFootprint], model: &CostModel) -> (r: WeightedCriticalPath)
    requires
        graph@.len() > 0 ==> footprints@.len() >= graph@.len() && costs_fit(footprints@, *model) && chains_fit(
            graph@,
            cost_weights(footprints@, *model),
        ),
    ensures
        graph@.len() == 0 ==> r.weight == 0 && r.path@.len() == 0,
        graph@.len() > 0 ==> r.weight == best_ending(
            graph@,
            cost_weights(footprints@, *model),
            last_heaviest(graph@, cost_weights(footprints@, *model), graph@.len() as int),
        ) && r.path@ == chain_to(
            graph@,
            cost_weights(footprints@, *model),
            last_heaviest(graph@, cost_weights(footprints@, *model), graph@.len() as int),
        ),
        graph@.len() > 0 ==> is_chain(graph@, r.path@) && chain_weight(cost_weights(footprints@, *model), r.path@)
            == r.weight,
        forall|c: Seq<usize>| is_chain(graph@, c) ==> chain_weight(cost_weights(footprints@, *model), c) <= r.weight,
{
    let n = graph.order();
    let ghost adj = graph@;
    let ghost w = cost_weights(footprints@, *model);
    if n == 0 {
        proof {
            assert forall|c: Seq<usize>| is_chain(graph@, c) implies chain_weight(w, c) <= 0 by {
                assert(c[0] < adj.len());
            }
        }
        return WeightedCriticalPath { weight: 0, path: Vec::new() };
    }
    let mut costs: Vec<u64> = Vec::new();
    let mut f: usize = 0;
    while f < footprints.len()
        invariant
            f <= footprints@.len(),
            costs_fit(footprints@, *model),
            w == cost_weights(footprints@, *model),
            costs@.len() == f,
            forall|u: int| 0 <= u < f ==> #[trigger] costs@[u] == w[u],
        decreases footprints@.len() - f,
    {
        assert(footprints@[f as int].read_only@.len() + footprints@[f as int].read_write@.len() <= usize::MAX);
        costs.push(access_cost(&footprints[f], model));
        f = f + 1;
    }
    let mut longest: Vec<u64> = Vec::new();
    let mut prev: Vec<Option<usize>> = Vec::new();
    let mut t: usize = 0;
    while t < n
        invariant
            t <= n,
            n <= costs@.len(),
            longest@.len() == t,
            prev@.len() == t,
            forall|u: int| 0 <= u < t ==> #[trigger] longest@[u] == costs@[u],
            forall|u: int| 0 <= u < t ==> #[trigger] prev@[u] is None,
        decreases n - t,
    {
        longest.push(costs[t]);
        prev.push(None);
        t = t + 1;
    }
    let mut i: usize = 0;
    while i < n
        invariant
            i <= n,
            n == adj.len(),
            adj == graph@,
            n <= costs@.len(),
            forall|u: int| 0 <= u < costs@.len() ==> #[trigger] costs@[u] == w[u],
            chains_fit(adj, w),
            longest@.len() == n,
            prev@.len() == n,
            forall|t: int| 0 <= t < i ==> #[trigger] longest@[t] == best_ending(adj, w, t),
            forall|t: int| 0 <= t < i ==> #[trigger] prev@[t] == pred(adj, w, t),
            forall|t: int| i <= t < n ==> #[trigger] longest@[t] == w[t],
            forall|t: int| i <= t < n ==> #[trigger] prev@[t] is None,
        decreases n - i,
    {
        let row = &graph.adjacency[i];
        assert(row@ == adj[i as int]);
        let ci = costs[i];
        let mut k: usize = 0;
        while k < row.len()
            invariant
                k <= row@.len(),
                n == adj.len(),
                i < n,
                row@ == adj[i as int],
                ci == w[i as int],
                chains_fit(adj, w),
                longest@.len() == n,
                prev@.len() == n,
                forall|t: int| 0 <= t < i ==> #[trigger] longest@[t] == best_ending(adj, w, t),
                forall|t: int| 0 <= t < i ==> #[trigger] prev@[t] == pred(adj, w, t),
                forall|t: int| i < t < n ==> #[trigger] longest@[t] == w[t],
                forall|t: int| i < t < n ==> #[trigger] prev@[t] is None,
                longest@[i as int] == w[i as int] + best_before(adj, w, i as int, k as int),
                prev@[i as int] == pred_before(adj, w, i as int, k as int),
            decreases row@.len() - k,
        {
            let j = row[k];
            if j < i {
                assert(best_ending(adj, w, adj[i as int][k as int] as int) + w[i as int] <= u64::MAX);
                if longest[j] + ci > longest[i] {
                    let v = longest[j] + ci;
                    longest.set(i, v);
                    prev.set(i, Some(j));
                }
            }
            k = k + 1;
        }
        i = i + 1;
    }
    let mut end: usize = 0;
    let mut t: usize = 1;
    while t < n
        invariant
            1 <= t <= n,
            n == adj.len(),
            longest@.len() == n,
            forall|u: int| 0 <= u < n ==> #[trigger] longest@[u] == best_ending(adj, w, u),
            end == last_heaviest(adj, w, t as int),
            end < n,
        decreases n - t,
    {
        proof {
            lemma_last_heaviest(adj, w, t as int);
        }
        if longest[t] >= longest[end] {
            end = t;
        }
        t = t + 1;
    }
    let weight = longest[end];
    let path = trace_back(&prev, end, Ghost(adj), Ghost(w));
    proof {
        lemma_last_heaviest(adj, w, n as int);
        lemma_chain_to(adj, w, end as int);
        assert forall|c: Seq<usize>| is_chain(graph@, c) implies chain_weight(w, c) <= weight by {
            lemma_chain_bound(adj, w, c);
            assert(c[c.len() - 1] < n);
        }
    }
    WeightedCriticalPath { weight, path }
}


/// The number of transactions among the first `k`, other than `i`, whose
/// footprints conflict with transaction `i`'s.
pub open spec fn conflicts_among(fps: Seq<TransactionFootprint>, i: int, k: int) -> int
    decreases k,
{
    if k <= 0 {
        0
    } else {
        conflicts_among(fps, i, k - 1) + if k - 1 != i && conflicts(fps[i], fps[k - 1]) {
            1int
        } else {
            0int
        }
    }
}

proof fn lemma_count_matches_list(fps: Seq<TransactionFootprint>, i: int, k: int, s: Seq<usize>)
    requires
        0 <= k <= usize::MAX,
        crate::scheduler::increasing(s),
        forall|v: usize| #[trigger] s.contains(v) <==> (v < k && v != i && conflicts(fps[i], fps[v as int])),
    ensures
        s.len() == conflicts_among(fps, i, k),
    decreases k,
{
    if k == 0 {
        if s.len() > 0 {
            assert(s.contains(s[0]));
        }
    } else {
        let top = (k - 1) as usize;
        if k - 1 != i && conflicts(fps[i], fps[k - 1]) {
            assert(s.contains(top));
            let p = choose|p: int| 0 <= p < s.len() && s[p] == top;
            if p < s.len() - 1 {
                assert(s.contains(s[s.len() - 1]));
                assert(s[p] < s[s.len() - 1]);
            }
            assert(p == s.len() - 1);
            assert(s[s.len() - 1] == top);
            let t = s.drop_last();
            assert forall|v: usize| #[trigger] t.contains(v) <==> (v < k - 1 && v != i && conflicts(fps[i], fps[v as int])) by {
                if t.contains(v) {
                    let q = choose|q: int| 0 <= q < t.len() && t[q] == v;
                    assert(s[q] == v);
                    assert(s.contains(v));
                    assert(s[q] < s[s.len() - 1]);
                }
                if v < k - 1 && v != i && conflicts(fps[i], fps[v as int]) {
                    assert(s.contains(v));
                    let q = choose|q: int| 0 <= q < s.len() && s[q] == v;
                    assert(q != s.len() - 1);
                    assert(t[q] == v);
                }
            }
            lemma_count_matches_list(fps, i, k - 1, t);
        } else {
            assert forall|v: usize| #[trigger] s.contains(v) <==> (v < k - 1 && v != i && conflicts(fps[i], fps[v as int])) by {
                if s.contains(v) {
                    assert(v != top);
                }
            }
            lemma_count_matches_list(fps, i, k - 1, s);
        }
    }
}

/// A transaction's conflict count is its degree in the conflict graph of the
/// same footprints: the number of other transactions its footprint conflicts
/// with under the footprint conflict rule.
pub proof fn lemma_conflict_count_is_degree(adj: Seq<Seq<usize>>, fps: Seq<TransactionFootprint>, stages: Seq<Seq<usize>>, i: int)
    requires
        is_conflict_graph(adj, fps),
        0 <= i < fps.len(),
        fps.len() <= usize::MAX,
    ensures
        metric_of(fps, stages, i).conflict_count == adj[i].len(),
{
    assert forall|v: usize| #[trigger] adj[i].contains(v) <==> (v < fps.len() && v != i && conflicts(fps[i], fps[v as int])) by {}
    lemma_count_matches_list(fps, i, fps.len() as int, adj[i]);
    lemma_conflicts_among_bound(fps, i, fps.len() as int);
}

proof fn lemma_conflicts_among_bound(fps: Seq<TransactionFootprint>, i: int, k: int)
    requires
        k >= 0,
    ensures
        0 <= conflicts_among(fps, i, k) <= k,
    decreases k,
{
    if k > 0 {
        lemma_conflicts_among_bound(fps, i, k - 1);
    }
}

/// Conflicting transactions run in index order: whenever `i < j` conflict,
/// every stage holding `i` comes before every stage holding `j`.
pub open spec fn runs_in_order(stages: Seq<Seq<usize>>, fps: Seq<TransactionFootprint>) -> bool {
    forall|s1: int, s2: int, i: usize, j: usize|
        0 <= s1 < stages.len() && 0 <= s2 < stages.len() && #[trigger] stages[s1].contains(i) && #[trigger] stages[s2].contains(j)
            && i < j < fps.len() && conflicts(fps[i as int], fps[j as int]) ==> s1 < s2
}

proof fn lemma_chain_stage(
    adj: Seq<Seq<usize>>,
    fps: Seq<TransactionFootprint>,
    stages: Seq<Seq<usize>>,
    c: Seq<usize>,
    k: int,
)
    requires
        is_conflict_graph(adj, fps),
        complete(stages, fps.len() as int),
        runs_in_order(stages, fps),
        is_chain(adj, c),
        0 <= k < c.len(),
    ensures
        exists|s: int| k <= s < stages.len() && #[trigger] stages[s].contains(c[k]),
    decreases k,
{
    crate::scheduler::lemma_flatten(stages);
    assert(flatten(stages).contains(c[k]));
    let s1 = choose|s: int| 0 <= s < stages.len() && #[trigger] stages[s].contains(c[k]);
    if k > 0 {
        lemma_chain_stage(adj, fps, stages, c, k - 1);
        let s0 = choose|s: int| k - 1 <= s < stages.len() && #[trigger] stages[s].contains(c[k - 1]);
        let a = c[k - 1];
        let b = c[k];
        assert(adj[b as int].contains(a));
        assert(conflicts(fps[b as int], fps[a as int]));
        crate::footprint::lemma_conflict_rule(fps[b as int], fps[a as int], vstd::pervasive::arbitrary());
        assert(s0 < s1);
    }
}

/// A conflict chain bounds serial depth from below: a complete schedule that
/// runs conflicting transactions in index order has at least as many stages
/// as any chain of the conflict graph (the critical path among them) is long.
pub proof fn lemma_chain_bounds_stages(
    adj: Seq<Seq<usize>>,
    fps: Seq<TransactionFootprint>,
    stages: Seq<Seq<usize>>,
    c: Seq<usize>,
)
    requires
        is_conflict_graph(adj, fps),
        complete(stages, fps.len() as int),
        runs_in_order(stages, fps),
        is_chain(adj, c),
    ensures
        c.len() <= stages.len(),
{
    lemma_chain_stage(adj, fps, stages, c, c.len() - 1);
}

/// The metrics reported for transaction `i`.
pub open spec fn metric_of(fps: Seq<TransactionFootprint>, stages: Seq<Seq<usize>>, i: int) -> TxnMetric {
    TxnMetric {
        index: i as usize,
        footprint_size: fps[i].touched().len() as usize,
        write_count: fps[i].read_write@.len() as usize,
        conflict_count: conflicts_among(fps, i, fps.len() as int) as usize,
        stage: crate::scheduler::first_stage(stages, i as usize),
    }
}

/// The number of other transactions whose footprints conflict with
/// transaction `index`'s.
fn conflict_count(footprints: &[TransactionFootprint], index: usize) -> (r: usize)
    requires
        index < footprints@.len(),
    ensures
        r == conflicts_among(footprints@, index as int, footprints@.len() as int),
{
    let mut count: usize = 0;
    for j in 0..footprints.len()
        invariant
            index < footprints@.len(),
            count == conflicts_among(footprints@, index as int, j as int),
    {
        proof {
            lemma_conflicts_among_bound(footprints@, index as int, j as int);
        }
        if j != index && footprints[index].conflicts_with(&footprints[j]) {
            count = count + 1;
        }
    }
    count
}

/// Computes per-transaction metrics from footprints and a schedule.
pub fn compute_metrics(footprints: &[TransactionFootprint], schedule: &Schedule) -> (r: Vec<TxnMetric>)
    ensures
        r@.len() == footprints@.len(),
        forall|i: int| 0 <= i < r@.len() ==> #[trigger] r@[i] == metric_of(footprints@, schedule@, i),
{
    let mut out: Vec<TxnMetric> = Vec::new();
    for index in 0..footprints.len()
        invariant
            out@.len() == index,
            forall|i: int| 0 <= i < index ==> #[trigger] out@[i] == metric_of(footprints@, schedule@, i),
    {
        let fp = &footprints[index];
        let m = TxnMetric {
            index,
            footprint_size: fp.key_count(),
            write_count: fp.write_count(),
            conflict_count: conflict_count(footprints, index),
            stage: schedule.stage_of(index),
        };
        out.push(m);
    }
    out
}


/// The sum of the metrics' conflict counts.
pub open spec fn conflict_sum(ms: Seq<TxnMetric>) -> int
    decreases ms.len(),
{
    if ms.len() == 0 {
        0
    } else {
        conflict_sum(ms.drop_last()) + ms.last().conflict_count
    }
}

proof fn lemma_conflict_sum_prefix(ms: Seq<TxnMetric>, k: int)
    requires
        0 <= k <= ms.len(),
    ensures
        conflict_sum(ms.take(k)) <= conflict_sum(ms),
    decreases ms.len() - k,
{
    if k < ms.len() {
        assert(ms.take(k + 1).drop_last() =~= ms.take(k));
        lemma_conflict_sum_prefix(ms, k + 1);
    } else {
        assert(ms.take(k) =~= ms);
    }
}

/// The total of the per-transaction conflict counts (each conflicting pair
/// counts once from each side).
pub fn total_conflicts(metrics: &[TxnMetric]) -> (r: usize)
    requires
        conflict_sum(metrics@) <= usize::MAX,
    ensures
        r == conflict_sum(metrics@),
{
    let mut total: usize = 0;
    let mut i: usize = 0;
    while i < metrics.len()
        invariant
            i <= metrics.len(),
            conflict_sum(metrics@) <= usize::MAX,
            total == conflict_sum(metrics@.take(i as int)),
        decreases metrics.len() - i,
    {
        proof {
            assert(metrics@.take(i + 1).drop_last() =~= metrics@.take(i as int));
            lemma_conflict_sum_prefix(metrics@, i + 1);
        }
        total = total + metrics[i].conflict_count;
        i = i + 1;
    }
    proof {
        assert(metrics@.take(metrics@.len() as int) =~= metrics@);
    }
    total
}

/// Every key touched by the first `k` footprints.
pub open spec fn touched_upto(fps: Seq<TransactionFootprint>, k: int) -> Set<KeyModel>
    decreases k,
{
    if k <= 0 {
        Set::empty()
    } else {
        touched_upto(fps, k - 1).union(fps[k - 1].touched())
    }
}

/// Every key touched by any footprint.
pub open spec fn all_touched(fps: Seq<TransactionFootprint>) -> Set<KeyModel> {
    touched_upto(fps, fps.len() as int)
}

/// The number of the first `k` footprints that only read `m`: they hold it
/// read-only and do not write it.
pub open spec fn reader_count(fps: Seq<TransactionFootprint>, m: KeyModel, k: int) -> int
    decreases k,
{
    if k <= 0 {
        0
    } else {
        reader_count(fps, m, k - 1) + if fps[k - 1].ro().contains(m) && !fps[k - 1].rw().contains(m) {
            1int
        } else {
            0int
        }
    }
}

/// The number of the first `k` footprints that write `m`.
pub open spec fn writer_count(fps: Seq<TransactionFootprint>, m: KeyModel, k: int) -> int
    decreases k,
{
    if k <= 0 {
        0
    } else {
        writer_count(fps, m, k - 1) + if fps[k - 1].rw().contains(m) {
            1int
        } else {
            0int
        }
    }
}

proof fn lemma_counts_bound(fps: Seq<TransactionFootprint>, m: KeyModel, k: int)
    requires
        k >= 0,
    ensures
        0 <= reader_count(fps, m, k) <= k,
        0 <= writer_count(fps, m, k) <= k,
        reader_count(fps, m, k) + writer_count(fps, m, k) <= k,
    decreases k,
{
    if k > 0 {
        lemma_counts_bound(fps, m, k - 1);
    }
}

/// Every key touched by the footprints, in key order.
fn key_universe(footprints: &[TransactionFootprint]) -> (r: Vec<LedgerKey>)
    ensures
        sorted_keys(r@),
        key_set(r@) == all_touched(footprints@),
{
    let mut keys = crate::keyset::empty_keys();
    for i in 0..footprints.len()
        invariant
            sorted_keys(keys@),
            key_set(keys@) == touched_upto(footprints@, i as int),
    {
        let fp = &footprints[i];
        let ghost base = touched_upto(footprints@, i as int);
        for q in 0..fp.read_only.len()
            invariant
                fp == footprints@[i as int],
                sorted_keys(keys@),
                key_set(keys@) == base.union(key_set(fp.read_only@.take(q as int))),
        {
            crate::keyset::insert_key(&mut keys, fp.read_only[q].duplicate());
            proof {
                assert(fp.read_only@.take(q + 1) =~= fp.read_only@.take(q as int).push(fp.read_only@[q as int]));
                crate::keyset::lemma_key_set_push(fp.read_only@.take(q as int), fp.read_only@[q as int]);
                assert(key_set(keys@) =~= base.union(key_set(fp.read_only@.take(q + 1))));
            }
        }
        proof {
            assert(fp.read_only@.take(fp.read_only@.len() as int) =~= fp.read_only@);
        }
        for q in 0..fp.read_write.len()
            invariant
                fp == footprints@[i as int],
                sorted_keys(keys@),
                key_set(keys@) == base.union(fp.ro()).union(key_set(fp.read_write@.take(q as int))),
        {
            crate::keyset::insert_key(&mut keys, fp.read_write[q].duplicate());
            proof {
                assert(fp.read_write@.take(q + 1) =~= fp.read_write@.take(q as int).push(fp.read_write@[q as int]));
                crate::keyset::lemma_key_set_push(fp.read_write@.take(q as int), fp.read_write@[q as int]);
                assert(key_set(keys@) =~= base.union(fp.ro()).union(key_set(fp.read_write@.take(q + 1))));
            }
        }
        proof {
            assert(fp.read_write@.take(fp.read_write@.len() as int) =~= fp.read_write@);
            assert(key_set(keys@) =~= touched_upto(footprints@, i + 1));
        }
    }
    keys
}

/// How many footprints only read, and how many write, `key`.
fn count_access(footprints: &[TransactionFootprint], key: &LedgerKey) -> (r: (usize, usize))
    ensures
        r.0 == reader_count(footprints@, key@, footprints@.len() as int),
        r.1 == writer_count(footprints@, key@, footprints@.len() as int),
{
    let mut readers: usize = 0;
    let mut writers: usize = 0;
    for i in 0..footprints.len()
        invariant
            readers == reader_count(footprints@, key@, i as int),
            writers == writer_count(footprints@, key@, i as int),
    {
        proof {
            lemma_counts_bound(footprints@, key@, i as int);
        }
        let writes = crate::keyset::contains_key(footprints[i].read_write.as_slice(), key);
        if writes {
            writers = writers + 1;
        } else if crate::keyset::contains_key(footprints[i].read_only.as_slice(), key) {
            readers = readers + 1;
        }
    }
    (readers, writers)
}

/// The number of distinct keys touched across all footprints.
pub fn distinct_key_count(footprints: &[TransactionFootprint]) -> (r: usize)
    ensures
        r == all_touched(footprints@).len(),
{
    let keys = key_universe(footprints);
    proof {
        crate::keyset::lemma_sorted_len(keys@);
    }
    keys.len()
}


/// The number of the first `k` footprints that touch `m` in any mode.
pub open spec fn toucher_count(fps: Seq<TransactionFootprint>, m: KeyModel, k: int) -> int
    decreases k,
{
    if k <= 0 {
        0
    } else {
        toucher_count(fps, m, k - 1) + if fps[k - 1].touched().contains(m) {
            1int
        } else {
            0int
        }
    }
}

/// Every footprint touching a key either writes it or only reads it.
proof fn lemma_touchers(fps: Seq<TransactionFootprint>, m: KeyModel, k: int)
    ensures
        toucher_count(fps, m, k) == reader_count(fps, m, k) + writer_count(fps, m, k),
    decreases k,
{
    if k > 0 {
        lemma_touchers(fps, m, k - 1);
    }
}

/// The ranking model of a hot key: writes, reads and key.
pub open spec fn hot_model(h: HotKey) -> (int, int, KeyModel) {
    (h.writes as int, h.reads as int, h.key@)
}

/// Hot-key order: more writes first, then more reads, then key order.
pub open spec fn hot_lt(a: (int, int, KeyModel), b: (int, int, KeyModel)) -> bool {
    a.0 > b.0 || (a.0 == b.0 && (a.1 > b.1 || (a.1 == b.1 && key_lt(a.2, b.2))))
}

/// The ranking model of key `m` over the footprints: the transactions that
/// write it, and the transactions that read it (every transaction touching
/// it, since writers read too), each transaction counted once.
pub open spec fn hot_entry(fps: Seq<TransactionFootprint>, m: KeyModel) -> (int, int, KeyModel) {
    (
        writer_count(fps, m, fps.len() as int),
        reader_count(fps, m, fps.len() as int) + writer_count(fps, m, fps.len() as int),
        m,
    )
}

/// Hot-key order ranks a key with more writers first and, among keys with as
/// many writers, a key with more readers first.
pub proof fn lemma_hot_rank_order(a: (int, int, KeyModel), b: (int, int, KeyModel))
    ensures
        hot_lt(a, b) ==> a.0 >= b.0 && (a.0 == b.0 ==> a.1 >= b.1),
        a.0 > b.0 ==> hot_lt(a, b),
        a.0 == b.0 && a.1 > b.1 ==> hot_lt(a, b),
{
}

proof fn lemma_hot_lt_order(a: (int, int, KeyModel), b: (int, int, KeyModel), c: (int, int, KeyModel))
    ensures
        !hot_lt(a, a),
        hot_lt(a, b) && hot_lt(b, c) ==> hot_lt(a, c),
        a.2 != b.2 ==> hot_lt(a, b) || hot_lt(b, a),
{
    crate::keys::lemma_key_lt_irreflexive(a.2);
    if hot_lt(a, b) && hot_lt(b, c) {
        if a.0 == b.0 && b.0 == c.0 && a.1 == b.1 && b.1 == c.1 {
            crate::keys::lemma_key_lt_transitive(a.2, b.2, c.2);
        }
    }
    crate::keys::lemma_key_lt_total(a.2, b.2);
}

/// Whether `a` ranks before `b` in hot-key order.
fn hot_before(a: &HotKey, b: &HotKey) -> (r: bool)
    ensures
        r == hot_lt(hot_model(*a), hot_model(*b)),
{
    if a.writes != b.writes {
        a.writes > b.writes
    } else if a.reads != b.reads {
        a.reads > b.reads
    } else {
        match a.key.compare(&b.key) {
            KeyOrder::Less => true,
            _ => false,
        }
    }
}

/// Inserts `e` into a list sorted in hot-key order whose keys differ from
/// `e`'s.
fn insert_hot(v: &mut Vec<HotKey>, e: HotKey)
    requires
        forall|i: int, j: int| 0 <= i < j < old(v)@.len() ==> hot_lt(hot_model(#[trigger] old(v)@[i]), hot_model(#[trigger] old(v)@[j])),
        forall|i: int| 0 <= i < old(v)@.len() ==> (#[trigger] old(v)@[i]).key@ != e.key@,
    ensures
        forall|i: int, j: int| 0 <= i < j < final(v)@.len() ==> hot_lt(hot_model(#[trigger] final(v)@[i]), hot_model(#[trigger] final(v)@[j])),
        forall|x: HotKey| #[trigger] final(v)@.contains(x) <==> (old(v)@.contains(x) || x == e),
        final(v)@.len() == old(v)@.len() + 1,
{
    let ghost before = v@;
    let mut p: usize = 0;
    while p < v.len() && hot_before(&v[p], &e)
        invariant
            p <= v.len(),
            v@ == before,
            forall|i: int| 0 <= i < p ==> hot_lt(hot_model(#[trigger] before[i]), hot_model(e)),
        decreases v.len() - p,
    {
        p = p + 1;
    }
    proof {
        assert forall|j: int| p <= j < before.len() implies hot_lt(hot_model(e), hot_model(#[trigger] before[j])) by {
            lemma_hot_lt_order(hot_model(before[p as int]), hot_model(e), hot_model(before[j]));
            lemma_hot_lt_order(hot_model(e), hot_model(before[p as int]), hot_model(before[j]));
        }
    }
    v.insert(p, e);
    proof {
        let after = v@;
        assert(after =~= before.take(p as int).push(e).add(before.skip(p as int)));
        assert forall|a: int, b: int| 0 <= a < b < after.len() implies hot_lt(hot_model(#[trigger] after[a]), hot_model(#[trigger] after[b])) by {
            if b < p {
                assert(after[a] == before[a] && after[b] == before[b]);
            } else if b == p {
                assert(after[a] == before[a]);
            } else if a < p {
                assert(after[a] == before[a] && after[b] == before[b - 1]);
                lemma_hot_lt_order(hot_model(before[a]), hot_model(e), hot_model(before[b - 1]));
            } else if a == p {
                assert(after[b] == before[b - 1]);
            } else {
                assert(after[a] == before[a - 1] && after[b] == before[b - 1]);
            }
        }
        assert forall|x: HotKey| #[trigger] after.contains(x) <==> (before.contains(x) || x == e) by {
            if after.contains(x) {
                let k = choose|k: int| 0 <= k < after.len() && after[k] == x;
                if k < p {
                    assert(before[k] == x);
                } else if k > p {
                    assert(before[k - 1] == x);
                }
            }
            if before.contains(x) {
                let k = choose|k: int| 0 <= k < before.len() && before[k] == x;
                if k < p {
                    assert(after[k] == x);
                } else {
                    assert(after[k + 1] == x);
                }
            }
            if x == e {
                assert(after[p as int] == x);
            }
        }
    }
}

/// Ranks the top `top_n` keys by accesses: most writers first, then most
/// readers (writers read too), then key order.
pub fn rank_hot_keys(footprints: &[TransactionFootprint], top_n: usize) -> (r: Vec<HotKey>)
    ensures
        r@.len() == if top_n < all_touched(footprints@).len() { top_n as int } else { all_touched(footprints@).len() as int },
        forall|i: int, j: int| 0 <= i < j < r@.len() ==> hot_lt(hot_model(#[trigger] r@[i]), hot_model(#[trigger] r@[j])),
        forall|i: int|
            0 <= i < r@.len() ==> all_touched(footprints@).contains((#[trigger] r@[i]).key@) && hot_model(r@[i])
                == hot_entry(footprints@, r@[i].key@) && r@[i].touch_count == r@[i].reads,
        forall|m: KeyModel|
            #[trigger] all_touched(footprints@).contains(m) ==> (exists|i: int| 0 <= i < r@.len() && (#[trigger] r@[i]).key@ == m)
                || (forall|i: int| 0 <= i < r@.len() ==> hot_lt(hot_model(#[trigger] r@[i]), hot_entry(footprints@, m))),
        forall|i: int|
            0 <= i < r@.len() ==> (#[trigger] r@[i]).writes == writer_count(footprints@, r@[i].key@, footprints@.len() as int)
                && r@[i].reads == toucher_count(footprints@, r@[i].key@, footprints@.len() as int),
        forall|i: int, j: int|
            0 <= i < j < r@.len() ==> (#[trigger] r@[i]).writes >= (#[trigger] r@[j]).writes && (r@[i].writes == r@[j].writes
                ==> r@[i].reads >= r@[j].reads),
        forall|m: KeyModel, i: int|
            #![trigger all_touched(footprints@).contains(m), r@[i]]
            all_touched(footprints@).contains(m) && 0 <= i < r@.len() && (forall|j: int| 0 <= j < r@.len() ==> (#[trigger] r@[j]).key@ != m)
                ==> r@[i].writes > writer_count(footprints@, m, footprints@.len() as int) || (r@[i].writes == writer_count(
                footprints@,
                m,
                footprints@.len() as int,
            ) && r@[i].reads >= toucher_count(footprints@, m, footprints@.len() as int)),
{
    let keys = key_universe(footprints);
    let ghost fps = footprints@;
    let total = footprints.len();
    let ghost n = footprints@.len() as int;
    assert(n == total);
    let mut hot: Vec<HotKey> = Vec::new();
    let mut q: usize = 0;
    while q < keys.len()
        invariant
            fps == footprints@,
            n == fps.len(),
            q <= keys@.len(),
            sorted_keys(keys@),
            key_set(keys@) == all_touched(fps),
            n <= usize::MAX,
            hot@.len() == q,
            forall|i: int, j: int| 0 <= i < j < hot@.len() ==> hot_lt(hot_model(#[trigger] hot@[i]), hot_model(#[trigger] hot@[j])),
            forall|i: int| 0 <= i < hot@.len() ==> hot_model(#[trigger] hot@[i]) == hot_entry(fps, hot@[i].key@) && hot@[i].touch_count == hot@[i].reads,
            forall|i: int| 0 <= i < hot@.len() ==> key_set(keys@.take(q as int)).contains((#[trigger] hot@[i]).key@),
            forall|m: KeyModel| #[trigger] key_set(keys@.take(q as int)).contains(m) ==> exists|i: int| 0 <= i < hot@.len() && (#[trigger] hot@[i]).key@ == m,
        decreases keys@.len() - q,
    {
        let key = &keys[q];
        let (readers, writers) = count_access(footprints, key);
        proof {
            lemma_counts_bound(fps, key@, n);
        }
        let entry = HotKey { key: key.duplicate(), reads: readers + writers, writes: writers, touch_count: readers + writers };
        let ghost before = hot@;
        let ghost prefix = keys@.take(q as int);
        proof {
            assert forall|i: int| 0 <= i < before.len() implies (#[trigger] before[i]).key@ != entry.key@ by {
                crate::keyset::lemma_key_set_contains(prefix, before[i].key@);
                let p = choose|p: int| 0 <= p < prefix.len() && #[trigger] prefix[p]@ == before[i].key@;
                assert(keys@[p]@ == before[i].key@);
                assert(crate::keys::key_lt(keys@[p]@, keys@[q as int]@));
                crate::keys::lemma_key_lt_irreflexive(keys@[q as int]@);
            }
        }
        insert_hot(&mut hot, entry);
        proof {
            assert(keys@.take(q + 1) =~= prefix.push(keys@[q as int]));
            crate::keyset::lemma_key_set_push(prefix, keys@[q as int]);
            assert(hot@.contains(entry));
            assert forall|i: int| 0 <= i < hot@.len() implies hot_model(#[trigger] hot@[i]) == hot_entry(fps, hot@[i].key@) && hot@[i].touch_count == hot@[i].reads by {
                assert(hot@.contains(hot@[i]));
                if hot@[i] != entry {
                    assert(before.contains(hot@[i]));
                    let k = choose|k: int| 0 <= k < before.len() && before[k] == hot@[i];
                }
            }
            assert forall|i: int| 0 <= i < hot@.len() implies key_set(keys@.take(q + 1)).contains((#[trigger] hot@[i]).key@) by {
                assert(hot@.contains(hot@[i]));
                if hot@[i] != entry {
                    assert(before.contains(hot@[i]));
                    let k = choose|k: int| 0 <= k < before.len() && before[k] == hot@[i];
                    assert(key_set(prefix).contains(before[k].key@));
                }
            }
            assert forall|m: KeyModel| #[trigger] key_set(keys@.take(q + 1)).contains(m) implies exists|i: int| 0 <= i < hot@.len() && (#[trigger] hot@[i]).key@ == m by {
                if m == entry.key@ {
                    let k = choose|k: int| 0 <= k < hot@.len() && hot@[k] == entry;
                    assert(hot@[k].key@ == m);
                } else {
                    assert(key_set(prefix).contains(m));
                    assert(exists|i: int| 0 <= i < before.len() && (#[trigger] before[i]).key@ == m);
                    let k = choose|k: int| 0 <= k < before.len() && (#[trigger] before[k]).key@ == m;
                    assert(before.contains(before[k]));
                    assert(hot@.contains(before[k]));
                    let k2 = choose|k2: int| 0 <= k2 < hot@.len() && hot@[k2] == before[k];
                    assert(hot@[k2].key@ == m);
                }
            }
        }
        q = q + 1;
    }
    proof {
        assert(keys@.take(keys@.len() as int) =~= keys@);
        crate::keyset::lemma_sorted_len(keys@);
    }
    let ghost full = hot@;
    assert(forall|m: KeyModel| #[trigger] all_touched(fps).contains(m) ==> exists|i: int| 0 <= i < full.len() && (#[trigger] full[i]).key@ == m);
    hot.truncate(top_n);
    proof {
        if top_n <= full.len() {
            assert(hot@ =~= full.subrange(0, top_n as int));
        } else {
            assert(hot@ =~= full);
        }
        assert forall|m: KeyModel| #[trigger] all_touched(fps).contains(m) implies (exists|i: int| 0 <= i < hot@.len() && (#[trigger] hot@[i]).key@ == m)
            || (forall|i: int| 0 <= i < hot@.len() ==> hot_lt(hot_model(#[trigger] hot@[i]), hot_entry(fps, m))) by {
            let k = choose|k: int| 0 <= k < full.len() && (#[trigger] full[k]).key@ == m;
            assert(hot_model(full[k]) == hot_entry(fps, full[k].key@));
            if k < hot@.len() {
                assert(hot@[k] == full[k]);
            } else {
                assert forall|i: int| 0 <= i < hot@.len() implies hot_lt(hot_model(#[trigger] hot@[i]), hot_entry(fps, m)) by {
                    assert(hot@[i] == full[i]);
                    assert(hot_lt(hot_model(full[i]), hot_model(full[k])));
                }
            }
        }
        assert forall|i: int| 0 <= i < hot@.len() implies all_touched(fps).contains((#[trigger] hot@[i]).key@) && hot_model(hot@[i])
                == hot_entry(fps, hot@[i].key@) && hot@[i].touch_count == hot@[i].reads by {
            assert(hot@[i] == full[i]);
        }
        assert forall|i: int| 0 <= i < hot@.len() implies (#[trigger] hot@[i]).writes == writer_count(fps, hot@[i].key@, n)
            && hot@[i].reads == toucher_count(fps, hot@[i].key@, n) by {
            lemma_touchers(fps, hot@[i].key@, n);
        }
        assert forall|m: KeyModel, i: int|
            #![trigger all_touched(fps).contains(m), hot@[i]]
            all_touched(fps).contains(m) && 0 <= i < hot@.len() && (forall|j: int| 0 <= j < hot@.len() ==> (#[trigger] hot@[j]).key@ != m)
                implies hot@[i].writes > writer_count(fps, m, n) || (hot@[i].writes == writer_count(fps, m, n)
                && hot@[i].reads >= toucher_count(fps, m, n)) by {
            lemma_touchers(fps, m, n);
            assert(hot_lt(hot_model(hot@[i]), hot_entry(fps, m)));
        }
    }
    hot
}

/// A key's share of total conflict cost, attributed to the conflicts that key
/// causes (write/write and write/read pairs).
#[derive(Debug, Clone, PartialEq, Eq)]
pub struct KeyContention {
    pub key: LedgerKey,
    /// Number of conflicting transaction pairs this key participates in.
    pub conflict_pairs: usize,
    /// The cost contribution of those conflicts under the cost model.
    pub cost: u64,
}

/// The write/write pairs among `w` writers: `w * (w - 1) / 2`, where the
/// product saturates at the `u64` limit.
pub open spec fn write_pairs(w: int) -> int {
    let p = w * (if w > 0 { w - 1 } else { 0 });
    (if p > u64::MAX { u64::MAX as int } else { p }) / 2
}

/// The contention of key `m` over the footprints: the conflicting pairs it
/// causes, their cost under `model`, and the key. A write/write pair costs
/// twice the write cost; a write/read pair costs the write plus the read
/// cost.
pub open spec fn contention_of(fps: Seq<TransactionFootprint>, model: CostModel, m: KeyModel) -> (int, int, KeyModel) {
    let w = writer_count(fps, m, fps.len() as int);
    let r = reader_count(fps, m, fps.len() as int);
    let ww = write_pairs(w);
    let wr = w * r;
    (ww + wr, ww * 2 * model.write + wr * (model.write + model.read), m)
}

/// The unordered pairs of distinct footprints among the first `k` that both
/// write `m`, each counted once at its later member.
pub open spec fn writer_pairs(fps: Seq<TransactionFootprint>, m: KeyModel, k: int) -> int
    decreases k,
{
    if k <= 0 {
        0
    } else {
        writer_pairs(fps, m, k - 1) + if fps[k - 1].rw().contains(m) {
            writer_count(fps, m, k - 1)
        } else {
            0
        }
    }
}

/// The unordered pairs of footprints among the first `k` of which one writes
/// `m` and the other only reads it, each counted once at its later member.
pub open spec fn writer_reader_pairs(fps: Seq<TransactionFootprint>, m: KeyModel, k: int) -> int
    decreases k,
{
    if k <= 0 {
        0
    } else {
        writer_reader_pairs(fps, m, k - 1) + if fps[k - 1].rw().contains(m) {
            reader_count(fps, m, k - 1)
        } else if fps[k - 1].ro().contains(m) {
            writer_count(fps, m, k - 1)
        } else {
            0
        }
    }
}

proof fn lemma_pair_counts(fps: Seq<TransactionFootprint>, m: KeyModel, k: int)
    requires
        k >= 0,
    ensures
        2 * writer_pairs(fps, m, k) == writer_count(fps, m, k) * (writer_count(fps, m, k) - 1),
        writer_reader_pairs(fps, m, k) == writer_count(fps, m, k) * reader_count(fps, m, k),
    decreases k,
{
    if k > 0 {
        lemma_pair_counts(fps, m, k - 1);
        let w = writer_count(fps, m, k - 1);
        let r = reader_count(fps, m, k - 1);
        assert((w + 1) * w == w * (w - 1) + 2 * w) by (nonlinear_arith);
        assert((w + 1) * r == w * r + r) by (nonlinear_arith);
        assert(w * (r + 1) == w * r + w) by (nonlinear_arith);
    }
}

/// A key's contention counts conflicting transaction pairs: every unordered
/// pair of distinct footprints that both write the key, and every pair of a
/// writer with a footprint that only reads it. Each write/write pair costs
/// twice the write rate, each write/read pair the write rate plus the read
/// rate. (The count of write/write pairs saturates only beyond 2^32 writers.)
pub proof fn lemma_contention_counts_pairs(fps: Seq<TransactionFootprint>, model: CostModel, m: KeyModel)
    requires
        writer_count(fps, m, fps.len() as int) <= 4294967296,
    ensures
        contention_of(fps, model, m).0 == writer_pairs(fps, m, fps.len() as int) + writer_reader_pairs(fps, m, fps.len() as int),
        contention_of(fps, model, m).1 == writer_pairs(fps, m, fps.len() as int) * 2 * model.write + writer_reader_pairs(
            fps,
            m,
            fps.len() as int,
        ) * (model.write + model.read),
{
    let n = fps.len() as int;
    lemma_pair_counts(fps, m, n);
    lemma_counts_bound(fps, m, n);
    let w = writer_count(fps, m, n);
    if w > 0 {
        assert(w * (w - 1) <= 4294967296 * 4294967295) by (nonlinear_arith)
            requires
                0 < w <= 4294967296,
        ;
    }
    let wp = writer_pairs(fps, m, n);
    let p = w * (if w > 0 { w - 1 } else { 0 });
    if w == 0 {
        assert(p == 0 && w * (w - 1) == 0) by (nonlinear_arith)
            requires
                p == w * 0,
                w == 0,
        ;
    } else {
        assert(p == w * (w - 1));
    }
    assert(p == 2 * wp);
    assert(p <= u64::MAX);
    assert(write_pairs(w) == wp);
}

/// The model of a contention entry: pairs, cost and key.
pub open spec fn contention_model(c: KeyContention) -> (int, int, KeyModel) {
    (c.conflict_pairs as int, c.cost as int, c.key@)
}

/// Contention order: higher cost first, then key order.
pub open spec fn contention_lt(a: (int, int, KeyModel), b: (int, int, KeyModel)) -> bool {
    a.1 > b.1 || (a.1 == b.1 && key_lt(a.2, b.2))
}

/// The contention of `m` can be computed within machine integers: its pair
/// count fits a `usize`, and the summed costs fit a `u64`.
pub open spec fn contention_fits_key(fps: Seq<TransactionFootprint>, model: CostModel, m: KeyModel) -> bool {
    &&& contention_of(fps, model, m).0 <= usize::MAX
    &&& model.write + model.read <= u64::MAX
    &&& contention_of(fps, model, m).1 <= u64::MAX
}

/// Every touched key's contention can be computed within machine integers.
pub open spec fn contention_fits(fps: Seq<TransactionFootprint>, model: CostModel) -> bool {
    forall|m: KeyModel| #[trigger] all_touched(fps).contains(m) ==> contention_fits_key(fps, model, m)
}

/// Contention order ranks a higher cost first.
pub proof fn lemma_contention_rank_order(a: (int, int, KeyModel), b: (int, int, KeyModel))
    ensures
        contention_lt(a, b) ==> a.1 >= b.1,
        a.1 > b.1 ==> contention_lt(a, b),
{
}

proof fn lemma_contention_order(a: (int, int, KeyModel), b: (int, int, KeyModel), c: (int, int, KeyModel))
    ensures
        !contention_lt(a, a),
        contention_lt(a, b) && contention_lt(b, c) ==> contention_lt(a, c),
        a.2 != b.2 ==> contention_lt(a, b) || contention_lt(b, a),
{
    crate::keys::lemma_key_lt_irreflexive(a.2);
    if contention_lt(a, b) && contention_lt(b, c) {
        if a.1 == b.1 && b.1 == c.1 {
            crate::keys::lemma_key_lt_transitive(a.2, b.2, c.2);
        }
    }
    crate::keys::lemma_key_lt_total(a.2, b.2);
}

/// The contention entry of `key`.
fn contention_entry(footprints: &[TransactionFootprint], model: &CostModel, key: &LedgerKey) -> (r: KeyContention)
    requires
        contention_fits_key(footprints@, *model, key@),
    ensures
        contention_model(r) == contention_of(footprints@, *model, key@),
{
    let (readers, writers) = count_access(footprints, key);
    let w = writers as u64;
    let rd = readers as u64;
    let w1 = if w > 0 { w - 1 } else { 0 };
    let ww: u64 = match w.checked_mul(w1) {
        Some(p) => p / 2,
        None => u64::MAX / 2,
    };
    let ghost c = contention_of(footprints@, *model, key@);
    assert(ww == write_pairs(w as int));
    proof {
        assert(w * rd >= 0) by (nonlinear_arith)
            requires
                w >= 0,
                rd >= 0,
        ;
        assert(ww * 2 * model.write >= 0 && w * rd * (model.write + model.read) >= 0) by (nonlinear_arith)
            requires
                ww >= 0,
                w * rd >= 0,
                model.write >= 0,
                model.read >= 0,
        ;
    }
    let wr = w * rd;
    let pairs = (ww + wr) as usize;
    let sum_rate = model.write + model.read;
    proof {
        assert(ww * 2 <= u64::MAX);
        assert(ww * 2 * model.write <= u64::MAX);
        assert(wr * sum_rate <= u64::MAX);
    }
    let cost = ww * 2 * model.write + wr * sum_rate;
    KeyContention { key: key.duplicate(), conflict_pairs: pairs, cost }
}

/// Whether `a` ranks before `b` in contention order.
fn contention_before(a: &KeyContention, b: &KeyContention) -> (r: bool)
    ensures
        r == contention_lt(contention_model(*a), contention_model(*b)),
{
    if a.cost != b.cost {
        a.cost > b.cost
    } else {
        match a.key.compare(&b.key) {
            KeyOrder::Less => true,
            _ => false,
        }
    }
}

/// Inserts `e` into a list sorted in contention order whose keys differ from
/// `e`'s.
fn insert_contention(v: &mut Vec<KeyContention>, e: KeyContention)
    requires
        forall|i: int, j: int| 0 <= i < j < old(v)@.len() ==> contention_lt(contention_model(#[trigger] old(v)@[i]), contention_model(#[trigger] old(v)@[j])),
        forall|i: int| 0 <= i < old(v)@.len() ==> (#[trigger] old(v)@[i]).key@ != e.key@,
    ensures
        forall|i: int, j: int| 0 <= i < j < final(v)@.len() ==> contention_lt(contention_model(#[trigger] final(v)@[i]), contention_model(#[trigger] final(v)@[j])),
        forall|x: KeyContention| #[trigger] final(v)@.contains(x) <==> (old(v)@.contains(x) || x == e),
        final(v)@.len() == old(v)@.len() + 1,
{
    let ghost before = v@;
    let mut p: usize = 0;
    while p < v.len() && contention_before(&v[p], &e)
        invariant
            p <= v.len(),
            v@ == before,
            forall|i: int| 0 <= i < p ==> contention_lt(contention_model(#[trigger] before[i]), contention_model(e)),
        decreases v.len() - p,
    {
        p = p + 1;
    }
    proof {
        assert forall|j: int| p <= j < before.len() implies contention_lt(contention_model(e), contention_model(#[trigger] before[j])) by {
            lemma_contention_order(contention_model(before[p as int]), contention_model(e), contention_model(before[j]));
            lemma_contention_order(contention_model(e), contention_model(before[p as int]), contention_model(before[j]));
        }
    }
    v.insert(p, e);
    proof {
        let after = v@;
        assert(after =~= before.take(p as int).push(e).add(before.skip(p as int)));
        assert forall|a: int, b: int| 0 <= a < b < after.len() implies contention_lt(contention_model(#[trigger] after[a]), contention_model(#[trigger] after[b])) by {
            if b < p {
                assert(after[a] == before[a] && after[b] == before[b]);
            } else if b == p {
                assert(after[a] == before[a]);
            } else if a < p {
                assert(after[a] == before[a] && after[b] == before[b - 1]);
                lemma_contention_order(contention_model(before[a]), contention_model(e), contention_model(before[b - 1]));
            } else if a == p {
                assert(after[b] == before[b - 1]);
            } else {
                assert(after[a] == before[a - 1] && after[b] == before[b - 1]);
            }
        }
        assert forall|x: KeyContention| #[trigger] after.contains(x) <==> (before.contains(x) || x == e) by {
            if after.contains(x) {
                let k = choose|k: int| 0 <= k < after.len() && after[k] == x;
                if k < p {
                    assert(before[k] == x);
                } else if k > p {
                    assert(before[k - 1] == x);
                }
            }
            if before.contains(x) {
                let k = choose|k: int| 0 <= k < before.len() && before[k] == x;
                if k < p {
                    assert(after[k] == x);
                } else {
                    assert(after[k + 1] == x);
                }
            }
            if x == e {
                assert(after[p as int] == x);
            }
        }
    }
}

/// Attributes conflict cost to the keys that cause it: one entry per touched
/// key, highest cost first, ties in key order.
pub fn key_contention(footprints: &[TransactionFootprint], model: &CostModel) -> (r: Vec<KeyContention>)
    requires
        contention_fits(footprints@, *model),
    ensures
        r@.len() == all_touched(footprints@).len(),
        forall|i: int, j: int| 0 <= i < j < r@.len() ==> contention_lt(contention_model(#[trigger] r@[i]), contention_model(#[trigger] r@[j])),
        forall|i: int|
            0 <= i < r@.len() ==> all_touched(footprints@).contains((#[trigger] r@[i]).key@) && contention_model(r@[i])
                == contention_of(footprints@, *model, r@[i].key@),
        forall|m: KeyModel|
            #[trigger] all_touched(footprints@).contains(m) ==> exists|i: int| 0 <= i < r@.len() && (#[trigger] r@[i]).key@ == m,
        forall|i: int, j: int| 0 <= i < j < r@.len() ==> (#[trigger] r@[i]).cost >= (#[trigger] r@[j]).cost,
        forall|i: int|
            0 <= i < r@.len() && writer_count(footprints@, (#[trigger] r@[i]).key@, footprints@.len() as int) <= 4294967296
                ==> r@[i].conflict_pairs == writer_pairs(footprints@, r@[i].key@, footprints@.len() as int)
                + writer_reader_pairs(footprints@, r@[i].key@, footprints@.len() as int) && r@[i].cost == writer_pairs(
                footprints@,
                r@[i].key@,
                footprints@.len() as int,
            ) * 2 * model.write + writer_reader_pairs(footprints@, r@[i].key@, footprints@.len() as int) * (model.write
                + model.read),
{
    let keys = key_universe(footprints);
    let ghost fps = footprints@;
    let mut out: Vec<KeyContention> = Vec::new();
    let mut q: usize = 0;
    while q < keys.len()
        invariant
            fps == footprints@,
            q <= keys@.len(),
            sorted_keys(keys@),
            key_set(keys@) == all_touched(fps),
            contention_fits(fps, *model),
            out@.len() == q,
            forall|i: int, j: int| 0 <= i < j < out@.len() ==> contention_lt(contention_model(#[trigger] out@[i]), contention_model(#[trigger] out@[j])),
            forall|i: int| 0 <= i < out@.len() ==> contention_model(#[trigger] out@[i]) == contention_of(fps, *model, out@[i].key@),
            forall|i: int| 0 <= i < out@.len() ==> key_set(keys@.take(q as int)).contains((#[trigger] out@[i]).key@),
            forall|m: KeyModel| #[trigger] key_set(keys@.take(q as int)).contains(m) ==> exists|i: int| 0 <= i < out@.len() && (#[trigger] out@[i]).key@ == m,
        decreases keys@.len() - q,
    {
        let key = &keys[q];
        proof {
            crate::keyset::lemma_key_set_contains(keys@, key@);
            assert(keys@[q as int] == *key);
            assert(all_touched(fps).contains(key@));
        }
        let entry = contention_entry(footprints, model, key);
        let ghost before = out@;
        let ghost prefix = keys@.take(q as int);
        proof {
            assert forall|i: int| 0 <= i < before.len() implies (#[trigger] before[i]).key@ != entry.key@ by {
                crate::keyset::lemma_key_set_contains(prefix, before[i].key@);
                let p = choose|p: int| 0 <= p < prefix.len() && #[trigger] prefix[p]@ == before[i].key@;
                assert(keys@[p]@ == before[i].key@);
                assert(crate::keys::key_lt(keys@[p]@, keys@[q as int]@));
                crate::keys::lemma_key_lt_irreflexive(keys@[q as int]@);
            }
        }
        insert_contention(&mut out, entry);
        proof {
            assert(keys@.take(q + 1) =~= prefix.push(keys@[q as int]));
            crate::keyset::lemma_key_set_push(prefix, keys@[q as int]);
            assert(out@.contains(entry));
            assert forall|i: int| 0 <= i < out@.len() implies contention_model(#[trigger] out@[i]) == contention_of(fps, *model, out@[i].key@) by {
                assert(out@.contains(out@[i]));
                if out@[i] != entry {
                    assert(before.contains(out@[i]));
                    let k = choose|k: int| 0 <= k < before.len() && before[k] == out@[i];
                }
            }
            assert forall|i: int| 0 <= i < out@.len() implies key_set(keys@.take(q + 1)).contains((#[trigger] out@[i]).key@) by {
                assert(out@.contains(out@[i]));
                if out@[i] != entry {
                    assert(before.contains(out@[i]));
                    let k = choose|k: int| 0 <= k < before.len() && before[k] == out@[i];
                    assert(key_set(prefix).contains(before[k].key@));
                }
            }
            assert forall|m: KeyModel| #[trigger] key_set(keys@.take(q + 1)).contains(m) implies exists|i: int| 0 <= i < out@.len() && (#[trigger] out@[i]).key@ == m by {
                if m == entry.key@ {
                    let k = choose|k: int| 0 <= k < out@.len() && out@[k] == entry;
                    assert(out@[k].key@ == m);
                } else {
                    assert(key_set(prefix).contains(m));
                    assert(exists|i: int| 0 <= i < before.len() && (#[trigger] before[i]).key@ == m);
                    let k = choose|k: int| 0 <= k < before.len() && (#[trigger] before[k]).key@ == m;
                    assert(before.contains(before[k]));
                    assert(out@.contains(before[k]));
                    let k2 = choose|k2: int| 0 <= k2 < out@.len() && out@[k2] == before[k];
                    assert(out@[k2].key@ == m);
                }
            }
        }
        q = q + 1;
    }
    proof {
        assert(keys@.take(keys@.len() as int) =~= keys@);
        crate::keyset::lemma_sorted_len(keys@);
        assert forall|i: int| 0 <= i < out@.len() implies all_touched(fps).contains((#[trigger] out@[i]).key@) by {}
        assert forall|i: int|
            0 <= i < out@.len() && writer_count(fps, (#[trigger] out@[i]).key@, fps.len() as int) <= 4294967296 implies out@[i].conflict_pairs
                == writer_pairs(fps, out@[i].key@, fps.len() as int) + writer_reader_pairs(fps, out@[i].key@, fps.len() as int)
                && out@[i].cost == writer_pairs(fps, out@[i].key@, fps.len() as int) * 2 * model.write + writer_reader_pairs(
                fps,
                out@[i].key@,
                fps.len() as int,
            ) * (model.write + model.read) by {
            lemma_contention_counts_pairs(fps, *model, out@[i].key@);
        }
    }
    out
}

} // verus!
