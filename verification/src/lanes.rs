//! Lanes: a partition of the transactions into lanes that run concurrently,
//! each scheduled into its own sequence of conflict-free stages.
//!
//! Lane assignment is a policy ([`LaneAssignment`]); stage construction within
//! a lane is the greedy scheduler. Conflicting transactions placed in
//! different lanes are reported rather than hidden.

use vstd::prelude::*;

use crate::footprint::{conflicts, TransactionFootprint};
use crate::scheduler::{
    complete, conflict_free, flatten, greedy_stages, increasing, insert_index, is_conflict_graph,
    rows_increasing, schedule, Cluster, Schedule,
};

verus! {

/// A lane assignment policy: maps each transaction (by input index) to a
/// lane id. Lane ids need not be contiguous.
pub trait LaneAssignment {
    /// The lane id the policy gives each of `footprints`.
    spec fn lane_ids(&self, footprints: Seq<TransactionFootprint>) -> Seq<usize>;

    /// Returns the lane id for every transaction, in input order: one entry
    /// per footprint.
    fn assign(&self, footprints: &[TransactionFootprint]) -> (r: Vec<usize>)
        ensures
            r@ == self.lane_ids(footprints@),
            r@.len() == footprints@.len(),
    ;

    /// A short identifier for the policy, used in reports.
    fn name(&self) -> &str;
}

/// The default policy: a single lane containing every transaction.
#[derive(Debug, Clone, Copy, Default)]
pub struct SingleLane;

impl LaneAssignment for SingleLane {
    open spec fn lane_ids(&self, footprints: Seq<TransactionFootprint>) -> Seq<usize> {
        Seq::new(footprints.len(), |i: int| 0usize)
    }

    fn assign(&self, footprints: &[TransactionFootprint]) -> (r: Vec<usize>) {
        let mut out: Vec<usize> = Vec::new();
        for i in 0..footprints.len()
            invariant
                out@ == Seq::new(i as nat, |j: int| 0usize),
        {
            out.push(0);
            assert(out@ =~= Seq::new((i + 1) as nat, |j: int| 0usize));
        }
        out
    }

    fn name(&self) -> (r: &str)
        ensures
            r@ == "single-lane"@,
    {
        "single-lane"
    }
}

/// A structural round-robin policy (txn `i` goes to lane `i % lanes`, with at
/// least one lane). It is not contention-aware.
#[derive(Debug, Clone, Copy)]
pub struct RoundRobinLanes {
    pub lanes: usize,
}

impl LaneAssignment for RoundRobinLanes {
    open spec fn lane_ids(&self, footprints: Seq<TransactionFootprint>) -> Seq<usize> {
        let lanes = if self.lanes == 0 { 1usize } else { self.lanes };
        Seq::new(footprints.len(), |i: int| (i % (lanes as int)) as usize)
    }

    fn assign(&self, footprints: &[TransactionFootprint]) -> (r: Vec<usize>) {
        let lanes = if self.lanes == 0 { 1usize } else { self.lanes };
        let mut out: Vec<usize> = Vec::new();
        for i in 0..footprints.len()
            invariant
                lanes == (if self.lanes == 0 { 1usize } else { self.lanes }),
                out@ == Seq::new(i as nat, |j: int| (j % (lanes as int)) as usize),
        {
            out.push(i % lanes);
            assert(out@ =~= Seq::new((i + 1) as nat, |j: int| (j % (lanes as int)) as usize));
        }
        out
    }

    fn name(&self) -> (r: &str)
        ensures
            r@ == "round-robin"@,
    {
        "round-robin"
    }
}

/// A single lane: the transactions assigned to it and their stage schedule.
/// Stage clusters hold the input (global) transaction indices.
#[derive(Debug, Clone, PartialEq, Eq)]
pub struct Lane {
    pub id: usize,
    /// Transactions in this lane, in input index order.
    pub txns: Vec<usize>,
    /// The lane's own stage schedule (global indices).
    pub schedule: Schedule,
}

/// The model of a lane: its id, its transactions and its stages.
pub type LaneModel = (usize, Seq<usize>, Seq<Seq<usize>>);

impl View for Lane {
    type V = (usize, Seq<usize>, Seq<Seq<usize>>);

    open spec fn view(&self) -> (usize, Seq<usize>, Seq<Seq<usize>>) {
        (self.id, self.txns@, self.schedule@)
    }
}

impl Lane {
    /// Number of stages this lane runs in sequence.
    pub fn stage_count(&self) -> (r: usize)
        ensures
            r == self@.2.len(),
    {
        self.schedule.stage_count()
    }

    /// Number of transactions in the lane.
    pub fn width(&self) -> (r: usize)
        ensures
            r == self@.1.len(),
    {
        self.txns.len()
    }
}

/// A multi-lane schedule: independent, concurrently-executing lanes, each with
/// its own sequence of stages.
#[derive(Debug, Clone, Default, PartialEq, Eq)]
pub struct LaneSchedule {
    pub lanes: Vec<Lane>,
}

impl View for LaneSchedule {
    type V = Seq<(usize, Seq<usize>, Seq<Seq<usize>>)>;

    open spec fn view(&self) -> Seq<(usize, Seq<usize>, Seq<Seq<usize>>)> {
        self.lanes@.map_values(|l: Lane| l@)
    }
}

/// Stages over lane-local indices, mapped back to global indices.
pub open spec fn remap(stages: Seq<Seq<usize>>, txns: Seq<usize>) -> Seq<Seq<usize>> {
    stages.map_values(|st: Seq<usize>| st.map_values(|l: usize| txns[l as int]))
}

/// `adj` is the conflict graph of the lane's transactions `txns`, vertex `u`
/// standing for transaction `txns[u]`.
pub open spec fn is_lane_graph(adj: Seq<Seq<usize>>, fps: Seq<TransactionFootprint>, txns: Seq<usize>) -> bool {
    &&& adj.len() == txns.len()
    &&& rows_increasing(adj)
    &&& forall|u: int, v: usize|
        0 <= u < adj.len() ==> (#[trigger] adj[u].contains(v) <==> (v < txns.len() && v != u && conflicts(
            fps[txns[u] as int],
            fps[txns[v as int] as int],
        )))
}

/// A lane holds, in index order, exactly the transactions assigned its id,
/// and its stages are the greedy schedule of their conflict graph.
pub open spec fn lane_built(lane: LaneModel, fps: Seq<TransactionFootprint>, lane_of: Seq<usize>) -> bool {
    &&& increasing(lane.1)
    &&& forall|i: usize| #[trigger] lane.1.contains(i) <==> (i < lane_of.len() && lane_of[i as int] == lane.0)
    &&& exists|adj: Seq<Seq<usize>>|
        is_lane_graph(adj, fps, lane.1) && lane.2 == remap(greedy_stages(adj, lane.1.len()), lane.1)
}

/// Some lane has id `id`.
pub open spec fn has_lane(ls: Seq<LaneModel>, id: usize) -> bool {
    exists|l: int| 0 <= l < ls.len() && #[trigger] ls[l].0 == id
}

/// The lanes are ordered by increasing id, there is one per lane id in use,
/// and each is built from its transactions.
pub open spec fn lanes_built(ls: Seq<LaneModel>, fps: Seq<TransactionFootprint>, lane_of: Seq<usize>) -> bool {
    &&& forall|a: int, b: int| 0 <= a < b < ls.len() ==> (#[trigger] ls[a]).0 < (#[trigger] ls[b]).0
    &&& forall|id: usize| #[trigger] has_lane(ls, id) <==> lane_of.contains(id)
    &&& forall|l: int| 0 <= l < ls.len() ==> lane_built(#[trigger] ls[l], fps, lane_of)
}

/// The lane ids in use, increasing.
fn lane_id_set(lane_of: &[usize]) -> (r: Vec<usize>)
    ensures
        increasing(r@),
        forall|id: usize| #[trigger] r@.contains(id) <==> lane_of@.contains(id),
{
    let mut ids: Vec<usize> = Vec::new();
    for i in 0..lane_of.len()
        invariant
            increasing(ids@),
            forall|id: usize| #[trigger] ids@.contains(id) <==> lane_of@.take(i as int).contains(id),
    {
        insert_index(&mut ids, lane_of[i]);
        proof {
            let t0 = lane_of@.take(i as int);
            let t1 = lane_of@.take(i + 1);
            assert(t1 =~= t0.push(lane_of@[i as int]));
            assert forall|id: usize| #[trigger] t1.contains(id) <==> (t0.contains(id) || id == lane_of@[i as int]) by {
                if t1.contains(id) {
                    let p = choose|p: int| 0 <= p < t1.len() && t1[p] == id;
                    if p < i {
                        assert(t0[p] == id);
                    }
                }
                if t0.contains(id) {
                    let p = choose|p: int| 0 <= p < t0.len() && t0[p] == id;
                    assert(t1[p] == id);
                }
                if id == lane_of@[i as int] {
                    assert(t1[i as int] == id);
                }
            }
        }
    }
    proof {
        assert(lane_of@.take(lane_of@.len() as int) =~= lane_of@);
    }
    ids
}

/// The transactions assigned lane `id`, in index order.
fn lane_members(lane_of: &[usize], id: usize) -> (r: Vec<usize>)
    ensures
        increasing(r@),
        forall|i: usize| #[trigger] r@.contains(i) <==> (i < lane_of@.len() && lane_of@[i as int] == id),
{
    let mut out: Vec<usize> = Vec::new();
    for i in 0..lane_of.len()
        invariant
            increasing(out@),
            forall|j: usize| #[trigger] out@.contains(j) <==> (j < i && lane_of@[j as int] == id),
    {
        if lane_of[i] == id {
            let ghost before = out@;
            out.push(i);
            proof {
                assert forall|a: int, b: int| 0 <= a < b < out@.len() implies #[trigger] out@[a] < #[trigger] out@[b] by {
                    if b == before.len() {
                        assert(before.contains(before[a]));
                    } else {
                        assert(out@[a] == before[a] && out@[b] == before[b]);
                    }
                }
                assert forall|j: usize| #[trigger] out@.contains(j) <==> (before.contains(j) || j == i) by {
                    if out@.contains(j) {
                        let p = choose|p: int| 0 <= p < out@.len() && out@[p] == j;
                        if p < before.len() {
                            assert(before[p] == j);
                        }
                    }
                    if before.contains(j) {
                        let p = choose|p: int| 0 <= p < before.len() && before[p] == j;
                        assert(out@[p] == j);
                    }
                    if j == i {
                        assert(out@[before.len() as int] == j);
                    }
                }
            }
        }
    }
    out
}

/// Maps lane-local stage members back to global indices.
fn remap_stages(local: &Schedule, txns: &Vec<usize>) -> (r: Schedule)
    requires
        forall|s: int, p: int|
            0 <= s < local@.len() && 0 <= p < local@[s].len() ==> #[trigger] local@[s][p] < txns@.len(),
    ensures
        r@ == remap(local@, txns@),
{
    let mut stages: Vec<Cluster> = Vec::new();
    for s in 0..local.stages.len()
        invariant
            forall|s2: int, p: int|
                0 <= s2 < local@.len() && 0 <= p < local@[s2].len() ==> #[trigger] local@[s2][p] < txns@.len(),
            crate::scheduler::members(stages@) == remap(local@.take(s as int), txns@),
    {
        let cluster = &local.stages[s].txns;
        let mut mapped: Vec<usize> = Vec::new();
        for p in 0..cluster.len()
            invariant
                s < local@.len(),
                cluster@ == local@[s as int],
                forall|s2: int, p2: int|
                    0 <= s2 < local@.len() && 0 <= p2 < local@[s2].len() ==> #[trigger] local@[s2][p2] < txns@.len(),
                mapped@ == cluster@.take(p as int).map_values(|l: usize| txns@[l as int]),
        {
            assert(local@[s as int][p as int] < txns@.len());
            mapped.push(txns[cluster[p]]);
            assert(mapped@ =~= cluster@.take(p + 1).map_values(|l: usize| txns@[l as int]));
        }
        let ghost prev = crate::scheduler::members(stages@);
        proof {
            assert(cluster@.take(cluster@.len() as int) =~= cluster@);
        }
        stages.push(Cluster { txns: mapped });
        proof {
            assert(crate::scheduler::members(stages@) =~= prev.push(cluster@.map_values(|l: usize| txns@[l as int])));
            assert(local@.take(s + 1) =~= local@.take(s as int).push(local@[s as int]));
            assert(crate::scheduler::members(stages@) =~= remap(local@.take(s + 1), txns@));
        }
    }
    proof {
        assert(local@.take(local@.len() as int) =~= local@);
    }
    Schedule { stages }
}


/// Constructs a [`LaneSchedule`] from one lane id per transaction: lanes in
/// ascending id order, each holding its transactions in input order and
/// scheduled into conflict-free stages of global indices.
pub fn schedule_lanes_by(footprints: &[TransactionFootprint], lane_of: &[usize]) -> (r: LaneSchedule)
    requires
        lane_of@.len() == footprints@.len(),
    ensures
        lanes_built(r@, footprints@, lane_of@),
        forall|l: int| 0 <= l < r@.len() ==> (#[trigger] r@[l]).1.len() <= usize::MAX,
{
    let ids = lane_id_set(lane_of);
    let mut lanes: Vec<Lane> = Vec::new();
    let ghost fps = footprints@;
    for k in 0..ids.len()
        invariant
            fps == footprints@,
            lane_of@.len() == fps.len(),
            increasing(ids@),
            lanes@.len() == k,
            forall|l: int| 0 <= l < k ==> (#[trigger] lanes@[l]).id == ids@[l],
            forall|l: int| 0 <= l < k ==> lane_built(#[trigger] lanes@[l]@, fps, lane_of@),
    {
        let id = ids[k];
        let txns = lane_members(lane_of, id);
        let mut sub: Vec<TransactionFootprint> = Vec::new();
        for p in 0..txns.len()
            invariant
                fps == footprints@,
                lane_of@.len() == fps.len(),
                forall|i: usize| #[trigger] txns@.contains(i) ==> i < fps.len(),
                sub@.len() == p,
                forall|q: int| 0 <= q < p ==> (#[trigger] sub@[q]).ro() == fps[txns@[q] as int].ro()
                    && sub@[q].rw() == fps[txns@[q] as int].rw(),
        {
            assert(txns@.contains(txns@[p as int]));
            sub.push(footprints[txns[p]].duplicate());
        }
        let (graph, local) = schedule(&sub);
        proof {
            crate::scheduler::lemma_flatten(local@);
            assert forall|s: int, q: int| 0 <= s < local@.len() && 0 <= q < local@[s].len() implies #[trigger] local@[s][q]
                < txns@.len() by {
                let x = local@[s][q];
                assert(local@[s].contains(x));
                assert(crate::scheduler::scheduled(local@, x));
                assert(flatten(local@).contains(x));
                assert(sub@.len() == txns@.len());
            }
        }
        let stages = remap_stages(&local, &txns);
        let lane = Lane { id, txns, schedule: stages };
        proof {
            let g = graph@;
            assert(is_lane_graph(g, fps, lane@.1)) by {
                assert forall|u: int, v: usize| 0 <= u < g.len() implies (#[trigger] g[u].contains(v) <==> (v < lane@.1.len()
                    && v != u && conflicts(fps[lane@.1[u] as int], fps[lane@.1[v as int] as int]))) by {
                    if v < lane@.1.len() {
                        assert(sub@[u].ro() == fps[lane@.1[u] as int].ro());
                        assert(sub@[v as int].ro() == fps[lane@.1[v as int] as int].ro());
                    }
                }
            }
            assert(lane_built(lane@, fps, lane_of@));
        }
        lanes.push(lane);
    }
    let r = LaneSchedule { lanes };
    proof {
        let ls = r@;
        assert forall|a: int, b: int| 0 <= a < b < ls.len() implies (#[trigger] ls[a]).0 < (#[trigger] ls[b]).0 by {
            assert(ids@[a] < ids@[b]);
        }
        assert forall|id: usize| #[trigger] has_lane(ls, id) <==> lane_of@.contains(id) by {
            if has_lane(ls, id) {
                let l = choose|l: int| 0 <= l < ls.len() && #[trigger] ls[l].0 == id;
                assert(ids@[l] == id);
                assert(ids@.contains(id));
            }
            if lane_of@.contains(id) {
                assert(ids@.contains(id));
                let l = choose|l: int| 0 <= l < ids@.len() && ids@[l] == id;
                assert(ls[l].0 == id);
            }
        }
        assert forall|l: int| 0 <= l < ls.len() implies lane_built(#[trigger] ls[l], fps, lane_of@) by {
            assert(ls[l] == r.lanes@[l]@);
        }
        assert forall|l: int| 0 <= l < ls.len() implies (#[trigger] ls[l]).1.len() <= usize::MAX by {
            assert(ls[l].1.len() == r.lanes@[l].txns.len());
        }
    }
    r
}


/// Constructs a [`LaneSchedule`] by applying a lane-assignment policy and then
/// scheduling each lane's transactions into conflict-free stages.
pub fn schedule_lanes<A: LaneAssignment>(footprints: &[TransactionFootprint], assignment: &A) -> (r: LaneSchedule)
    ensures
        lanes_built(r@, footprints@, assignment.lane_ids(footprints@)),
        forall|l: int| 0 <= l < r@.len() ==> (#[trigger] r@[l]).1.len() <= usize::MAX,
{
    let lane_of = assignment.assign(footprints);
    schedule_lanes_by(footprints, lane_of.as_slice())
}

/// The members of every lane's stages, lane after lane.
pub open spec fn all_members(ls: Seq<LaneModel>) -> Seq<usize>
    decreases ls.len(),
{
    if ls.len() == 0 {
        Seq::empty()
    } else {
        all_members(ls.drop_last()) + flatten(ls.last().2)
    }
}

/// The sum of the lanes' widths.
pub open spec fn total_width(ls: Seq<LaneModel>) -> int
    decreases ls.len(),
{
    if ls.len() == 0 {
        0
    } else {
        total_width(ls.drop_last()) + ls.last().1.len()
    }
}

/// The largest stage count over the lanes (0 without lanes).
pub open spec fn max_stages(ls: Seq<LaneModel>) -> int
    decreases ls.len(),
{
    if ls.len() == 0 {
        0
    } else {
        let rest = max_stages(ls.drop_last());
        if ls.last().2.len() > rest {
            ls.last().2.len() as int
        } else {
            rest
        }
    }
}

/// The lane holding transaction `t` in the lane map: the last lane listing it.
pub open spec fn owner(ls: Seq<LaneModel>, t: usize) -> Option<usize>
    decreases ls.len(),
{
    if ls.len() == 0 {
        None
    } else if ls.last().1.contains(t) {
        Some(ls.last().0)
    } else {
        owner(ls.drop_last(), t)
    }
}

impl LaneSchedule {
    /// Number of lanes.
    pub fn lane_count(&self) -> (r: usize)
        ensures
            r == self@.len(),
    {
        self.lanes.len()
    }

    /// Total transactions across all lanes.
    pub fn total_transactions(&self) -> (r: usize)
        requires
            total_width(self@) <= usize::MAX,
        ensures
            r == total_width(self@),
    {
        let ghost ls = self@;
        let mut sum: usize = 0;
        for l in 0..self.lanes.len()
            invariant
                ls == self@,
                total_width(ls) <= usize::MAX,
                sum == total_width(ls.take(l as int)),
        {
            proof {
                assert(ls.take(l + 1).drop_last() =~= ls.take(l as int));
                lemma_total_width_prefix(ls, l + 1);
            }
            sum = sum + self.lanes[l].width();
        }
        proof {
            assert(ls.take(ls.len() as int) =~= ls);
        }
        sum
    }

    /// The parallel span: the maximum stage count over lanes (0 if empty).
    pub fn stage_span(&self) -> (r: usize)
        ensures
            r == max_stages(self@),
    {
        let ghost ls = self@;
        let mut best: usize = 0;
        for l in 0..self.lanes.len()
            invariant
                ls == self@,
                best == max_stages(ls.take(l as int)),
        {
            proof {
                assert(ls.take(l + 1).drop_last() =~= ls.take(l as int));
            }
            let c = self.lanes[l].stage_count();
            if c > best {
                best = c;
            }
        }
        proof {
            assert(ls.take(ls.len() as int) =~= ls);
        }
        best
    }

    /// True if every lane's stages are internally conflict-free.
    pub fn is_conflict_free(&self, footprints: &[TransactionFootprint]) -> (r: bool)
        requires
            forall|l: int, s: int, i: int|
                0 <= l < self@.len() && 0 <= s < self@[l].2.len() && 0 <= i < self@[l].2[s].len()
                    && self@[l].2[s].len() > 1 ==> #[trigger] self@[l].2[s][i] < footprints@.len(),
        ensures
            r == forall|l: int| 0 <= l < self@.len() ==> conflict_free((#[trigger] self@[l]).2, footprints@),
    {
        let ghost ls = self@;
        for l in 0..self.lanes.len()
            invariant
                ls == self@,
                forall|l2: int, s: int, i: int|
                    0 <= l2 < ls.len() && 0 <= s < ls[l2].2.len() && 0 <= i < ls[l2].2[s].len()
                        && ls[l2].2[s].len() > 1 ==> #[trigger] ls[l2].2[s][i] < footprints@.len(),
                forall|l2: int| 0 <= l2 < l ==> conflict_free((#[trigger] ls[l2]).2, footprints@),
        {
            let sched = &self.lanes[l].schedule;
            assert(sched@ == ls[l as int].2);
            if !sched.is_conflict_free(footprints) {
                return false;
            }
        }
        true
    }

    /// True if every transaction in `0..n_txns` appears exactly once across all
    /// lanes and stages, and no other transaction appears.
    pub fn is_complete(&self, n_txns: usize) -> (r: bool)
        ensures
            r == crate::scheduler::exactly_once_spec(all_members(self@), n_txns as int),
    {
        let ghost ls = self@;
        let mut flat: Vec<usize> = Vec::new();
        for l in 0..self.lanes.len()
            invariant
                ls == self@,
                flat@ == all_members(ls.take(l as int)),
        {
            let stages = &self.lanes[l].schedule.stages;
            let ghost g = ls[l as int].2;
            assert(crate::scheduler::members(stages@) == g);
            for s in 0..stages.len()
                invariant
                    ls == self@,
                    l < ls.len(),
                    crate::scheduler::members(stages@) == g,
                    g == ls[l as int].2,
                    flat@ == all_members(ls.take(l as int)) + flatten(g.take(s as int)),
            {
                let stage = &stages[s].txns;
                assert(stage@ == g[s as int]);
                for k in 0..stage.len()
                    invariant
                        s < g.len(),
                        stage@ == g[s as int],
                        flat@ == all_members(ls.take(l as int)) + flatten(g.take(s as int)) + stage@.take(k as int),
                {
                    flat.push(stage[k]);
                    assert(stage@.take(k + 1) =~= stage@.take(k as int).push(stage@[k as int]));
                    assert(flat@ =~= all_members(ls.take(l as int)) + flatten(g.take(s as int)) + stage@.take(k + 1));
                }
                proof {
                    assert(stage@.take(stage@.len() as int) =~= stage@);
                    assert(g.take(s + 1).drop_last() =~= g.take(s as int));
                    assert(flat@ =~= all_members(ls.take(l as int)) + flatten(g.take(s + 1)));
                }
            }
            proof {
                assert(g.take(g.len() as int) =~= g);
                assert(ls.take(l + 1).drop_last() =~= ls.take(l as int));
            }
        }
        proof {
            assert(ls.take(ls.len() as int) =~= ls);
        }
        crate::scheduler::exactly_once(&flat, n_txns)
    }
}

proof fn lemma_total_width_prefix(ls: Seq<LaneModel>, i: int)
    requires
        0 <= i <= ls.len(),
    ensures
        0 <= total_width(ls.take(i)) <= total_width(ls),
    decreases ls.len(),
{
    if ls.len() > 0 {
        if i == ls.len() {
            assert(ls.take(i) =~= ls);
            lemma_total_width_prefix(ls.drop_last(), i - 1);
            assert(ls.drop_last().take(i - 1) =~= ls.drop_last());
        } else {
            lemma_total_width_prefix(ls.drop_last(), i);
            assert(ls.drop_last().take(i) =~= ls.take(i));
        }
    }
}


/// Pairs ordered by first, then second component.
pub open spec fn pair_lt(x: (usize, usize), y: (usize, usize)) -> bool {
    x.0 < y.0 || (x.0 == y.0 && x.1 < y.1)
}

/// A conflicting pair `a < b` whose transactions sit in different lanes.
pub open spec fn cross_pair(ls: Seq<LaneModel>, fps: Seq<TransactionFootprint>, a: usize, b: usize) -> bool {
    &&& a < b
    &&& owner(ls, a) is Some
    &&& owner(ls, b) is Some
    &&& owner(ls, a) != owner(ls, b)
    &&& conflicts(fps[a as int], fps[b as int])
}

/// The owner of `t` after the lanes before `l`, and the first `k`
/// transactions of lane `l`.
spec fn owner_partial(ls: Seq<LaneModel>, l: int, k: int, t: usize) -> Option<usize> {
    if ls[l].1.take(k).contains(t) {
        Some(ls[l].0)
    } else {
        owner(ls.take(l), t)
    }
}

/// The transaction-to-lane map, as an increasing list of transactions and
/// their lanes.
spec fn owner_map_ok(txns: Seq<usize>, lane_ids: Seq<usize>, own: spec_fn(usize) -> Option<usize>) -> bool {
    &&& increasing(txns)
    &&& txns.len() == lane_ids.len()
    &&& forall|t: usize| #[trigger] txns.contains(t) <==> own(t) is Some
    &&& forall|p: int| 0 <= p < txns.len() ==> own(#[trigger] txns[p]) == Some(lane_ids[p])
}

/// Records that transaction `t` belongs to lane `id`, replacing any earlier
/// lane.
fn set_owner(txns: &mut Vec<usize>, lane_ids: &mut Vec<usize>, t: usize, id: usize, Ghost(own): Ghost<spec_fn(usize) -> Option<usize>>)
    requires
        owner_map_ok(old(txns)@, old(lane_ids)@, own),
    ensures
        owner_map_ok(final(txns)@, final(lane_ids)@, |x: usize| if x == t { Some(id) } else { own(x) }),
{
    let ghost new_own = |x: usize| if x == t { Some(id) } else { own(x) };
    let ghost tb = txns@;
    let ghost lb = lane_ids@;
    let mut i: usize = 0;
    while i < txns.len() && txns[i] < t
        invariant
            i <= txns.len(),
            txns@ == tb,
            lane_ids@ == lb,
            increasing(tb),
            forall|j: int| 0 <= j < i ==> #[trigger] tb[j] < t,
        decreases txns.len() - i,
    {
        i = i + 1;
    }
    if i < txns.len() && txns[i] == t {
        lane_ids.set(i, id);
        proof {
            assert forall|t2: usize| #[trigger] txns@.contains(t2) <==> new_own(t2) is Some by {
                if t2 == t {
                    assert(txns@[i as int] == t);
                }
            }
            assert forall|p: int| 0 <= p < txns@.len() implies new_own(#[trigger] txns@[p]) == Some(lane_ids@[p]) by {
                if p != i {
                    assert(tb[p] != t) by {
                        if p < i {
                        } else {
                            assert(tb[i as int] < tb[p]);
                        }
                    }
                }
            }
        }
        return;
    }
    txns.insert(i, t);
    lane_ids.insert(i, id);
    proof {
        let ta = txns@;
        let la = lane_ids@;
        assert(ta =~= tb.take(i as int).push(t).add(tb.skip(i as int)));
        assert(la =~= lb.take(i as int).push(id).add(lb.skip(i as int)));
        assert forall|j: int| i <= j < tb.len() implies t < #[trigger] tb[j] by {
            assert(tb[i as int] > t);
            if j > i {
                assert(tb[i as int] < tb[j]);
            }
        }
        assert forall|a: int, b: int| 0 <= a < b < ta.len() implies #[trigger] ta[a] < #[trigger] ta[b] by {
            if b < i {
                assert(ta[a] == tb[a] && ta[b] == tb[b]);
            } else if b == i {
                assert(ta[a] == tb[a]);
            } else if a < i {
                assert(ta[a] == tb[a] && ta[b] == tb[b - 1]);
            } else if a == i {
                assert(ta[b] == tb[b - 1]);
            } else {
                assert(ta[a] == tb[a - 1] && ta[b] == tb[b - 1]);
            }
        }
        assert forall|t2: usize| #[trigger] ta.contains(t2) <==> new_own(t2) is Some by {
            if ta.contains(t2) {
                let p = choose|p: int| 0 <= p < ta.len() && ta[p] == t2;
                if p < i {
                    assert(tb[p] == t2);
                    assert(tb.contains(t2));
                } else if p > i {
                    assert(tb[p - 1] == t2);
                    assert(tb.contains(t2));
                }
            }
            if new_own(t2) is Some {
                if t2 == t {
                    assert(ta[i as int] == t);
                } else {
                    assert(tb.contains(t2));
                    let p = choose|p: int| 0 <= p < tb.len() && tb[p] == t2;
                    if p < i {
                        assert(ta[p] == t2);
                    } else {
                        assert(ta[p + 1] == t2);
                    }
                }
            }
        }
        assert forall|p: int| 0 <= p < ta.len() implies new_own(#[trigger] ta[p]) == Some(la[p]) by {
            if p < i {
                assert(ta[p] == tb[p] && la[p] == lb[p]);
                assert(own(tb[p]) == Some(lb[p]));
            } else if p > i {
                assert(ta[p] == tb[p - 1] && la[p] == lb[p - 1]);
                assert(own(tb[p - 1]) == Some(lb[p - 1]));
            }
        }
    }
}

impl LaneSchedule {
    /// Pairs of conflicting transactions that were placed in different lanes,
    /// `(lo, hi)` with `lo < hi`, in increasing order. A transaction listed by
    /// several lanes counts as belonging to the last of them.
    pub fn cross_lane_conflicts(&self, footprints: &[TransactionFootprint]) -> (r: Vec<(usize, usize)>)
        requires
            forall|a: usize, b: usize|
                #![trigger owner(self@, a), owner(self@, b)]
                owner(self@, a) is Some && owner(self@, b) is Some && owner(self@, a) != owner(self@, b)
                    ==> a < footprints@.len() && b < footprints@.len(),
        ensures
            forall|i: int, j: int| 0 <= i < j < r@.len() ==> pair_lt(#[trigger] r@[i], #[trigger] r@[j]),
            forall|a: usize, b: usize| #[trigger] r@.contains((a, b)) <==> cross_pair(self@, footprints@, a, b),
    {
        let ghost ls = self@;
        let mut txns: Vec<usize> = Vec::new();
        let mut lane_ids: Vec<usize> = Vec::new();
        proof {
            assert forall|t: usize| #[trigger] txns@.contains(t) <==> owner(ls.take(0), t) is Some by {
                assert(ls.take(0).len() == 0);
            }
        }
        for l in 0..self.lanes.len()
            invariant
                ls == self@,
                owner_map_ok(txns@, lane_ids@, |t: usize| owner(ls.take(l as int), t)),
        {
            let lane = &self.lanes[l];
            let ghost lv = ls[l as int];
            assert(lane@ == lv);
            proof {
                assert forall|t: usize| #[trigger] owner_partial(ls, l as int, 0, t) == owner(ls.take(l as int), t) by {
                    assert(lv.1.take(0).len() == 0);
                }
                assert((|t: usize| owner_partial(ls, l as int, 0, t)) =~= (|t: usize| owner(ls.take(l as int), t)));
            }
            for k in 0..lane.txns.len()
                invariant
                    ls == self@,
                    l < ls.len(),
                    lane@ == ls[l as int],
                    owner_map_ok(txns@, lane_ids@, |t: usize| owner_partial(ls, l as int, k as int, t)),
            {
                let t = lane.txns[k];
                let ghost before = |x: usize| owner_partial(ls, l as int, k as int, x);
                set_owner(&mut txns, &mut lane_ids, t, lane.id, Ghost(before));
                proof {
                    let after = |x: usize| if x == t { Some(lane.id) } else { before(x) };
                    let t0 = ls[l as int].1.take(k as int);
                    let t1 = ls[l as int].1.take(k + 1);
                    assert(t1 =~= t0.push(t));
                    assert forall|x: usize| #[trigger] owner_partial(ls, l as int, k + 1, x) == after(x) by {
                        if t1.contains(x) && x != t {
                            let p = choose|p: int| 0 <= p < t1.len() && t1[p] == x;
                            assert(t0[p] == x);
                        }
                        if x == t {
                            assert(t1[k as int] == x);
                        }
                        if t0.contains(x) {
                            let p = choose|p: int| 0 <= p < t0.len() && t0[p] == x;
                            assert(t1[p] == x);
                        }
                    }
                    assert((|x: usize| owner_partial(ls, l as int, k + 1, x)) =~= after);
                }
            }
            proof {
                assert(ls[l as int].1.take(ls[l as int].1.len() as int) =~= ls[l as int].1);
                assert(ls.take(l + 1).drop_last() =~= ls.take(l as int));
                assert forall|t: usize| #[trigger] owner_partial(ls, l as int, ls[l as int].1.len() as int, t) == owner(ls.take(l + 1), t) by {}
                assert((|t: usize| owner_partial(ls, l as int, ls[l as int].1.len() as int, t)) =~= (|t: usize| owner(ls.take(l + 1), t)));
            }
        }
        proof {
            assert(ls.take(ls.len() as int) =~= ls);
            assert((|t: usize| owner(ls.take(ls.len() as int), t)) =~= (|t: usize| owner(ls, t)));
        }
        let ghost own = |t: usize| owner(ls, t);
        let ghost tv = txns@;
        let ghost lv = lane_ids@;
        let mut out: Vec<(usize, usize)> = Vec::new();
        let n = txns.len();
        for p in 0..n
            invariant
                ls == self@,
                n == tv.len(),
                tv == txns@,
                lv == lane_ids@,
                owner_map_ok(tv, lv, own),
                own == (|t: usize| owner(ls, t)),
                forall|a: usize, b: usize|
                    #![trigger owner(ls, a), owner(ls, b)]
                    owner(ls, a) is Some && owner(ls, b) is Some && owner(ls, a) != owner(ls, b)
                        ==> a < footprints@.len() && b < footprints@.len(),
                forall|i: int, j: int| 0 <= i < j < out@.len() ==> pair_lt(#[trigger] out@[i], #[trigger] out@[j]),
                forall|i: int| 0 <= i < out@.len() ==> p < n ==> (#[trigger] out@[i]).0 < tv[p as int],
                forall|a: usize, b: usize| #[trigger] out@.contains((a, b)) <==> (cross_pair(ls, footprints@, a, b) && tv.take(p as int).contains(a)),
        {
            let a = txns[p];
            for q in (p + 1)..n
                invariant
                    ls == self@,
                    n == tv.len(),
                    tv == txns@,
                    lv == lane_ids@,
                    p < n,
                    a == tv[p as int],
                    owner_map_ok(tv, lv, own),
                    own == (|t: usize| owner(ls, t)),
                    forall|a2: usize, b2: usize|
                        #![trigger owner(ls, a2), owner(ls, b2)]
                        owner(ls, a2) is Some && owner(ls, b2) is Some && owner(ls, a2) != owner(ls, b2)
                            ==> a2 < footprints@.len() && b2 < footprints@.len(),
                    forall|i: int, j: int| 0 <= i < j < out@.len() ==> pair_lt(#[trigger] out@[i], #[trigger] out@[j]),
                    forall|i: int| 0 <= i < out@.len() ==> q < n ==> pair_lt(#[trigger] out@[i], (a, tv[q as int])),
                    forall|a2: usize, b2: usize| #[trigger] out@.contains((a2, b2)) <==> (cross_pair(ls, footprints@, a2, b2) && (tv.take(p as int).contains(a2) || (a2 == a && tv.subrange(p + 1, q as int).contains(b2)))),
            {
                let b = txns[q];
                assert(tv[p as int] < tv[q as int]);
                assert(own(a) == Some(lv[p as int]));
                assert(own(b) == Some(lv[q as int]));
                let ghost before = out@;
                if lane_ids[p] != lane_ids[q] {
                    assert(a < footprints@.len() && b < footprints@.len());
                    if footprints[a].conflicts_with(&footprints[b]) {
                        out.push((a, b));
                    }
                }
                proof {
                    let s0 = tv.subrange(p + 1, q as int);
                    let s1 = tv.subrange(p + 1, q + 1);
                    assert(s1 =~= s0.push(b));
                    assert forall|x: usize| s1.contains(x) <==> (s0.contains(x) || x == b) by {
                        if s1.contains(x) {
                            let k = choose|k: int| 0 <= k < s1.len() && s1[k] == x;
                            if k < s0.len() {
                                assert(s0[k] == x);
                            }
                        }
                        if s0.contains(x) {
                            let k = choose|k: int| 0 <= k < s0.len() && s0[k] == x;
                            assert(s1[k] == x);
                        }
                        if x == b {
                            assert(s1[s0.len() as int] == x);
                        }
                    }
                    assert forall|a2: usize, b2: usize| #[trigger] out@.contains((a2, b2)) <==> (cross_pair(ls, footprints@, a2, b2)
                        && (tv.take(p as int).contains(a2) || (a2 == a && s1.contains(b2)))) by {
                        if out@.contains((a2, b2)) && out@ != before {
                            let k = choose|k: int| 0 <= k < out@.len() && out@[k] == (a2, b2);
                            if k < before.len() {
                                assert(before[k] == (a2, b2));
                                assert(before.contains((a2, b2)));
                            }
                        }
                        if before.contains((a2, b2)) {
                            let k = choose|k: int| 0 <= k < before.len() && before[k] == (a2, b2);
                            assert(out@[k] == (a2, b2));
                        }
                        if a2 == a && b2 == b && cross_pair(ls, footprints@, a2, b2) {
                            assert(out@[out@.len() - 1] == (a, b));
                        }
                        if tv.take(p as int).contains(a2) && a2 == a {
                            let k = choose|k: int| 0 <= k < p && tv.take(p as int)[k] == a2;
                            assert(tv[k] < tv[p as int]);
                        }
                    }
                    if q + 1 < n {
                        assert(tv[q as int] < tv[q + 1]);
                    }
                }
            }
            proof {
                let t0 = tv.take(p as int);
                let t1 = tv.take(p + 1);
                assert(t1 =~= t0.push(a));
                assert(tv.subrange(p + 1, n as int) =~= tv.skip(p + 1));
                assert forall|x: usize| t1.contains(x) <==> (t0.contains(x) || x == a) by {
                    if t1.contains(x) {
                        let k = choose|k: int| 0 <= k < t1.len() && t1[k] == x;
                        if k < p {
                            assert(t0[k] == x);
                        }
                    }
                    if t0.contains(x) {
                        let k = choose|k: int| 0 <= k < t0.len() && t0[k] == x;
                        assert(t1[k] == x);
                    }
                    if x == a {
                        assert(t1[p as int] == x);
                    }
                }
                assert forall|a2: usize, b2: usize| #[trigger] out@.contains((a2, b2)) <==> (cross_pair(ls, footprints@, a2, b2)
                    && t1.contains(a2)) by {
                    if a2 == a && cross_pair(ls, footprints@, a2, b2) {
                        assert(tv.contains(b2));
                        let k = choose|k: int| 0 <= k < tv.len() && tv[k] == b2;
                        if k <= p {
                            if k < p {
                                assert(tv[k] < tv[p as int]);
                            }
                        } else {
                            assert(tv.subrange(p + 1, n as int)[k - p - 1] == b2);
                        }
                    }
                }
                if p + 1 < n {
                    assert forall|i: int| 0 <= i < out@.len() implies (#[trigger] out@[i]).0 < tv[p + 1] by {
                        let x = out@[i];
                        assert(x == (x.0, x.1));
                        assert(out@.contains((x.0, x.1)));
                        assert(t1.contains(x.0));
                        let k = choose|k: int| 0 <= k < t1.len() && t1[k] == x.0;
                        assert(tv[k] < tv[p + 1]);
                    }
                }
            }
        }
        proof {
            assert(tv.take(n as int) =~= tv);
            assert forall|a: usize, b: usize| #[trigger] out@.contains((a, b)) <==> cross_pair(ls, footprints@, a, b) by {
                if cross_pair(ls, footprints@, a, b) {
                    assert(own(a) is Some);
                    assert(tv.contains(a));
                }
            }
        }
        out
    }
}


proof fn lemma_flatten_remap(stages: Seq<Seq<usize>>, txns: Seq<usize>)
    ensures
        flatten(remap(stages, txns)) == flatten(stages).map_values(|l: usize| txns[l as int]),
    decreases stages.len(),
{
    if stages.len() > 0 {
        lemma_flatten_remap(stages.drop_last(), txns);
        assert(remap(stages, txns).drop_last() =~= remap(stages.drop_last(), txns));
        assert(flatten(remap(stages, txns)) =~= flatten(stages).map_values(|l: usize| txns[l as int]));
    } else {
        assert(flatten(remap(stages, txns)) =~= flatten(stages).map_values(|l: usize| txns[l as int]));
    }
}

/// A built lane never puts two conflicting transactions in one stage, and
/// schedules each of its transactions exactly once.
proof fn lemma_lane_valid(lane: LaneModel, fps: Seq<TransactionFootprint>, lane_of: Seq<usize>)
    requires
        lane_built(lane, fps, lane_of),
        lane_of.len() == fps.len(),
        lane.1.len() <= usize::MAX,
    ensures
        conflict_free(lane.2, fps),
        flatten(lane.2).no_duplicates(),
        forall|x: usize| #[trigger] flatten(lane.2).contains(x) <==> lane.1.contains(x),
{
    let txns = lane.1;
    let adj = choose|adj: Seq<Seq<usize>>|
        is_lane_graph(adj, fps, txns) && lane.2 == remap(greedy_stages(adj, txns.len()), txns);
    let m = txns.len();
    let g = greedy_stages(adj, m);
    crate::scheduler::lemma_greedy_valid(adj, m);
    crate::scheduler::lemma_flatten(g);
    lemma_flatten_remap(g, txns);
    let r = lane.2;
    assert forall|s: int, q: int| 0 <= s < g.len() && 0 <= q < g[s].len() implies #[trigger] g[s][q] < m by {
        assert(g[s].contains(g[s][q]));
        assert(crate::scheduler::scheduled(g, g[s][q]));
    }
    assert forall|s: int, i: int, j: int| 0 <= s < r.len() && 0 <= i < j < r[s].len() implies !conflicts(
        fps[#[trigger] r[s][i] as int],
        fps[#[trigger] r[s][j] as int],
    ) by {
        let u = g[s][i];
        let v = g[s][j];
        assert(r[s][i] == txns[u as int] && r[s][j] == txns[v as int]);
        assert(increasing(g[s]));
        assert(!adj[v as int].contains(u));
        assert(u < m && v < m);
        crate::footprint::lemma_conflict_rule(fps[txns[u as int] as int], fps[txns[v as int] as int], (0int, Seq::<char>::empty(), Seq::<char>::empty()));
    }
    let fg = flatten(g);
    let fr = flatten(r);
    assert forall|a: int, b: int| 0 <= a < fr.len() && 0 <= b < fr.len() && a != b implies fr[a] != fr[b] by {
        assert(fg.contains(fg[a]) && fg.contains(fg[b]));
        assert(fg[a] != fg[b]);
        if fg[a] < fg[b] {
            assert(txns[fg[a] as int] < txns[fg[b] as int]);
        } else {
            assert(txns[fg[b] as int] < txns[fg[a] as int]);
        }
    }
    assert forall|x: usize| #[trigger] fr.contains(x) <==> txns.contains(x) by {
        if fr.contains(x) {
            let p = choose|p: int| 0 <= p < fr.len() && fr[p] == x;
            assert(fg.contains(fg[p]));
            assert(txns[fg[p] as int] == x);
        }
        if txns.contains(x) {
            let l = choose|l: int| 0 <= l < txns.len() && txns[l] == x;
            assert(fg.contains(l as usize));
            let p = choose|p: int| 0 <= p < fg.len() && fg[p] == l as usize;
            assert(fr[p] == x);
        }
    }
}

/// Every lane of a built lane schedule is internally conflict-free, and
/// across all lanes and stages each transaction appears exactly once.
pub proof fn lemma_lanes_valid(ls: Seq<LaneModel>, fps: Seq<TransactionFootprint>, lane_of: Seq<usize>)
    requires
        lanes_built(ls, fps, lane_of),
        lane_of.len() == fps.len(),
        forall|l: int| 0 <= l < ls.len() ==> (#[trigger] ls[l]).1.len() <= usize::MAX,
    ensures
        forall|l: int| 0 <= l < ls.len() ==> conflict_free((#[trigger] ls[l]).2, fps),
        crate::scheduler::exactly_once_spec(all_members(ls), fps.len() as int),
{
    assert forall|l: int| 0 <= l < ls.len() implies conflict_free((#[trigger] ls[l]).2, fps) by {
        lemma_lane_valid(ls[l], fps, lane_of);
    }
    lemma_all_members_prefix(ls, fps, lane_of);
    assert forall|x: usize| #[trigger] all_members(ls).contains(x) <==> x < fps.len() by {
        if x < fps.len() {
            assert(lane_of[x as int] == lane_of[x as int]);
            assert(lane_of.contains(lane_of[x as int]));
            assert(has_lane(ls, lane_of[x as int]));
            let l = choose|l: int| 0 <= l < ls.len() && #[trigger] ls[l].0 == lane_of[x as int];
            assert(lane_built(ls[l], fps, lane_of));
            assert(ls[l].1.contains(x));
        }
        if all_members(ls).contains(x) {
            let l = choose|l: int| 0 <= l < ls.len() && (#[trigger] ls[l]).1.contains(x);
            assert(lane_built(ls[l], fps, lane_of));
        }
    }
}

proof fn lemma_all_members_prefix(ls: Seq<LaneModel>, fps: Seq<TransactionFootprint>, lane_of: Seq<usize>)
    requires
        forall|a: int, b: int| 0 <= a < b < ls.len() ==> (#[trigger] ls[a]).0 < (#[trigger] ls[b]).0,
        forall|l: int| 0 <= l < ls.len() ==> lane_built(#[trigger] ls[l], fps, lane_of),
        lane_of.len() == fps.len(),
        forall|l: int| 0 <= l < ls.len() ==> (#[trigger] ls[l]).1.len() <= usize::MAX,
    ensures
        all_members(ls).no_duplicates(),
        forall|x: usize| #[trigger] all_members(ls).contains(x) <==> exists|l: int|
            0 <= l < ls.len() && (#[trigger] ls[l]).1.contains(x),
    decreases ls.len(),
{
    if ls.len() > 0 {
        let init = ls.drop_last();
        let last = ls.last();
        assert forall|a: int, b: int| 0 <= a < b < init.len() implies (#[trigger] init[a]).0 < (#[trigger] init[b]).0 by {
            assert(ls[a].0 < ls[b].0);
        }
        assert forall|l: int| 0 <= l < init.len() implies lane_built(#[trigger] init[l], fps, lane_of) by {
            assert(init[l] == ls[l]);
        }
        assert forall|l: int| 0 <= l < init.len() implies (#[trigger] init[l]).1.len() <= usize::MAX by {
            assert(init[l] == ls[l]);
        }
        lemma_all_members_prefix(init, fps, lane_of);
        lemma_lane_valid(last, fps, lane_of);
        let f0 = all_members(init);
        let fl = flatten(last.2);
        let f = all_members(ls);
        assert(f == f0 + fl);
        assert forall|x: usize| #[trigger] f.contains(x) <==> exists|l: int|
            0 <= l < ls.len() && (#[trigger] ls[l]).1.contains(x) by {
            if f.contains(x) {
                let p = choose|p: int| 0 <= p < f.len() && f[p] == x;
                if p < f0.len() {
                    assert(f0.contains(x));
                    let l = choose|l: int| 0 <= l < init.len() && (#[trigger] init[l]).1.contains(x);
                    assert(ls[l] == init[l]);
                } else {
                    assert(fl[p - f0.len()] == x);
                    assert(fl.contains(x));
                    assert(ls[ls.len() - 1].1.contains(x));
                }
            }
            if exists|l: int| 0 <= l < ls.len() && (#[trigger] ls[l]).1.contains(x) {
                let l = choose|l: int| 0 <= l < ls.len() && (#[trigger] ls[l]).1.contains(x);
                if l < init.len() {
                    assert(init[l] == ls[l]);
                    assert(f0.contains(x));
                    let p = choose|p: int| 0 <= p < f0.len() && f0[p] == x;
                    assert(f[p] == x);
                } else {
                    assert(fl.contains(x));
                    let p = choose|p: int| 0 <= p < fl.len() && fl[p] == x;
                    assert(f[f0.len() + p] == x);
                }
            }
        }
        assert forall|a: int, b: int| 0 <= a < f.len() && 0 <= b < f.len() && a != b implies f[a] != f[b] by {
            if a >= f0.len() && b >= f0.len() {
                assert(fl[a - f0.len()] != fl[b - f0.len()]);
            } else if a < f0.len() && b < f0.len() {
            } else {
                let (i, j) = if a < f0.len() { (a, b) } else { (b, a) };
                if f[i] == f[j] {
                    let x = f[i];
                    assert(f0.contains(x));
                    let l = choose|l: int| 0 <= l < init.len() && (#[trigger] init[l]).1.contains(x);
                    assert(fl[j - f0.len()] == x);
                    assert(fl.contains(x));
                    assert(last.1.contains(x));
                    assert(lane_built(ls[l], fps, lane_of));
                    assert(ls[l] == init[l]);
                    assert(ls[l].0 < ls[ls.len() - 1].0);
                }
            }
        }
    }
}


/// With every transaction assigned lane 0 (and at least one transaction),
/// the lane schedule is the single-lane schedule: one lane, id 0, holding
/// every transaction in order, whose stages are the greedy schedule of the
/// whole conflict graph.
pub proof fn lemma_single_lane(ls: Seq<LaneModel>, fps: Seq<TransactionFootprint>, adj: Seq<Seq<usize>>)
    requires
        lanes_built(ls, fps, Seq::new(fps.len(), |i: int| 0usize)),
        fps.len() > 0,
        fps.len() <= usize::MAX,
        is_conflict_graph(adj, fps),
    ensures
        ls.len() == 1,
        ls[0].0 == 0,
        ls[0].1 == Seq::new(fps.len(), |i: int| i as usize),
        ls[0].2 == greedy_stages(adj, fps.len()),
{
    let n = fps.len();
    let lane_of = Seq::new(n, |i: int| 0usize);
    assert(lane_of[0] == 0usize);
    assert(lane_of.contains(0usize));
    assert(has_lane(ls, 0usize));
    assert forall|l: int| 0 <= l < ls.len() implies (#[trigger] ls[l]).0 == 0 by {
        assert(has_lane(ls, ls[l].0));
        assert(lane_of.contains(ls[l].0));
    }
    if ls.len() > 1 {
        assert(ls[0].0 < ls[1].0);
    }
    let lane = ls[0];
    assert(lane_built(lane, fps, lane_of));
    let ids = Seq::new(n, |i: int| i as usize);
    assert(increasing(ids));
    assert forall|x: usize| #[trigger] lane.1.contains(x) <==> ids.contains(x) by {
        if x < n {
            assert(ids[x as int] == x);
        }
        if ids.contains(x) {
            let p = choose|p: int| 0 <= p < ids.len() && ids[p] == x;
        }
    }
    crate::scheduler::lemma_increasing_unique(lane.1, ids);
    let adj2 = choose|a: Seq<Seq<usize>>|
        is_lane_graph(a, fps, lane.1) && lane.2 == remap(greedy_stages(a, lane.1.len()), lane.1);
    assert forall|u: int| 0 <= u < adj.len() implies adj2[u] == adj[u] by {
        assert(increasing(adj2[u]) && increasing(adj[u]));
        assert forall|v: usize| #[trigger] adj2[u].contains(v) <==> adj[u].contains(v) by {}
        crate::scheduler::lemma_increasing_unique(adj2[u], adj[u]);
    }
    assert(adj2 =~= adj);
    let g = greedy_stages(adj, n);
    crate::scheduler::lemma_greedy_valid(adj, n);
    assert forall|s: int| 0 <= s < g.len() implies remap(g, ids)[s] == g[s] by {
        assert forall|q: int| 0 <= q < g[s].len() implies ids[g[s][q] as int] == g[s][q] by {
            assert(g[s].contains(g[s][q]));
            assert(crate::scheduler::scheduled(g, g[s][q]));
        }
        assert(remap(g, ids)[s] =~= g[s]);
    }
    assert(remap(g, ids) =~= g);
}

} // verus!
