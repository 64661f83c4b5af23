//! Static storage-access model of contract source: inferred storage keys,
//! the raw access and call records collected from a function body, and their
//! aggregation into per-function read and write sets.

use vstd::prelude::*;

use crate::detectors::DetectorFinding;
use crate::keys::chars_lt;
use crate::names::{insert_name, lemma_name_set_contains, lemma_sorted_names_len, name_set, sorted_texts};
use crate::text::{join, joined, same_text, texts};

verus! {

/// Identifier used for a key segment that cannot be statically resolved.
pub const DYNAMIC_SEGMENT: &'static str = "(dynamic)";

/// A statically inferred contract storage key. The key is a sequence of
/// segments; if any segment is unresolvable the key is dynamic.
#[derive(Debug, Clone, PartialEq, Eq)]
pub struct StaticKey {
    pub segments: Vec<String>,
}

impl View for StaticKey {
    type V = Seq<Seq<char>>;

    open spec fn view(&self) -> Seq<Seq<char>> {
        texts(self.segments@)
    }
}

impl StaticKey {
    /// A fully dynamic key.
    pub fn dynamic() -> (r: Self)
        ensures
            r@ == seq![DYNAMIC_SEGMENT@],
    {
        StaticKey::from_segment(String::from_str(DYNAMIC_SEGMENT))
    }

    /// A key of one segment.
    pub fn from_segment(segment: String) -> (r: Self)
        ensures
            r@ == seq![segment@],
    {
        let mut segments: Vec<String> = Vec::new();
        segments.push(segment);
        let r = StaticKey { segments };
        assert(r@ =~= seq![r.segments@[0]@]);
        r
    }

    /// Whether any segment could not be resolved statically.
    pub fn is_dynamic(&self) -> (r: bool)
        ensures
            r == self@.contains(DYNAMIC_SEGMENT@),
    {
        let mut i: usize = 0;
        while i < self.segments.len()
            invariant
                i <= self.segments.len(),
                forall|j: int| 0 <= j < i ==> self@[j] != DYNAMIC_SEGMENT@,
            decreases self.segments.len() - i,
        {
            if same_text(self.segments[i].as_str(), DYNAMIC_SEGMENT) {
                assert(self@[i as int] == DYNAMIC_SEGMENT@);
                return true;
            }
            i = i + 1;
        }
        false
    }

    /// The canonical string form of the key: its segments joined with `.`.
    pub fn as_key(&self) -> (r: String)
        ensures
            r@ == joined(self@, "."@),
    {
        join(self.segments.as_slice(), ".")
    }

    /// Whether two keys have the same segments.
    pub fn same_as(&self, other: &StaticKey) -> (r: bool)
        ensures
            r == (self@ == other@),
    {
        if self.segments.len() != other.segments.len() {
            assert(self@.len() != other@.len());
            return false;
        }
        let mut i: usize = 0;
        while i < self.segments.len()
            invariant
                i <= self.segments.len(),
                self.segments.len() == other.segments.len(),
                forall|j: int| 0 <= j < i ==> self@[j] == other@[j],
            decreases self.segments.len() - i,
        {
            if !same_text(self.segments[i].as_str(), other.segments[i].as_str()) {
                assert(self@[i as int] != other@[i as int]);
                return false;
            }
            i = i + 1;
        }
        assert(self@ =~= other@);
        true
    }

    /// A copy of the key with the same segments.
    pub fn duplicate(&self) -> (r: StaticKey)
        ensures
            r@ == self@,
    {
        let mut segments: Vec<String> = Vec::new();
        let mut i: usize = 0;
        while i < self.segments.len()
            invariant
                i <= self.segments.len(),
                texts(segments@) == self@.take(i as int),
            decreases self.segments.len() - i,
        {
            let ghost pre = segments@;
            let seg = self.segments[i].clone();
            segments.push(seg);
            proof {
                assert(segments@ =~= pre.push(seg));
                assert(seg@ == self@[i as int]);
                assert(texts(segments@) =~= texts(pre).push(seg@));
                assert(self@.take(i + 1) =~= self@.take(i as int).push(self@[i as int]));
            }
            i = i + 1;
        }
        assert(self@.take(self@.len() as int) =~= self@);
        StaticKey { segments }
    }
}

/// Whether an access reads or writes storage.
#[derive(Debug, Clone, Copy, PartialEq, Eq, Structural)]
pub enum AccessKind {
    Read,
    Write,
}

/// One storage access observed in a function body.
#[derive(Debug, Clone, PartialEq, Eq)]
pub struct AccessRecord {
    /// The function containing the access.
    pub function: String,
    pub kind: AccessKind,
    pub key: StaticKey,
    /// The storage method called (`get`, `put`, ...).
    pub method: String,
    /// Whether the access sits inside a loop body.
    pub in_loop: bool,
}

/// A candidate cross-contract (or intra-contract) method call, e.g.
/// `client.increment(...)` or `self.helper(...)`.
#[derive(Debug, Clone, PartialEq, Eq)]
pub struct CallRecord {
    /// The function containing the call.
    pub function: String,
    /// The method called.
    pub method: String,
    /// The receiver written at the call site.
    pub receiver: String,
    /// Whether the call sits inside a loop body.
    pub in_loop: bool,
}

/// The storage accesses inferred for a single function.
#[derive(Debug, Clone, PartialEq, Eq)]
pub struct FunctionAccess {
    pub function_name: String,
    pub storage_reads: Vec<StaticKey>,
    pub storage_writes: Vec<StaticKey>,
    /// Effective reads: own reads unioned with the reads of every transitively
    /// called function across an analyzed file set.
    pub effective_storage_reads: Vec<StaticKey>,
    /// Effective writes: own writes unioned with the writes of every
    /// transitively called function.
    pub effective_storage_writes: Vec<StaticKey>,
}

/// A resolved call edge between two functions in an analyzed file set.
#[derive(Debug, Clone, PartialEq, Eq)]
pub struct CallEdge {
    /// The function containing the call.
    pub from_function: String,
    /// The source file `from_function` lives in.
    pub from_source: String,
    /// The function the call resolved to.
    pub to_function: String,
    /// The source file `to_function` lives in.
    pub to_source: String,
}

/// A call that could not be resolved to a concrete function.
#[derive(Debug, Clone, PartialEq, Eq)]
pub struct UnresolvedCall {
    /// The function containing the call.
    pub from_function: String,
    /// The source file `from_function` lives in.
    pub from_source: String,
    /// The receiver expression written at the call site (e.g. `client`).
    pub receiver: String,
    /// The method name called, when it could be identified.
    pub method: Option<String>,
    /// Why the call was treated as dynamic / unresolved.
    pub reason: String,
}

/// The lightweight call graph built over an analyzed file set.
#[derive(Debug, Clone, PartialEq, Eq)]
pub struct CallGraph {
    /// Resolved call edges.
    pub edges: Vec<CallEdge>,
    /// Calls that could not be resolved statically; consumers must treat them
    /// as potentially touching any key.
    pub unresolved: Vec<UnresolvedCall>,
}

impl Default for CallGraph {
    fn default() -> (r: Self)
        ensures
            r.edges@.len() == 0,
            r.unresolved@.len() == 0,
    {
        CallGraph { edges: Vec::new(), unresolved: Vec::new() }
    }
}

/// The result of statically analyzing one source file.
#[derive(Debug, Clone, PartialEq, Eq)]
pub struct AnalysisReport {
    pub source_name: String,
    pub functions: Vec<FunctionAccess>,
    pub detectors: Vec<DetectorFinding>,
    /// The call graph this file participates in.
    pub call_graph: CallGraph,
}

/// The models of a sequence of keys.
pub open spec fn key_models(s: Seq<StaticKey>) -> Seq<Seq<Seq<char>>> {
    s.map_values(|k: StaticKey| k@)
}

/// `s` with every element after its first occurrence removed.
pub open spec fn dedup<A>(s: Seq<A>) -> Seq<A>
    decreases s.len(),
{
    if s.len() == 0 {
        s
    } else {
        let d = dedup(s.drop_last());
        if d.contains(s.last()) {
            d
        } else {
            d.push(s.last())
        }
    }
}

/// The keys that function `f` accesses with `kind`, in record order.
pub open spec fn keys_of(accesses: Seq<AccessRecord>, f: Seq<char>, kind: AccessKind) -> Seq<Seq<Seq<char>>>
    decreases accesses.len(),
{
    if accesses.len() == 0 {
        Seq::empty()
    } else {
        let rest = keys_of(accesses.drop_last(), f, kind);
        let a = accesses.last();
        if a.function@ == f && a.kind == kind {
            rest.push(a.key@)
        } else {
            rest
        }
    }
}

/// The functions that appear in the access records.
pub open spec fn access_functions(accesses: Seq<AccessRecord>) -> Set<Seq<char>> {
    Set::new(|f: Seq<char>| exists|i: int| 0 <= i < accesses.len() && (#[trigger] accesses[i]).function@ == f)
}

/// The functions that appear in the call records.
pub open spec fn call_functions(calls: Seq<CallRecord>) -> Set<Seq<char>> {
    Set::new(|f: Seq<char>| exists|i: int| 0 <= i < calls.len() && (#[trigger] calls[i]).function@ == f)
}

/// `fa` holds exactly the accesses of function `f`: its name, and its reads
/// and writes each without repeats in first-seen order, with the effective
/// sets equal to its own.
pub open spec fn own_access(fa: FunctionAccess, accesses: Seq<AccessRecord>, f: Seq<char>) -> bool {
    &&& fa.function_name@ == f
    &&& key_models(fa.storage_reads@) == dedup(keys_of(accesses, f, AccessKind::Read))
    &&& key_models(fa.storage_writes@) == dedup(keys_of(accesses, f, AccessKind::Write))
    &&& key_models(fa.effective_storage_reads@) == key_models(fa.storage_reads@)
    &&& key_models(fa.effective_storage_writes@) == key_models(fa.storage_writes@)
}

/// `r` lists one entry per function of `names`, in name order, each holding
/// exactly that function's accesses.
pub open spec fn aggregated(r: Seq<FunctionAccess>, accesses: Seq<AccessRecord>, names: Set<Seq<char>>) -> bool {
    &&& forall|i: int, j: int| 0 <= i < j < r.len() ==> chars_lt((#[trigger] r[i]).function_name@, (#[trigger] r[j]).function_name@)
    &&& forall|i: int| 0 <= i < r.len() ==> names.contains((#[trigger] r[i]).function_name@) && own_access(r[i], accesses, r[i].function_name@)
    &&& forall|f: Seq<char>| #[trigger] names.contains(f) ==> exists|i: int| 0 <= i < r.len() && (#[trigger] r[i]).function_name@ == f
}

/// Appending to a sequence extends its first-occurrence listing by the new
/// element unless it is already listed.
pub proof fn lemma_dedup_push<A>(s: Seq<A>, x: A)
    ensures
        dedup(s.push(x)) == if dedup(s).contains(x) { dedup(s) } else { dedup(s).push(x) },
{
    assert(s.push(x).drop_last() =~= s);
}

/// A copy of a key vector with the same models.
pub fn copy_keys(v: &Vec<StaticKey>) -> (r: Vec<StaticKey>)
    ensures
        key_models(r@) == key_models(v@),
{
    let mut out: Vec<StaticKey> = Vec::new();
    let mut i: usize = 0;
    while i < v.len()
        invariant
            i <= v.len(),
            key_models(out@) == key_models(v@.take(i as int)),
        decreases v.len() - i,
    {
        let ghost pre = out@;
        let k = v[i].duplicate();
        out.push(k);
        proof {
            assert(out@ =~= pre.push(k));
            assert(key_models(out@) =~= key_models(pre).push(k@));
            assert(v@.take(i + 1) =~= v@.take(i as int).push(v@[i as int]));
            assert(key_models(v@.take(i + 1)) =~= key_models(v@.take(i as int)).push(v@[i as int]@));
        }
        i = i + 1;
    }
    assert(v@.take(v@.len() as int) =~= v@);
    out
}

/// Appends `key` to `bucket` unless a key with the same segments is there.
pub(crate) fn push_unique(bucket: &mut Vec<StaticKey>, key: &StaticKey)
    ensures
        key_models(final(bucket)@) == if key_models(old(bucket)@).contains(key@) {
            key_models(old(bucket)@)
        } else {
            key_models(old(bucket)@).push(key@)
        },
{
    let mut i: usize = 0;
    while i < bucket.len()
        invariant
            i <= bucket.len(),
            forall|j: int| 0 <= j < i ==> bucket@[j]@ != key@,
        decreases bucket.len() - i,
    {
        if bucket[i].same_as(key) {
            assert(key_models(bucket@)[i as int] == key@);
            return;
        }
        i = i + 1;
    }
    proof {
        assert forall|j: int| 0 <= j < key_models(bucket@).len() implies key_models(bucket@)[j] != key@ by {
            assert(key_models(bucket@)[j] == bucket@[j]@);
        }
    }
    let ghost before = bucket@;
    bucket.push(key.duplicate());
    assert(key_models(bucket@) =~= key_models(before).push(key@));
}

/// The reads and writes of function `name`, each without repeats in
/// first-seen order.
fn function_keys(accesses: &[AccessRecord], name: &str) -> (r: (Vec<StaticKey>, Vec<StaticKey>))
    ensures
        key_models(r.0@) == dedup(keys_of(accesses@, name@, AccessKind::Read)),
        key_models(r.1@) == dedup(keys_of(accesses@, name@, AccessKind::Write)),
{
    let mut reads: Vec<StaticKey> = Vec::new();
    let mut writes: Vec<StaticKey> = Vec::new();
    let mut j: usize = 0;
    proof {
        assert(key_models(reads@) =~= Seq::<Seq<Seq<char>>>::empty());
        assert(key_models(writes@) =~= Seq::<Seq<Seq<char>>>::empty());
    }
    while j < accesses.len()
        invariant
            j <= accesses.len(),
            key_models(reads@) == dedup(keys_of(accesses@.take(j as int), name@, AccessKind::Read)),
            key_models(writes@) == dedup(keys_of(accesses@.take(j as int), name@, AccessKind::Write)),
        decreases accesses.len() - j,
    {
        let a = &accesses[j];
        let ghost pre = accesses@.take(j as int);
        let ghost post = accesses@.take(j + 1);
        proof {
            assert(post.drop_last() =~= pre);
            assert(post.last() == *a);
            lemma_dedup_push(keys_of(pre, name@, AccessKind::Read), a.key@);
            lemma_dedup_push(keys_of(pre, name@, AccessKind::Write), a.key@);
        }
        if same_text(a.function.as_str(), name) {
            match a.kind {
                AccessKind::Read => push_unique(&mut reads, &a.key),
                AccessKind::Write => push_unique(&mut writes, &a.key),
            }
        }
        j = j + 1;
    }
    proof {
        assert(accesses@.take(accesses@.len() as int) =~= accesses@);
    }
    (reads, writes)
}

/// One entry per name, each with that function's own accesses.
fn aggregate_names(names: &Vec<String>, accesses: &[AccessRecord]) -> (r: Vec<FunctionAccess>)
    requires
        sorted_texts(texts(names@)),
    ensures
        aggregated(r@, accesses@, name_set(names@)),
{
    let mut out: Vec<FunctionAccess> = Vec::new();
    let mut i: usize = 0;
    while i < names.len()
        invariant
            i <= names.len(),
            sorted_texts(texts(names@)),
            out@.len() == i,
            forall|k: int| 0 <= k < i ==> (#[trigger] out@[k]).function_name@ == names@[k]@ && own_access(out@[k], accesses@, names@[k]@),
        decreases names.len() - i,
    {
        let (reads, writes) = function_keys(accesses, names[i].as_str());
        let entry = FunctionAccess {
            function_name: names[i].clone(),
            storage_reads: copy_keys(&reads),
            storage_writes: copy_keys(&writes),
            effective_storage_reads: reads,
            effective_storage_writes: writes,
        };
        out.push(entry);
        i = i + 1;
    }
    proof {
        assert forall|a: int, b: int| 0 <= a < b < out@.len() implies chars_lt((#[trigger] out@[a]).function_name@, (#[trigger] out@[b]).function_name@) by {
            assert(texts(names@)[a] == names@[a]@);
            assert(texts(names@)[b] == names@[b]@);
        }
        assert forall|k: int| 0 <= k < out@.len() implies name_set(names@).contains((#[trigger] out@[k]).function_name@) by {
            lemma_name_set_contains(names@, names@[k]@);
        }
        assert forall|f: Seq<char>| #[trigger] name_set(names@).contains(f) implies exists|k: int| 0 <= k < out@.len() && (#[trigger] out@[k]).function_name@ == f by {
            lemma_name_set_contains(names@, f);
            let k = choose|k: int| 0 <= k < names@.len() && #[trigger] names@[k]@ == f;
            assert(out@[k].function_name@ == f);
        }
    }
    out
}

/// The sorted names of the functions in the access records, followed by
/// those of the call records.
pub(crate) fn record_names(accesses: &[AccessRecord], calls: &[CallRecord]) -> (r: Vec<String>)
    ensures
        sorted_texts(texts(r@)),
        name_set(r@) == access_functions(accesses@).union(call_functions(calls@)),
{
    let mut names: Vec<String> = Vec::new();
    proof {
        assert(name_set(names@) =~= Set::<Seq<char>>::empty());
    }
    let mut j: usize = 0;
    while j < accesses.len()
        invariant
            j <= accesses.len(),
            sorted_texts(texts(names@)),
            name_set(names@) == access_functions(accesses@.take(j as int)),
        decreases accesses.len() - j,
    {
        insert_name(&mut names, accesses[j].function.as_str());
        proof {
            let pre = accesses@.take(j as int);
            let post = accesses@.take(j + 1);
            assert forall|f: Seq<char>| access_functions(post).contains(f) <==> access_functions(pre).insert(accesses@[j as int].function@).contains(f) by {
                if access_functions(post).contains(f) {
                    let k = choose|k: int| 0 <= k < post.len() && (#[trigger] post[k]).function@ == f;
                    if k < j {
                        assert(pre[k] == post[k]);
                    }
                }
                if access_functions(pre).contains(f) {
                    let k = choose|k: int| 0 <= k < pre.len() && (#[trigger] pre[k]).function@ == f;
                    assert(post[k] == pre[k]);
                }
                if f == accesses@[j as int].function@ {
                    assert(post[j as int] == accesses@[j as int]);
                }
            }
            assert(access_functions(post) =~= access_functions(pre).insert(accesses@[j as int].function@));
        }
        j = j + 1;
    }
    proof {
        assert(accesses@.take(accesses@.len() as int) =~= accesses@);
        assert(call_functions(calls@.take(0)) =~= Set::<Seq<char>>::empty());
        assert(name_set(names@) =~= access_functions(accesses@).union(call_functions(calls@.take(0))));
    }
    let mut c: usize = 0;
    while c < calls.len()
        invariant
            c <= calls.len(),
            sorted_texts(texts(names@)),
            name_set(names@) == access_functions(accesses@).union(call_functions(calls@.take(c as int))),
        decreases calls.len() - c,
    {
        insert_name(&mut names, calls[c].function.as_str());
        proof {
            let pre = calls@.take(c as int);
            let post = calls@.take(c + 1);
            assert forall|f: Seq<char>| call_functions(post).contains(f) <==> call_functions(pre).insert(calls@[c as int].function@).contains(f) by {
                if call_functions(post).contains(f) {
                    let k = choose|k: int| 0 <= k < post.len() && (#[trigger] post[k]).function@ == f;
                    if k < c {
                        assert(pre[k] == post[k]);
                    }
                }
                if call_functions(pre).contains(f) {
                    let k = choose|k: int| 0 <= k < pre.len() && (#[trigger] pre[k]).function@ == f;
                    assert(post[k] == pre[k]);
                }
                if f == calls@[c as int].function@ {
                    assert(post[c as int] == calls@[c as int]);
                }
            }
            assert(call_functions(post) =~= call_functions(pre).insert(calls@[c as int].function@));
            assert(name_set(names@) =~= access_functions(accesses@).union(call_functions(post)));
        }
        c = c + 1;
    }
    proof {
        assert(calls@.take(calls@.len() as int) =~= calls@);
    }
    names
}

/// Collapses access records into per-function read/write key lists, one
/// entry per function in name order, each list without repeats in
/// first-seen order.
pub fn aggregate(accesses: &[AccessRecord]) -> (r: Vec<FunctionAccess>)
    ensures
        aggregated(r@, accesses@, access_functions(accesses@)),
{
    let no_calls: Vec<CallRecord> = Vec::new();
    let names = record_names(accesses, no_calls.as_slice());
    proof {
        assert(call_functions(no_calls@) =~= Set::<Seq<char>>::empty());
        assert(access_functions(accesses@).union(call_functions(no_calls@)) =~= access_functions(accesses@));
    }
    aggregate_names(&names, accesses)
}

/// Like [`aggregate`], but also lists the functions that appear only in call
/// records (a caller that itself touches no storage), with empty lists.
pub fn aggregate_with_calls(accesses: &[AccessRecord], calls: &[CallRecord]) -> (r: Vec<FunctionAccess>)
    ensures
        aggregated(r@, accesses@, access_functions(accesses@).union(call_functions(calls@))),
{
    let names = record_names(accesses, calls);
    aggregate_names(&names, accesses)
}

} // verus!
