//! The call graph over an analyzed file set: method calls resolved to the
//! functions defined across the set, calls that cannot be resolved, and each
//! function's effective footprint (its own accesses together with those of
//! every function it transitively calls).

use vstd::prelude::*;

use crate::analysis::{
    aggregate, aggregate_with_calls, aggregated, access_functions, call_functions, copy_keys, dedup,
    key_models, keys_of, lemma_dedup_push, own_access, AccessKind, AccessRecord, AnalysisReport,
    CallEdge, CallGraph, CallRecord, FunctionAccess, StaticKey, UnresolvedCall,
};
use crate::detectors::{detectors_ok, run};
use crate::keys::chars_lt;
use crate::names::{insert_name, lemma_name_set_contains, lemma_sorted_names_len, name_set, sorted_texts};
use crate::syntax::BodyRecords;
use crate::text::{decimal, decimal_string, same_text, texts};

verus! {

/// Whether a method name is a standard-library or SDK helper rather than a
/// contract call. Such calls are not reported as unresolved, though one that
/// resolves to an analyzed function is still linked.
pub open spec fn is_noise(m: Seq<char>) -> bool {
    m == "iter"@
        || m == "into_iter"@
        || m == "clone"@
        || m == "cloned"@
        || m == "copied"@
        || m == "unwrap"@
        || m == "unwrap_or"@
        || m == "unwrap_or_default"@
        || m == "expect"@
        || m == "map"@
        || m == "filter"@
        || m == "collect"@
        || m == "enumerate"@
        || m == "zip"@
        || m == "fold"@
        || m == "for_each"@
        || m == "find"@
        || m == "any"@
        || m == "all"@
        || m == "count"@
        || m == "sum"@
        || m == "product"@
        || m == "len"@
        || m == "is_empty"@
        || m == "contains"@
        || m == "push"@
        || m == "pop"@
        || m == "insert"@
        || m == "remove"@
        || m == "extend"@
        || m == "get"@
        || m == "first"@
        || m == "last"@
        || m == "as_ref"@
        || m == "as_str"@
        || m == "as_bytes"@
        || m == "to_string"@
        || m == "to_vec"@
        || m == "to_u32"@
        || m == "to_i64"@
        || m == "to_u64"@
        || m == "from_xdr"@
        || m == "to_xdr"@
        || m == "bytes"@
        || m == "require_auth"@
        || m == "require_auth_for_args"@
        || m == "current_contract_address"@
        || m == "contract_id"@
        || m == "network"@
        || m == "ledger"@
        || m == "printer"@
        || m == "events"@
        || m == "storage"@
        || m == "invoke_contract"@
}

/// Whether `m` is one of the helper method names skipped as unresolved noise.
pub fn is_noise_method(m: &str) -> (r: bool)
    ensures
        r == is_noise(m@),
{
    same_text(m, "iter")
        || same_text(m, "into_iter")
        || same_text(m, "clone")
        || same_text(m, "cloned")
        || same_text(m, "copied")
        || same_text(m, "unwrap")
        || same_text(m, "unwrap_or")
        || same_text(m, "unwrap_or_default")
        || same_text(m, "expect")
        || same_text(m, "map")
        || same_text(m, "filter")
        || same_text(m, "collect")
        || same_text(m, "enumerate")
        || same_text(m, "zip")
        || same_text(m, "fold")
        || same_text(m, "for_each")
        || same_text(m, "find")
        || same_text(m, "any")
        || same_text(m, "all")
        || same_text(m, "count")
        || same_text(m, "sum")
        || same_text(m, "product")
        || same_text(m, "len")
        || same_text(m, "is_empty")
        || same_text(m, "contains")
        || same_text(m, "push")
        || same_text(m, "pop")
        || same_text(m, "insert")
        || same_text(m, "remove")
        || same_text(m, "extend")
        || same_text(m, "get")
        || same_text(m, "first")
        || same_text(m, "last")
        || same_text(m, "as_ref")
        || same_text(m, "as_str")
        || same_text(m, "as_bytes")
        || same_text(m, "to_string")
        || same_text(m, "to_vec")
        || same_text(m, "to_u32")
        || same_text(m, "to_i64")
        || same_text(m, "to_u64")
        || same_text(m, "from_xdr")
        || same_text(m, "to_xdr")
        || same_text(m, "bytes")
        || same_text(m, "require_auth")
        || same_text(m, "require_auth_for_args")
        || same_text(m, "current_contract_address")
        || same_text(m, "contract_id")
        || same_text(m, "network")
        || same_text(m, "ledger")
        || same_text(m, "printer")
        || same_text(m, "events")
        || same_text(m, "storage")
        || same_text(m, "invoke_contract")
}

/// The access and call records of one source file.
#[derive(Debug, Clone, PartialEq, Eq)]
pub struct SourceRecords {
    pub source_name: String,
    pub accesses: Vec<AccessRecord>,
    pub calls: Vec<CallRecord>,
}

/// The sources that define a function named `m`: those in whose records a
/// function of that name appears, with a storage access or as a caller.
pub open spec fn defining_sources(files: Seq<SourceRecords>, m: Seq<char>) -> Set<Seq<char>> {
    Set::new(
        |s: Seq<char>|
            exists|i: int| 0 <= i < files.len() && file_functions(#[trigger] files[i]).contains(m) && files[i].source_name@ == s,
    )
}

/// Whether a function named `m` appears in the access or the call records.
fn defines(accesses: &[AccessRecord], calls: &[CallRecord], m: &str) -> (r: bool)
    ensures
        r == access_functions(accesses@).union(call_functions(calls@)).contains(m@),
{
    let mut j: usize = 0;
    while j < accesses.len()
        invariant
            j <= accesses.len(),
            forall|k: int| 0 <= k < j ==> accesses@[k].function@ != m@,
        decreases accesses.len() - j,
    {
        if same_text(accesses[j].function.as_str(), m) {
            assert(accesses@[j as int].function@ == m@);
            return true;
        }
        j = j + 1;
    }
    let mut c: usize = 0;
    while c < calls.len()
        invariant
            c <= calls.len(),
            forall|k: int| 0 <= k < accesses@.len() ==> accesses@[k].function@ != m@,
            forall|k: int| 0 <= k < c ==> calls@[k].function@ != m@,
        decreases calls.len() - c,
    {
        if same_text(calls[c].function.as_str(), m) {
            assert(calls@[c as int].function@ == m@);
            return true;
        }
        c = c + 1;
    }
    false
}

/// The names of the sources defining a function named `m`, in order.
fn defining_source_names(files: &[SourceRecords], m: &str) -> (r: Vec<String>)
    ensures
        sorted_texts(texts(r@)),
        name_set(r@) == defining_sources(files@, m@),
        defining_sources(files@, m@).finite(),
        defining_sources(files@, m@).len() == r@.len(),
{
    let mut names: Vec<String> = Vec::new();
    proof {
        assert(name_set(names@) =~= defining_sources(files@.take(0), m@));
    }
    let mut i: usize = 0;
    while i < files.len()
        invariant
            i <= files.len(),
            sorted_texts(texts(names@)),
            name_set(names@) == defining_sources(files@.take(i as int), m@),
        decreases files.len() - i,
    {
        let file = &files[i];
        let ghost pre = files@.take(i as int);
        let ghost post = files@.take(i + 1);
        let hit = defines(file.accesses.as_slice(), file.calls.as_slice(), m);
        if hit {
            insert_name(&mut names, file.source_name.as_str());
        }
        proof {
            let want = if hit {
                defining_sources(pre, m@).insert(file.source_name@)
            } else {
                defining_sources(pre, m@)
            };
            assert forall|x: Seq<char>| defining_sources(post, m@).contains(x) <==> want.contains(x) by {
                if defining_sources(post, m@).contains(x) {
                    let k = choose|k: int|
                        0 <= k < post.len() && file_functions(#[trigger] post[k]).contains(m@) && post[k].source_name@ == x;
                    if k < i {
                        assert(pre[k] == post[k]);
                    }
                }
                if defining_sources(pre, m@).contains(x) {
                    let k = choose|k: int|
                        0 <= k < pre.len() && file_functions(#[trigger] pre[k]).contains(m@) && pre[k].source_name@ == x;
                    assert(post[k] == pre[k]);
                }
                if hit && x == file.source_name@ {
                    assert(post[i as int] == *file);
                }
            }
            assert(defining_sources(post, m@) =~= want);
        }
        i = i + 1;
    }
    proof {
        assert(files@.take(files@.len() as int) =~= files@);
        lemma_sorted_names_len(names@);
    }
    names
}

/// The call sites of one source: each call paired with the source's name.
pub open spec fn file_sites(src: Seq<char>, calls: Seq<CallRecord>) -> Seq<(Seq<char>, CallRecord)> {
    calls.map_values(|c: CallRecord| (src, c))
}

/// Every call site of the file set, file by file in call order.
pub open spec fn site_list(files: Seq<SourceRecords>) -> Seq<(Seq<char>, CallRecord)>
    decreases files.len(),
{
    if files.len() == 0 {
        Seq::empty()
    } else {
        site_list(files.drop_last()) + file_sites(files.last().source_name@, files.last().calls@)
    }
}

/// The model of a call edge: from function, from source, to function, to
/// source.
pub open spec fn edge_model(e: CallEdge) -> (Seq<char>, Seq<char>, Seq<char>, Seq<char>) {
    (e.from_function@, e.from_source@, e.to_function@, e.to_source@)
}

/// The models of a sequence of edges.
pub open spec fn edge_models(s: Seq<CallEdge>) -> Seq<(Seq<char>, Seq<char>, Seq<char>, Seq<char>)> {
    s.map_values(|e: CallEdge| edge_model(e))
}

/// The edges of the call sites: a call whose method is defined in exactly
/// one source resolves to that source's function.
pub open spec fn edges_from(files: Seq<SourceRecords>, sites: Seq<(Seq<char>, CallRecord)>) -> Seq<(Seq<char>, Seq<char>, Seq<char>, Seq<char>)>
    decreases sites.len(),
{
    if sites.len() == 0 {
        Seq::empty()
    } else {
        let rest = edges_from(files, sites.drop_last());
        let src = sites.last().0;
        let c = sites.last().1;
        let ds = defining_sources(files, c.method@);
        if ds.len() == 1 {
            rest.push((c.function@, src, c.method@, ds.choose()))
        } else {
            rest
        }
    }
}

/// The reason given for a call whose method `m` is defined in `n` sources.
pub open spec fn ambiguous_reason(m: Seq<char>, n: nat) -> Seq<char> {
    "`"@ + m + "` is ambiguous across the file set ("@ + decimal(n) + " candidates)"@
}

/// The reason given for a call whose method `m` is defined nowhere.
pub open spec fn missing_reason(m: Seq<char>) -> Seq<char> {
    "no function named `"@ + m + "` in the analyzed file set"@
}

/// The model of an unresolved call: from function, from source, receiver,
/// method and reason.
pub open spec fn unresolved_model(u: UnresolvedCall) -> (Seq<char>, Seq<char>, Seq<char>, Option<Seq<char>>, Seq<char>) {
    (
        u.from_function@,
        u.from_source@,
        u.receiver@,
        match u.method {
            Some(m) => Some(m@),
            None => None,
        },
        u.reason@,
    )
}

/// The models of a sequence of unresolved calls.
pub open spec fn unresolved_models(s: Seq<UnresolvedCall>) -> Seq<(Seq<char>, Seq<char>, Seq<char>, Option<Seq<char>>, Seq<char>)> {
    s.map_values(|u: UnresolvedCall| unresolved_model(u))
}

/// The unresolved calls of the call sites: a method defined in several
/// sources is ambiguous; one defined nowhere is missing, unless it is a
/// helper name.
pub open spec fn unresolved_from(files: Seq<SourceRecords>, sites: Seq<(Seq<char>, CallRecord)>) -> Seq<(Seq<char>, Seq<char>, Seq<char>, Option<Seq<char>>, Seq<char>)>
    decreases sites.len(),
{
    if sites.len() == 0 {
        Seq::empty()
    } else {
        let rest = unresolved_from(files, sites.drop_last());
        let src = sites.last().0;
        let c = sites.last().1;
        let ds = defining_sources(files, c.method@);
        if ds.len() == 1 {
            rest
        } else if ds.len() > 1 {
            rest.push((c.function@, src, c.receiver@, Some(c.method@), ambiguous_reason(c.method@, ds.len())))
        } else if is_noise(c.method@) {
            rest
        } else {
            rest.push((c.function@, src, c.receiver@, Some(c.method@), missing_reason(c.method@)))
        }
    }
}

/// Resolves every call of the file set against the functions defined
/// across it, in file and call order.
pub fn resolve_calls(files: &[SourceRecords]) -> (r: (Vec<CallEdge>, Vec<UnresolvedCall>))
    ensures
        edge_models(r.0@) == edges_from(files@, site_list(files@)),
        unresolved_models(r.1@) == unresolved_from(files@, site_list(files@)),
{
    let mut edges: Vec<CallEdge> = Vec::new();
    let mut unresolved: Vec<UnresolvedCall> = Vec::new();
    proof {
        assert(site_list(files@.take(0)) =~= Seq::<(Seq<char>, CallRecord)>::empty());
        assert(edge_models(edges@) =~= edges_from(files@, site_list(files@.take(0))));
        assert(unresolved_models(unresolved@) =~= unresolved_from(files@, site_list(files@.take(0))));
    }
    let mut i: usize = 0;
    while i < files.len()
        invariant
            i <= files.len(),
            edge_models(edges@) == edges_from(files@, site_list(files@.take(i as int))),
            unresolved_models(unresolved@) == unresolved_from(files@, site_list(files@.take(i as int))),
        decreases files.len() - i,
    {
        let file = &files[i];
        let ghost base = site_list(files@.take(i as int));
        proof {
            assert(files@.take(i + 1).drop_last() =~= files@.take(i as int));
            assert(files@.take(i + 1).last() == *file);
            assert(base + file_sites(file.source_name@, file.calls@.take(0)) =~= base);
        }
        let mut j: usize = 0;
        while j < file.calls.len()
            invariant
                j <= file.calls.len(),
                *file == files@[i as int],
                base == site_list(files@.take(i as int)),
                edge_models(edges@) == edges_from(files@, base + file_sites(file.source_name@, file.calls@.take(j as int))),
                unresolved_models(unresolved@) == unresolved_from(files@, base + file_sites(file.source_name@, file.calls@.take(j as int))),
            decreases file.calls.len() - j,
        {
            let call = &file.calls[j];
            let ghost before = base + file_sites(file.source_name@, file.calls@.take(j as int));
            let ghost after = base + file_sites(file.source_name@, file.calls@.take(j + 1));
            proof {
                assert(after.drop_last() =~= before);
                assert(after.last() == (file.source_name@, *call));
            }
            let sources = defining_source_names(files, call.method.as_str());
            let ghost e0 = edges@;
            let ghost u0 = unresolved@;
            if sources.len() == 1 {
                let edge = CallEdge {
                    from_function: call.function.clone(),
                    from_source: file.source_name.clone(),
                    to_function: call.method.clone(),
                    to_source: sources[0].clone(),
                };
                proof {
                    let ds = defining_sources(files@, call.method@);
                    lemma_name_set_contains(sources@, sources@[0]@);
                    assert(ds.contains(sources@[0]@));
                    assert(ds.contains(ds.choose()));
                    lemma_name_set_contains(sources@, ds.choose());
                    assert(ds.choose() == sources@[0]@);
                }
                edges.push(edge);
                proof {
                    assert(edges@ =~= e0.push(edge));
                    assert(edge_models(edges@) =~= edge_models(e0).push(edge_model(edge)));
                }
            } else if sources.len() > 1 {
                let mut reason = String::from_str("`");
                reason.append(call.method.as_str());
                reason.append("` is ambiguous across the file set (");
                let n = decimal_string(sources.len() as u64);
                reason.append(n.as_str());
                reason.append(" candidates)");
                let u = UnresolvedCall {
                    from_function: call.function.clone(),
                    from_source: file.source_name.clone(),
                    receiver: call.receiver.clone(),
                    method: Some(call.method.clone()),
                    reason,
                };
                unresolved.push(u);
                proof {
                    assert(unresolved@ =~= u0.push(u));
                    assert(unresolved_models(unresolved@) =~= unresolved_models(u0).push(unresolved_model(u)));
                }
            } else if !is_noise_method(call.method.as_str()) {
                let mut reason = String::from_str("no function named `");
                reason.append(call.method.as_str());
                reason.append("` in the analyzed file set");
                let u = UnresolvedCall {
                    from_function: call.function.clone(),
                    from_source: file.source_name.clone(),
                    receiver: call.receiver.clone(),
                    method: Some(call.method.clone()),
                    reason,
                };
                unresolved.push(u);
                proof {
                    assert(unresolved@ =~= u0.push(u));
                    assert(unresolved_models(unresolved@) =~= unresolved_models(u0).push(unresolved_model(u)));
                }
            }
            j = j + 1;
        }
        proof {
            assert(file.calls@.take(file.calls@.len() as int) =~= file.calls@);
        }
        i = i + 1;
    }
    proof {
        assert(files@.take(files@.len() as int) =~= files@);
    }
    (edges, unresolved)
}

/// The functions of one source: those with accesses and those with calls.
pub open spec fn file_functions(f: SourceRecords) -> Set<Seq<char>> {
    access_functions(f.accesses@).union(call_functions(f.calls@))
}

/// The own keys that function `fname` of a source accesses with `kind`,
/// each once in first-seen order.
pub open spec fn file_own(f: SourceRecords, fname: Seq<char>, kind: AccessKind) -> Seq<Seq<Seq<char>>> {
    dedup(keys_of(f.accesses@, fname, kind))
}

/// The source of the own footprint of function `key.1` in source `key.0`:
/// the last file of that name that has the function.
pub open spec fn own_source(files: Seq<SourceRecords>, key: (Seq<char>, Seq<char>)) -> Option<SourceRecords>
    decreases files.len(),
{
    if files.len() == 0 {
        None
    } else if files.last().source_name@ == key.0 && file_functions(files.last()).contains(key.1) {
        Some(files.last())
    } else {
        own_source(files.drop_last(), key)
    }
}

/// The own keys of function `key` with `kind` (none for an unknown function).
pub open spec fn own_keys(files: Seq<SourceRecords>, key: (Seq<char>, Seq<char>), kind: AccessKind) -> Seq<Seq<Seq<char>>> {
    match own_source(files, key) {
        Some(f) => file_own(f, key.1, kind),
        None => Seq::empty(),
    }
}

/// The callees of function `key`, in edge order.
pub open spec fn callees(edges: Seq<(Seq<char>, Seq<char>, Seq<char>, Seq<char>)>, key: (Seq<char>, Seq<char>)) -> Seq<(Seq<char>, Seq<char>)>
    decreases edges.len(),
{
    if edges.len() == 0 {
        Seq::empty()
    } else {
        let rest = callees(edges.drop_last(), key);
        let e = edges.last();
        if e.1 == key.0 && e.0 == key.1 {
            rest.push((e.3, e.2))
        } else {
            rest
        }
    }
}

/// The effective keys of function `key` with `kind`, following calls `d`
/// deep: its own keys, then those of each callee in edge order, each key
/// once.
pub open spec fn eff_keys(
    files: Seq<SourceRecords>,
    edges: Seq<(Seq<char>, Seq<char>, Seq<char>, Seq<char>)>,
    key: (Seq<char>, Seq<char>),
    d: nat,
    kind: AccessKind,
) -> Seq<Seq<Seq<char>>>
    decreases d, 0nat,
{
    if d == 0 {
        own_keys(files, key, kind)
    } else {
        dedup(own_keys(files, key, kind) + callee_keys(files, edges, callees(edges, key), (d - 1) as nat, kind))
    }
}

/// The effective keys of each of `cs`, `d` deep, one after another.
pub open spec fn callee_keys(
    files: Seq<SourceRecords>,
    edges: Seq<(Seq<char>, Seq<char>, Seq<char>, Seq<char>)>,
    cs: Seq<(Seq<char>, Seq<char>)>,
    d: nat,
    kind: AccessKind,
) -> Seq<Seq<Seq<char>>>
    decreases d, cs.len() + 1,
{
    if cs.len() == 0 {
        Seq::empty()
    } else {
        callee_keys(files, edges, cs.drop_last(), d, kind) + eff_keys(files, edges, cs.last(), d, kind)
    }
}

/// The number of access and call records across the file set, a bound on
/// the number of functions and so on the depth of any call chain.
pub open spec fn record_count(files: Seq<SourceRecords>) -> nat
    decreases files.len(),
{
    if files.len() == 0 {
        0
    } else {
        record_count(files.drop_last()) + files.last().accesses@.len() + files.last().calls@.len()
    }
}

/// The call edges of the file set.
pub open spec fn set_edges(files: Seq<SourceRecords>) -> Seq<(Seq<char>, Seq<char>, Seq<char>, Seq<char>)> {
    edges_from(files, site_list(files))
}

/// The effective keys of function `key` with `kind` over the file set.
pub open spec fn effective(files: Seq<SourceRecords>, key: (Seq<char>, Seq<char>), kind: AccessKind) -> Seq<Seq<Seq<char>>> {
    eff_keys(files, set_edges(files), key, record_count(files), kind)
}

/// An entry with a function's own footprint and the function (its name, in
/// this file's source) as a node of the call graph.
struct FnNode {
    source: String,
    function: String,
    reads: Vec<StaticKey>,
    writes: Vec<StaticKey>,
}

spec fn node_key(n: FnNode) -> (Seq<char>, Seq<char>) {
    (n.source@, n.function@)
}

spec fn node_keys(n: FnNode, kind: AccessKind) -> Seq<Seq<Seq<char>>> {
    match kind {
        AccessKind::Read => key_models(n.reads@),
        AccessKind::Write => key_models(n.writes@),
    }
}

/// The last node with key `key`.
spec fn last_node(nodes: Seq<FnNode>, key: (Seq<char>, Seq<char>)) -> Option<int>
    decreases nodes.len(),
{
    if nodes.len() == 0 {
        None
    } else if node_key(nodes.last()) == key {
        Some(nodes.len() - 1)
    } else {
        last_node(nodes.drop_last(), key)
    }
}

proof fn lemma_last_node(nodes: Seq<FnNode>, key: (Seq<char>, Seq<char>))
    ensures
        match last_node(nodes, key) {
            Some(n) => 0 <= n < nodes.len() && node_key(nodes[n]) == key,
            None => forall|n: int| 0 <= n < nodes.len() ==> node_key(#[trigger] nodes[n]) != key,
        },
    decreases nodes.len(),
{
    if nodes.len() > 0 {
        lemma_last_node(nodes.drop_last(), key);
        match last_node(nodes.drop_last(), key) {
            Some(n) => {},
            None => {
                assert forall|n: int| 0 <= n < nodes.len() - 1 implies node_key(#[trigger] nodes[n]) != key by {
                    assert(nodes.drop_last()[n] == nodes[n]);
                }
            },
        }
    }
}

/// The index of the last node with key `key`.
fn find_node(nodes: &Vec<FnNode>, source: &str, function: &str) -> (r: Option<usize>)
    ensures
        match r {
            Some(n) => last_node(nodes@, (source@, function@)) == Some(n as int),
            None => last_node(nodes@, (source@, function@)).is_none(),
        },
{
    let mut n: usize = nodes.len();
    assert(nodes@.take(n as int) =~= nodes@);
    while n > 0
        invariant
            n <= nodes.len(),
            last_node(nodes@, (source@, function@)) == last_node(nodes@.take(n as int), (source@, function@)),
        decreases n,
    {
        let node = &nodes[n - 1];
        proof {
            assert(nodes@.take(n as int).drop_last() =~= nodes@.take(n - 1));
            assert(nodes@.take(n as int).last() == *node);
        }
        if same_text(node.source.as_str(), source) && same_text(node.function.as_str(), function) {
            return Some(n - 1);
        }
        n = n - 1;
    }
    None
}

/// The own reads and writes a node list gives function `key`: those of the
/// last node with that key.
spec fn node_own(nodes: Seq<FnNode>, key: (Seq<char>, Seq<char>)) -> Option<(Seq<Seq<Seq<char>>>, Seq<Seq<Seq<char>>>)> {
    match last_node(nodes, key) {
        Some(n) => Some((node_keys(nodes[n], AccessKind::Read), node_keys(nodes[n], AccessKind::Write))),
        None => None,
    }
}

/// The own reads and writes of function `key` over the file set.
pub open spec fn own_pair(files: Seq<SourceRecords>, key: (Seq<char>, Seq<char>)) -> Option<(Seq<Seq<Seq<char>>>, Seq<Seq<Seq<char>>>)> {
    match own_source(files, key) {
        Some(f) => Some((file_own(f, key.1, AccessKind::Read), file_own(f, key.1, AccessKind::Write))),
        None => None,
    }
}

/// The names of the entries of a function list.
pub open spec fn entry_names(s: Seq<FunctionAccess>) -> Set<Seq<char>> {
    Set::new(|f: Seq<char>| exists|i: int| 0 <= i < s.len() && (#[trigger] s[i]).function_name@ == f)
}

/// One node per function of each file, in file order; for each function the
/// last node of its key holds its own footprint over the file set.
fn build_nodes(files: &[SourceRecords]) -> (r: Vec<FnNode>)
    ensures
        forall|key: (Seq<char>, Seq<char>)| #[trigger] node_own(r@, key) == own_pair(files@, key),
{
    let mut nodes: Vec<FnNode> = Vec::new();
    let mut i: usize = 0;
    while i < files.len()
        invariant
            i <= files.len(),
            forall|key: (Seq<char>, Seq<char>)| #[trigger] node_own(nodes@, key) == own_pair(files@.take(i as int), key),
        decreases files.len() - i,
    {
        let file = &files[i];
        let fns = aggregate_with_calls(file.accesses.as_slice(), file.calls.as_slice());
        let ghost pre = files@.take(i as int);
        proof {
            assert(files@.take(i + 1).drop_last() =~= pre);
            assert(files@.take(i + 1).last() == *file);
            assert(entry_names(fns@.take(0)) =~= Set::<Seq<char>>::empty());
        }
        let mut k: usize = 0;
        while k < fns.len()
            invariant
                k <= fns.len(),
                *file == files@[i as int],
                pre == files@.take(i as int),
                aggregated(fns@, file.accesses@, access_functions(file.accesses@).union(call_functions(file.calls@))),
                forall|key: (Seq<char>, Seq<char>)| #[trigger] node_own(nodes@, key) == if key.0 == file.source_name@ && entry_names(fns@.take(k as int)).contains(key.1) {
                    Some((file_own(*file, key.1, AccessKind::Read), file_own(*file, key.1, AccessKind::Write)))
                } else {
                    own_pair(pre, key)
                },
            decreases fns.len() - k,
        {
            let entry = &fns[k];
            let node = FnNode {
                source: file.source_name.clone(),
                function: entry.function_name.clone(),
                reads: copy_keys(&entry.storage_reads),
                writes: copy_keys(&entry.storage_writes),
            };
            let ghost before = nodes@;
            proof {
                assert(own_access(*entry, file.accesses@, entry.function_name@));
            }
            nodes.push(node);
            proof {
                assert(nodes@.drop_last() =~= before);
                assert(fns@.take(k + 1) =~= fns@.take(k as int).push(*entry));
                assert(entry_names(fns@.take(k + 1)) =~= entry_names(fns@.take(k as int)).insert(entry.function_name@)) by {
                    let a = fns@.take(k + 1);
                    let b = fns@.take(k as int);
                    assert forall|f: Seq<char>| entry_names(a).contains(f) <==> entry_names(b).insert(entry.function_name@).contains(f) by {
                        if entry_names(a).contains(f) {
                            let x = choose|x: int| 0 <= x < a.len() && (#[trigger] a[x]).function_name@ == f;
                            if x < k {
                                assert(b[x] == a[x]);
                            }
                        }
                        if entry_names(b).contains(f) {
                            let x = choose|x: int| 0 <= x < b.len() && (#[trigger] b[x]).function_name@ == f;
                            assert(a[x] == b[x]);
                        }
                        if f == entry.function_name@ {
                            assert(a[k as int] == *entry);
                        }
                    }
                }
                assert forall|key: (Seq<char>, Seq<char>)| #[trigger] node_own(nodes@, key) == if key.0 == file.source_name@ && entry_names(fns@.take(k + 1)).contains(key.1) {
                    Some((file_own(*file, key.1, AccessKind::Read), file_own(*file, key.1, AccessKind::Write)))
                } else {
                    own_pair(pre, key)
                } by {
                    assert(node_own(before, key) == if key.0 == file.source_name@ && entry_names(fns@.take(k as int)).contains(key.1) {
                        Some((file_own(*file, key.1, AccessKind::Read), file_own(*file, key.1, AccessKind::Write)))
                    } else {
                        own_pair(pre, key)
                    });
                    if node_key(node) == key {
                        assert(last_node(nodes@, key) == Some(nodes@.len() - 1));
                        assert(nodes@[nodes@.len() - 1] == node);
                    } else {
                        assert(last_node(nodes@, key) == last_node(before, key));
                        lemma_last_node(before, key);
                        match last_node(before, key) {
                            Some(n) => {
                                assert(nodes@[n] == before[n]);
                            },
                            None => {},
                        }
                    }
                }
            }
            k = k + 1;
        }
        proof {
            assert(fns@.take(fns@.len() as int) =~= fns@);
            assert(entry_names(fns@) =~= file_functions(*file)) by {
                assert forall|f: Seq<char>| entry_names(fns@).contains(f) <==> file_functions(*file).contains(f) by {
                    if entry_names(fns@).contains(f) {
                        let x = choose|x: int| 0 <= x < fns@.len() && (#[trigger] fns@[x]).function_name@ == f;
                    }
                }
            }
        }
        i = i + 1;
    }
    proof {
        assert(files@.take(files@.len() as int) =~= files@);
    }
    nodes
}

/// A function has an own footprint exactly when some file of its source
/// name has it.
proof fn lemma_own_source(files: Seq<SourceRecords>, key: (Seq<char>, Seq<char>), i: int)
    requires
        0 <= i < files.len(),
        files[i].source_name@ == key.0,
        file_functions(files[i]).contains(key.1),
    ensures
        own_source(files, key).is_some(),
    decreases files.len(),
{
    if i < files.len() - 1 {
        if !(files.last().source_name@ == key.0 && file_functions(files.last()).contains(key.1)) {
            assert(files.drop_last()[i] == files[i]);
            lemma_own_source(files.drop_last(), key, i);
        }
    }
}

/// Every call site comes from a call of a file of that source name.
proof fn lemma_site_origin(files: Seq<SourceRecords>, t: int)
    requires
        0 <= t < site_list(files).len(),
    ensures
        exists|i: int|
            0 <= i < files.len() && (#[trigger] files[i]).source_name@ == site_list(files)[t].0 && files[i].calls@.contains(
                site_list(files)[t].1,
            ),
    decreases files.len(),
{
    let rest = site_list(files.drop_last());
    let last = files.last();
    let tail = file_sites(last.source_name@, last.calls@);
    assert(site_list(files) == rest + tail);
    if t < rest.len() {
        lemma_site_origin(files.drop_last(), t);
        let i = choose|i: int|
            0 <= i < files.drop_last().len() && (#[trigger] files.drop_last()[i]).source_name@ == rest[t].0
                && files.drop_last()[i].calls@.contains(rest[t].1);
        assert(files[i] == files.drop_last()[i]);
    } else {
        let u = t - rest.len();
        assert(tail[u] == (last.source_name@, last.calls@[u]));
        assert(files[files.len() - 1] == last);
        assert(last.calls@.contains(last.calls@[u]));
    }
}

/// Every edge comes from a call site.
proof fn lemma_edge_origin(files: Seq<SourceRecords>, sites: Seq<(Seq<char>, CallRecord)>, t: int)
    requires
        0 <= t < edges_from(files, sites).len(),
    ensures
        exists|u: int|
            0 <= u < sites.len() && edges_from(files, sites)[t].0 == (#[trigger] sites[u]).1.function@ && edges_from(files, sites)[t].1
                == sites[u].0,
    decreases sites.len(),
{
    let rest = edges_from(files, sites.drop_last());
    if t < rest.len() {
        lemma_edge_origin(files, sites.drop_last(), t);
        let u = choose|u: int|
            0 <= u < sites.drop_last().len() && rest[t].0 == (#[trigger] sites.drop_last()[u]).1.function@ && rest[t].1
                == sites.drop_last()[u].0;
        assert(sites[u] == sites.drop_last()[u]);
    } else {
        assert(sites[sites.len() - 1] == sites.last());
    }
}

/// A function with callees is the caller of some edge.
proof fn lemma_callees_origin(edges: Seq<(Seq<char>, Seq<char>, Seq<char>, Seq<char>)>, key: (Seq<char>, Seq<char>))
    ensures
        callees(edges, key).len() > 0 ==> exists|t: int| 0 <= t < edges.len() && (#[trigger] edges[t]).1 == key.0 && edges[t].0 == key.1,
    decreases edges.len(),
{
    if edges.len() > 0 {
        lemma_callees_origin(edges.drop_last(), key);
        if callees(edges.drop_last(), key).len() > 0 {
            let t = choose|t: int| 0 <= t < edges.drop_last().len() && (#[trigger] edges.drop_last()[t]).1 == key.0 && edges.drop_last()[t].0 == key.1;
            assert(edges[t] == edges.drop_last()[t]);
        } else if callees(edges, key).len() > 0 {
            assert(edges[edges.len() - 1] == edges.last());
        }
    }
}

/// A function with no own footprint calls nothing, so its effective keys are
/// empty at every depth.
proof fn lemma_unknown_is_empty(files: Seq<SourceRecords>, key: (Seq<char>, Seq<char>), d: nat, kind: AccessKind)
    requires
        own_source(files, key).is_none(),
    ensures
        eff_keys(files, set_edges(files), key, d, kind) == Seq::<Seq<Seq<char>>>::empty(),
{
    let edges = set_edges(files);
    lemma_callees_origin(edges, key);
    if callees(edges, key).len() > 0 {
        let t = choose|t: int| 0 <= t < edges.len() && (#[trigger] edges[t]).1 == key.0 && edges[t].0 == key.1;
        lemma_edge_origin(files, site_list(files), t);
        let sites = site_list(files);
        let u = choose|u: int| 0 <= u < sites.len() && edges[t].0 == (#[trigger] sites[u]).1.function@ && edges[t].1 == sites[u].0;
        lemma_site_origin(files, u);
        let i = choose|i: int| 0 <= i < files.len() && (#[trigger] files[i]).source_name@ == sites[u].0 && files[i].calls@.contains(sites[u].1);
        let c = choose|c: int| 0 <= c < files[i].calls@.len() && files[i].calls@[c] == sites[u].1;
        assert(call_functions(files[i].calls@).contains(key.1));
        lemma_own_source(files, key, i);
    }
    assert(callees(edges, key) =~= Seq::<(Seq<char>, Seq<char>)>::empty());
    if d > 0 {
        assert(callee_keys(files, edges, callees(edges, key), (d - 1) as nat, kind) =~= Seq::<Seq<Seq<char>>>::empty());
        assert(own_keys(files, key, kind) + Seq::<Seq<Seq<char>>>::empty() =~= Seq::<Seq<Seq<char>>>::empty());
    }
}

/// Appends the keys of `items` to `bucket`, skipping those already there.
fn append_unique(bucket: &mut Vec<StaticKey>, items: &Vec<StaticKey>, Ghost(s): Ghost<Seq<Seq<Seq<char>>>>)
    requires
        key_models(old(bucket)@) == dedup(s),
    ensures
        key_models(final(bucket)@) == dedup(s + key_models(items@)),
{
    let mut u: usize = 0;
    proof {
        assert(s + key_models(items@.take(0)) =~= s);
    }
    while u < items.len()
        invariant
            u <= items.len(),
            key_models(bucket@) == dedup(s + key_models(items@.take(u as int))),
        decreases items.len() - u,
    {
        proof {
            assert(s + key_models(items@.take(u + 1)) =~= (s + key_models(items@.take(u as int))).push(items@[u as int]@));
            lemma_dedup_push(s + key_models(items@.take(u as int)), items@[u as int]@);
        }
        crate::analysis::push_unique(bucket, &items[u]);
        u = u + 1;
    }
    proof {
        assert(items@.take(items@.len() as int) =~= items@);
    }
}

/// The effective reads and writes of node `n`, one level deeper than `prev`.
fn deepen(
    files: &[SourceRecords],
    nodes: &Vec<FnNode>,
    edges: &Vec<CallEdge>,
    prev: &Vec<(Vec<StaticKey>, Vec<StaticKey>)>,
    n: usize,
    Ghost(d): Ghost<nat>,
) -> (r: (Vec<StaticKey>, Vec<StaticKey>))
    requires
        n < nodes@.len(),
        prev@.len() == nodes@.len(),
        forall|key: (Seq<char>, Seq<char>)| #[trigger] node_own(nodes@, key) == own_pair(files@, key),
        edge_models(edges@) == set_edges(files@),
        forall|m: int|
            0 <= m < nodes@.len() ==> key_models((#[trigger] prev@[m]).0@) == eff_keys(files@, set_edges(files@), node_key(nodes@[m]), d, AccessKind::Read)
                && key_models(prev@[m].1@) == eff_keys(files@, set_edges(files@), node_key(nodes@[m]), d, AccessKind::Write),
    ensures
        key_models(r.0@) == eff_keys(files@, set_edges(files@), node_key(nodes@[n as int]), d + 1, AccessKind::Read),
        key_models(r.1@) == eff_keys(files@, set_edges(files@), node_key(nodes@[n as int]), d + 1, AccessKind::Write),
{
    let ghost es = set_edges(files@);
    let node = &nodes[n];
    let ghost key = node_key(*node);
    let own = match find_node(nodes, node.source.as_str(), node.function.as_str()) {
        Some(c) => c,
        None => {
            proof {
                lemma_last_node(nodes@, key);
                assert(node_key(nodes@[n as int]) == key);
            }
            n
        },
    };
    proof {
        lemma_last_node(nodes@, key);
        assert(node_own(nodes@, key) == own_pair(files@, key));
        assert(own_keys(files@, key, AccessKind::Read) == node_keys(nodes@[own as int], AccessKind::Read));
        assert(own_keys(files@, key, AccessKind::Write) == node_keys(nodes@[own as int], AccessKind::Write));
    }
    let mut reads: Vec<StaticKey> = Vec::new();
    let mut writes: Vec<StaticKey> = Vec::new();
    proof {
        assert(key_models(reads@) =~= dedup(Seq::<Seq<Seq<char>>>::empty()));
        assert(key_models(writes@) =~= dedup(Seq::<Seq<Seq<char>>>::empty()));
    }
    append_unique(&mut reads, &nodes[own].reads, Ghost(Seq::empty()));
    append_unique(&mut writes, &nodes[own].writes, Ghost(Seq::empty()));
    proof {
        assert(Seq::<Seq<Seq<char>>>::empty() + key_models(nodes@[own as int].reads@) =~= own_keys(files@, key, AccessKind::Read)
            + callee_keys(files@, es, callees(es.take(0), key), d, AccessKind::Read));
        assert(Seq::<Seq<Seq<char>>>::empty() + key_models(nodes@[own as int].writes@) =~= own_keys(files@, key, AccessKind::Write)
            + callee_keys(files@, es, callees(es.take(0), key), d, AccessKind::Write));
    }
    let mut t: usize = 0;
    while t < edges.len()
        invariant
            t <= edges.len(),
            es == set_edges(files@),
            edge_models(edges@) == es,
            key == node_key(nodes@[n as int]),
            n < nodes@.len(),
            *node == nodes@[n as int],
            prev@.len() == nodes@.len(),
            forall|k: (Seq<char>, Seq<char>)| #[trigger] node_own(nodes@, k) == own_pair(files@, k),
            forall|m: int|
                0 <= m < nodes@.len() ==> key_models((#[trigger] prev@[m]).0@) == eff_keys(files@, es, node_key(nodes@[m]), d, AccessKind::Read)
                    && key_models(prev@[m].1@) == eff_keys(files@, es, node_key(nodes@[m]), d, AccessKind::Write),
            key_models(reads@) == dedup(own_keys(files@, key, AccessKind::Read) + callee_keys(files@, es, callees(es.take(t as int), key), d, AccessKind::Read)),
            key_models(writes@) == dedup(own_keys(files@, key, AccessKind::Write) + callee_keys(files@, es, callees(es.take(t as int), key), d, AccessKind::Write)),
        decreases edges.len() - t,
    {
        let e = &edges[t];
        let ghost cs = callees(es.take(t as int), key);
        proof {
            assert(es.take(t + 1).drop_last() =~= es.take(t as int));
            assert(es.take(t + 1).last() == edge_model(*e));
            assert(es[t as int] == edge_model(*e));
            assert(es.take(t + 1).len() == t + 1);
            assert(key == (node.source@, node.function@));
        }
        if same_text(e.from_source.as_str(), node.source.as_str()) && same_text(e.from_function.as_str(), node.function.as_str()) {
            let ghost callee = (e.to_source@, e.to_function@);
            proof {
                let lm = es.take(t + 1).last();
                assert(lm.1 == key.0 && lm.0 == key.1);
                assert(callee == (lm.3, lm.2));
                assert(callees(es.take(t + 1), key) == cs.push(callee));
                assert(cs.push(callee).drop_last() =~= cs);
            }
            match find_node(nodes, e.to_source.as_str(), e.to_function.as_str()) {
                Some(ci) => {
                    proof {
                        lemma_last_node(nodes@, callee);
                        assert(node_key(nodes@[ci as int]) == callee);
                    }
                    append_unique(&mut reads, &prev[ci].0, Ghost(own_keys(files@, key, AccessKind::Read) + callee_keys(files@, es, cs, d, AccessKind::Read)));
                    append_unique(&mut writes, &prev[ci].1, Ghost(own_keys(files@, key, AccessKind::Write) + callee_keys(files@, es, cs, d, AccessKind::Write)));
                    proof {
                        assert(own_keys(files@, key, AccessKind::Read) + callee_keys(files@, es, cs, d, AccessKind::Read) + key_models(prev@[ci as int].0@)
                            =~= own_keys(files@, key, AccessKind::Read) + callee_keys(files@, es, cs.push(callee), d, AccessKind::Read));
                        assert(own_keys(files@, key, AccessKind::Write) + callee_keys(files@, es, cs, d, AccessKind::Write) + key_models(prev@[ci as int].1@)
                            =~= own_keys(files@, key, AccessKind::Write) + callee_keys(files@, es, cs.push(callee), d, AccessKind::Write));
                    }
                },
                None => {
                    proof {
                        assert(node_own(nodes@, callee) == own_pair(files@, callee));
                        lemma_unknown_is_empty(files@, callee, d, AccessKind::Read);
                        lemma_unknown_is_empty(files@, callee, d, AccessKind::Write);
                        assert(callee_keys(files@, es, cs.push(callee), d, AccessKind::Read) =~= callee_keys(files@, es, cs, d, AccessKind::Read));
                        assert(callee_keys(files@, es, cs.push(callee), d, AccessKind::Write) =~= callee_keys(files@, es, cs, d, AccessKind::Write));
                    }
                },
            }
        } else {
            proof {
                let lm = es.take(t + 1).last();
                assert(!(lm.1 == key.0 && lm.0 == key.1));
                assert(callees(es.take(t + 1), key) == cs);
            }
        }
        t = t + 1;
    }
    proof {
        assert(es.take(es.len() as int) =~= es);
        assert(edges@.len() == es.len());
    }
    (reads, writes)
}

/// The effective reads and writes of every node, `depth` levels deep.
fn effective_rows(files: &[SourceRecords], nodes: &Vec<FnNode>, edges: &Vec<CallEdge>, depth: usize) -> (r: Vec<(Vec<StaticKey>, Vec<StaticKey>)>)
    requires
        forall|key: (Seq<char>, Seq<char>)| #[trigger] node_own(nodes@, key) == own_pair(files@, key),
        edge_models(edges@) == set_edges(files@),
    ensures
        r@.len() == nodes@.len(),
        forall|m: int|
            0 <= m < nodes@.len() ==> key_models((#[trigger] r@[m]).0@) == eff_keys(files@, set_edges(files@), node_key(nodes@[m]), depth as nat, AccessKind::Read)
                && key_models(r@[m].1@) == eff_keys(files@, set_edges(files@), node_key(nodes@[m]), depth as nat, AccessKind::Write),
{
    let mut rows: Vec<(Vec<StaticKey>, Vec<StaticKey>)> = Vec::new();
    let mut n: usize = 0;
    while n < nodes.len()
        invariant
            n <= nodes.len(),
            rows@.len() == n,
            forall|key: (Seq<char>, Seq<char>)| #[trigger] node_own(nodes@, key) == own_pair(files@, key),
            forall|m: int|
                0 <= m < n ==> key_models((#[trigger] rows@[m]).0@) == eff_keys(files@, set_edges(files@), node_key(nodes@[m]), 0, AccessKind::Read)
                    && key_models(rows@[m].1@) == eff_keys(files@, set_edges(files@), node_key(nodes@[m]), 0, AccessKind::Write),
        decreases nodes.len() - n,
    {
        let node = &nodes[n];
        let ghost key = node_key(*node);
        let own = match find_node(nodes, node.source.as_str(), node.function.as_str()) {
            Some(c) => c,
            None => {
                proof {
                    lemma_last_node(nodes@, key);
                    assert(node_key(nodes@[n as int]) == key);
                }
                n
            },
        };
        proof {
            lemma_last_node(nodes@, key);
            assert(node_own(nodes@, key) == own_pair(files@, key));
        }
        rows.push((copy_keys(&nodes[own].reads), copy_keys(&nodes[own].writes)));
        n = n + 1;
    }
    let mut d: usize = 0;
    while d < depth
        invariant
            d <= depth,
            rows@.len() == nodes@.len(),
            forall|key: (Seq<char>, Seq<char>)| #[trigger] node_own(nodes@, key) == own_pair(files@, key),
            edge_models(edges@) == set_edges(files@),
            forall|m: int|
                0 <= m < nodes@.len() ==> key_models((#[trigger] rows@[m]).0@) == eff_keys(files@, set_edges(files@), node_key(nodes@[m]), d as nat, AccessKind::Read)
                    && key_models(rows@[m].1@) == eff_keys(files@, set_edges(files@), node_key(nodes@[m]), d as nat, AccessKind::Write),
        decreases depth - d,
    {
        let mut next: Vec<(Vec<StaticKey>, Vec<StaticKey>)> = Vec::new();
        let mut m: usize = 0;
        while m < nodes.len()
            invariant
                m <= nodes.len(),
                d < depth,
                next@.len() == m,
                rows@.len() == nodes@.len(),
                forall|key: (Seq<char>, Seq<char>)| #[trigger] node_own(nodes@, key) == own_pair(files@, key),
                edge_models(edges@) == set_edges(files@),
                forall|x: int|
                    0 <= x < nodes@.len() ==> key_models((#[trigger] rows@[x]).0@) == eff_keys(files@, set_edges(files@), node_key(nodes@[x]), d as nat, AccessKind::Read)
                        && key_models(rows@[x].1@) == eff_keys(files@, set_edges(files@), node_key(nodes@[x]), d as nat, AccessKind::Write),
                forall|x: int|
                    0 <= x < m ==> key_models((#[trigger] next@[x]).0@) == eff_keys(files@, set_edges(files@), node_key(nodes@[x]), (d + 1) as nat, AccessKind::Read)
                        && key_models(next@[x].1@) == eff_keys(files@, set_edges(files@), node_key(nodes@[x]), (d + 1) as nat, AccessKind::Write),
            decreases nodes.len() - m,
        {
            let row = deepen(files, nodes, edges, &rows, m, Ghost(d as nat));
            next.push(row);
            m = m + 1;
        }
        rows = next;
        d = d + 1;
    }
    rows
}

/// The number of access and call records across the file set.
fn count_records(files: &[SourceRecords]) -> (r: usize)
    requires
        record_count(files@) <= usize::MAX,
    ensures
        r == record_count(files@),
{
    let mut total: usize = 0;
    let mut i: usize = 0;
    while i < files.len()
        invariant
            i <= files.len(),
            total == record_count(files@.take(i as int)),
            record_count(files@) <= usize::MAX,
        decreases files.len() - i,
    {
        proof {
            assert(files@.take(i + 1).drop_last() =~= files@.take(i as int));
            lemma_record_count_prefix(files@, i + 1);
        }
        total = total + files[i].accesses.len() + files[i].calls.len();
        i = i + 1;
    }
    proof {
        assert(files@.take(files@.len() as int) =~= files@);
    }
    total
}

proof fn lemma_record_count_prefix(files: Seq<SourceRecords>, k: int)
    requires
        0 <= k <= files.len(),
    ensures
        record_count(files.take(k)) <= record_count(files),
    decreases files.len(),
{
    if k < files.len() {
        assert(files.drop_last().take(k) =~= files.take(k));
        lemma_record_count_prefix(files.drop_last(), k);
    } else {
        assert(files.take(k) =~= files);
    }
}

/// A copy of the edges with the same models.
fn copy_edges(v: &Vec<CallEdge>) -> (r: Vec<CallEdge>)
    ensures
        edge_models(r@) == edge_models(v@),
{
    let mut out: Vec<CallEdge> = Vec::new();
    let mut i: usize = 0;
    while i < v.len()
        invariant
            i <= v.len(),
            edge_models(out@) == edge_models(v@.take(i as int)),
        decreases v.len() - i,
    {
        let e = &v[i];
        let c = CallEdge {
            from_function: e.from_function.clone(),
            from_source: e.from_source.clone(),
            to_function: e.to_function.clone(),
            to_source: e.to_source.clone(),
        };
        let ghost pre = out@;
        out.push(c);
        proof {
            assert(out@ =~= pre.push(c));
            assert(edge_models(out@) =~= edge_models(pre).push(edge_model(c)));
            assert(v@.take(i + 1) =~= v@.take(i as int).push(*e));
            assert(edge_models(v@.take(i + 1)) =~= edge_models(v@.take(i as int)).push(edge_model(*e)));
        }
        i = i + 1;
    }
    proof {
        assert(v@.take(v@.len() as int) =~= v@);
    }
    out
}

/// A copy of the unresolved calls with the same models.
fn copy_unresolved(v: &Vec<UnresolvedCall>) -> (r: Vec<UnresolvedCall>)
    ensures
        unresolved_models(r@) == unresolved_models(v@),
{
    let mut out: Vec<UnresolvedCall> = Vec::new();
    let mut i: usize = 0;
    while i < v.len()
        invariant
            i <= v.len(),
            unresolved_models(out@) == unresolved_models(v@.take(i as int)),
        decreases v.len() - i,
    {
        let u = &v[i];
        let method = match &u.method {
            Some(m) => Some(m.clone()),
            None => None,
        };
        let c = UnresolvedCall {
            from_function: u.from_function.clone(),
            from_source: u.from_source.clone(),
            receiver: u.receiver.clone(),
            method,
            reason: u.reason.clone(),
        };
        let ghost pre = out@;
        out.push(c);
        proof {
            assert(out@ =~= pre.push(c));
            assert(unresolved_models(out@) =~= unresolved_models(pre).push(unresolved_model(c)));
            assert(v@.take(i + 1) =~= v@.take(i as int).push(*u));
            assert(unresolved_models(v@.take(i + 1)) =~= unresolved_models(v@.take(i as int)).push(unresolved_model(*u)));
        }
        i = i + 1;
    }
    proof {
        assert(v@.take(v@.len() as int) =~= v@);
    }
    out
}

/// `fa` is function `fname` of source `f` in a file set: its own reads and
/// writes in that source, and its effective reads and writes across the
/// set.
pub open spec fn set_function(fa: FunctionAccess, files: Seq<SourceRecords>, f: SourceRecords, fname: Seq<char>) -> bool {
    &&& fa.function_name@ == fname
    &&& key_models(fa.storage_reads@) == file_own(f, fname, AccessKind::Read)
    &&& key_models(fa.storage_writes@) == file_own(f, fname, AccessKind::Write)
    &&& key_models(fa.effective_storage_reads@) == effective(files, (f.source_name@, fname), AccessKind::Read)
    &&& key_models(fa.effective_storage_writes@) == effective(files, (f.source_name@, fname), AccessKind::Write)
}

/// `rep` is the report of file `i` of the set: its name; one entry per
/// function of the file in name order; its detector findings; and the call
/// graph of the whole set.
pub open spec fn set_report(files: Seq<SourceRecords>, i: int, rep: AnalysisReport) -> bool {
    let f = files[i];
    let fs = rep.functions@;
    &&& rep.source_name@ == f.source_name@
    &&& forall|a: int, b: int| 0 <= a < b < fs.len() ==> chars_lt((#[trigger] fs[a]).function_name@, (#[trigger] fs[b]).function_name@)
    &&& forall|a: int| 0 <= a < fs.len() ==> file_functions(f).contains((#[trigger] fs[a]).function_name@) && set_function(fs[a], files, f, fs[a].function_name@)
    &&& forall|g: Seq<char>| #[trigger] file_functions(f).contains(g) ==> exists|a: int| 0 <= a < fs.len() && (#[trigger] fs[a]).function_name@ == g
    &&& detectors_ok(f.accesses@, rep.detectors@)
    &&& edge_models(rep.call_graph.edges@) == set_edges(files)
    &&& unresolved_models(rep.call_graph.unresolved@) == unresolved_from(files, site_list(files))
}

/// Analyzes a set of source files together from their records: resolves
/// calls across the set and gives each function its effective footprint,
/// one report per file in order.
pub fn analyze_records(files: &[SourceRecords]) -> (r: Vec<AnalysisReport>)
    requires
        record_count(files@) <= usize::MAX,
    ensures
        r@.len() == files@.len(),
        forall|i: int| 0 <= i < files@.len() ==> set_report(files@, i, #[trigger] r@[i]),
{
    let (edges, unresolved) = resolve_calls(files);
    let nodes = build_nodes(files);
    let depth = count_records(files);
    let rows = effective_rows(files, &nodes, &edges, depth);
    let mut reports: Vec<AnalysisReport> = Vec::new();
    let mut i: usize = 0;
    while i < files.len()
        invariant
            i <= files.len(),
            reports@.len() == i,
            depth == record_count(files@),
            edge_models(edges@) == set_edges(files@),
            unresolved_models(unresolved@) == unresolved_from(files@, site_list(files@)),
            forall|key: (Seq<char>, Seq<char>)| #[trigger] node_own(nodes@, key) == own_pair(files@, key),
            rows@.len() == nodes@.len(),
            forall|m: int|
                0 <= m < nodes@.len() ==> key_models((#[trigger] rows@[m]).0@) == eff_keys(files@, set_edges(files@), node_key(nodes@[m]), depth as nat, AccessKind::Read)
                    && key_models(rows@[m].1@) == eff_keys(files@, set_edges(files@), node_key(nodes@[m]), depth as nat, AccessKind::Write),
            forall|x: int| 0 <= x < i ==> set_report(files@, x, #[trigger] reports@[x]),
        decreases files.len() - i,
    {
        let file = &files[i];
        let own = aggregate_with_calls(file.accesses.as_slice(), file.calls.as_slice());
        let mut functions: Vec<FunctionAccess> = Vec::new();
        let mut k: usize = 0;
        while k < own.len()
            invariant
                k <= own.len(),
                i < files.len(),
                *file == files@[i as int],
                functions@.len() == k,
                depth == record_count(files@),
                aggregated(own@, file.accesses@, access_functions(file.accesses@).union(call_functions(file.calls@))),
                forall|key: (Seq<char>, Seq<char>)| #[trigger] node_own(nodes@, key) == own_pair(files@, key),
                rows@.len() == nodes@.len(),
                forall|m: int|
                    0 <= m < nodes@.len() ==> key_models((#[trigger] rows@[m]).0@) == eff_keys(files@, set_edges(files@), node_key(nodes@[m]), depth as nat, AccessKind::Read)
                        && key_models(rows@[m].1@) == eff_keys(files@, set_edges(files@), node_key(nodes@[m]), depth as nat, AccessKind::Write),
                forall|x: int| 0 <= x < k ==> (#[trigger] functions@[x]).function_name@ == own@[x].function_name@ && set_function(functions@[x], files@, *file, own@[x].function_name@),
            decreases own.len() - k,
        {
            let entry = &own[k];
            let ghost key = (file.source_name@, entry.function_name@);
            proof {
                assert(own_access(*entry, file.accesses@, entry.function_name@));
                assert(file_functions(*file).contains(entry.function_name@));
                lemma_own_source(files@, key, i as int);
                lemma_last_node(nodes@, key);
            }
            let found = find_node(&nodes, file.source_name.as_str(), entry.function_name.as_str());
            let c = match found {
                Some(c) => c,
                None => {
                    proof {
                        assert(node_own(nodes@, key) == own_pair(files@, key));
                    }
                    0
                },
            };
            proof {
                assert(node_own(nodes@, key) == own_pair(files@, key));
                assert(node_key(nodes@[c as int]) == key);
            }
            let fa = FunctionAccess {
                function_name: entry.function_name.clone(),
                storage_reads: copy_keys(&entry.storage_reads),
                storage_writes: copy_keys(&entry.storage_writes),
                effective_storage_reads: copy_keys(&rows[c].0),
                effective_storage_writes: copy_keys(&rows[c].1),
            };
            functions.push(fa);
            k = k + 1;
        }
        let report = AnalysisReport {
            source_name: file.source_name.clone(),
            functions,
            detectors: run(file.accesses.as_slice()),
            call_graph: CallGraph { edges: copy_edges(&edges), unresolved: copy_unresolved(&unresolved) },
        };
        proof {
            let fs = report.functions@;
            assert forall|a: int, b: int| 0 <= a < b < fs.len() implies chars_lt((#[trigger] fs[a]).function_name@, (#[trigger] fs[b]).function_name@) by {
                assert(fs[a].function_name@ == own@[a].function_name@);
                assert(fs[b].function_name@ == own@[b].function_name@);
            }
            assert forall|a: int| 0 <= a < fs.len() implies file_functions(*file).contains((#[trigger] fs[a]).function_name@) && set_function(fs[a], files@, *file, fs[a].function_name@) by {
                assert(fs[a].function_name@ == own@[a].function_name@);
            }
            assert forall|g: Seq<char>| #[trigger] file_functions(*file).contains(g) implies exists|a: int| 0 <= a < fs.len() && (#[trigger] fs[a]).function_name@ == g by {
                let a = choose|a: int| 0 <= a < own@.len() && (#[trigger] own@[a]).function_name@ == g;
                assert(fs[a].function_name@ == g);
            }
        }
        reports.push(report);
        i = i + 1;
    }
    reports
}

/// The report of a single source analyzed on its own: its functions with
/// their own accesses (effective equal to own), its detector findings and
/// an empty call graph.
pub fn file_report(source_name: String, accesses: &[AccessRecord]) -> (r: AnalysisReport)
    ensures
        r.source_name@ == source_name@,
        aggregated(r.functions@, accesses@, access_functions(accesses@)),
        detectors_ok(accesses@, r.detectors@),
        r.call_graph.edges@.len() == 0,
        r.call_graph.unresolved@.len() == 0,
{
    AnalysisReport {
        source_name,
        functions: aggregate(accesses),
        detectors: run(accesses),
        call_graph: CallGraph::default(),
    }
}

/// Function `b` is reached from `a` by following at most `n` call edges.
pub open spec fn walk(edges: Seq<(Seq<char>, Seq<char>, Seq<char>, Seq<char>)>, a: (Seq<char>, Seq<char>), b: (Seq<char>, Seq<char>), n: nat) -> bool
    decreases n,
{
    a == b || (n > 0 && exists|i: int|
        0 <= i < callees(edges, a).len() && walk(edges, #[trigger] callees(edges, a)[i], b, (n - 1) as nat))
}

/// Listing first occurrences keeps exactly the elements.
pub proof fn lemma_dedup_contains<A>(s: Seq<A>, x: A)
    ensures
        dedup(s).contains(x) == s.contains(x),
    decreases s.len(),
{
    if s.len() > 0 {
        lemma_dedup_contains(s.drop_last(), x);
        if s.drop_last().contains(x) {
            let i = choose|i: int| 0 <= i < s.drop_last().len() && s.drop_last()[i] == x;
            assert(s[i] == x);
        }
        if s.contains(x) {
            let i = choose|i: int| 0 <= i < s.len() && s[i] == x;
            if i < s.len() - 1 {
                assert(s.drop_last()[i] == x);
            }
        }
        let d = dedup(s.drop_last());
        if !d.contains(s.last()) {
            if d.push(s.last()).contains(x) {
                let i = choose|i: int| 0 <= i < d.push(s.last()).len() && d.push(s.last())[i] == x;
                if i < d.len() {
                    assert(d[i] == x);
                }
            }
            if d.contains(x) {
                let i = choose|i: int| 0 <= i < d.len() && d[i] == x;
                assert(d.push(s.last())[i] == x);
            }
            if x == s.last() {
                assert(d.push(s.last())[d.len() as int] == x);
            }
        }
    }
}

/// The effective keys `d` deep are exactly the own keys of the functions
/// reached by at most `d` call edges.
pub proof fn lemma_eff_keys_reach(
    files: Seq<SourceRecords>,
    edges: Seq<(Seq<char>, Seq<char>, Seq<char>, Seq<char>)>,
    key: (Seq<char>, Seq<char>),
    d: nat,
    kind: AccessKind,
    x: Seq<Seq<char>>,
)
    ensures
        eff_keys(files, edges, key, d, kind).contains(x) <==> exists|g: (Seq<char>, Seq<char>)|
            walk(edges, key, g, d) && #[trigger] own_keys(files, g, kind).contains(x),
    decreases d, 0nat,
{
    if d == 0 {
        if exists|g: (Seq<char>, Seq<char>)| walk(edges, key, g, d) && #[trigger] own_keys(files, g, kind).contains(x) {
            let g = choose|g: (Seq<char>, Seq<char>)| walk(edges, key, g, d) && #[trigger] own_keys(files, g, kind).contains(x);
            assert(g == key);
        }
        if eff_keys(files, edges, key, d, kind).contains(x) {
            assert(walk(edges, key, key, d));
            assert(own_keys(files, key, kind).contains(x));
        }
    } else {
        let cs = callees(edges, key);
        let own = own_keys(files, key, kind);
        let rest = callee_keys(files, edges, cs, (d - 1) as nat, kind);
        assert(eff_keys(files, edges, key, d, kind) == dedup(own + rest));
        lemma_dedup_contains(own + rest, x);
        lemma_callee_keys_reach(files, edges, cs, (d - 1) as nat, kind, x);
        if (own + rest).contains(x) {
            let i = choose|i: int| 0 <= i < (own + rest).len() && (own + rest)[i] == x;
            if i < own.len() {
                assert(own[i] == x);
                assert(walk(edges, key, key, d));
                assert(own_keys(files, key, kind).contains(x));
            } else {
                assert(rest[i - own.len()] == x);
                let (j, g) = choose|j: int, g: (Seq<char>, Seq<char>)|
                    0 <= j < cs.len() && #[trigger] walk(edges, cs[j], g, (d - 1) as nat) && #[trigger] own_keys(files, g, kind).contains(x);
                assert(walk(edges, key, g, d));
            }
        }
        if exists|g: (Seq<char>, Seq<char>)| walk(edges, key, g, d) && #[trigger] own_keys(files, g, kind).contains(x) {
            let g = choose|g: (Seq<char>, Seq<char>)| walk(edges, key, g, d) && #[trigger] own_keys(files, g, kind).contains(x);
            if g == key {
                let i = choose|i: int| 0 <= i < own.len() && own[i] == x;
                assert((own + rest)[i] == x);
            } else {
                let j = choose|j: int| 0 <= j < cs.len() && walk(edges, #[trigger] cs[j], g, (d - 1) as nat);
                assert(exists|j: int, g: (Seq<char>, Seq<char>)|
                    0 <= j < cs.len() && #[trigger] walk(edges, cs[j], g, (d - 1) as nat) && #[trigger] own_keys(files, g, kind).contains(x));
                let i = choose|i: int| 0 <= i < rest.len() && rest[i] == x;
                assert((own + rest)[own.len() + i] == x);
            }
        }
    }
}

/// The effective keys of the callees `cs`, `d` deep, are exactly the own keys
/// of the functions reached from one of them by at most `d` call edges.
pub proof fn lemma_callee_keys_reach(
    files: Seq<SourceRecords>,
    edges: Seq<(Seq<char>, Seq<char>, Seq<char>, Seq<char>)>,
    cs: Seq<(Seq<char>, Seq<char>)>,
    d: nat,
    kind: AccessKind,
    x: Seq<Seq<char>>,
)
    ensures
        callee_keys(files, edges, cs, d, kind).contains(x) <==> exists|j: int, g: (Seq<char>, Seq<char>)|
            0 <= j < cs.len() && #[trigger] walk(edges, cs[j], g, d) && #[trigger] own_keys(files, g, kind).contains(x),
    decreases d, cs.len() + 1,
{
    if cs.len() > 0 {
        let init = cs.drop_last();
        let a = callee_keys(files, edges, init, d, kind);
        let b = eff_keys(files, edges, cs.last(), d, kind);
        lemma_callee_keys_reach(files, edges, init, d, kind, x);
        lemma_eff_keys_reach(files, edges, cs.last(), d, kind, x);
        if (a + b).contains(x) {
            let i = choose|i: int| 0 <= i < (a + b).len() && (a + b)[i] == x;
            if i < a.len() {
                assert(a[i] == x);
                let (j, g) = choose|j: int, g: (Seq<char>, Seq<char>)|
                    0 <= j < init.len() && #[trigger] walk(edges, init[j], g, d) && #[trigger] own_keys(files, g, kind).contains(x);
                assert(cs[j] == init[j]);
            } else {
                assert(b[i - a.len()] == x);
                let g = choose|g: (Seq<char>, Seq<char>)| walk(edges, cs.last(), g, d) && #[trigger] own_keys(files, g, kind).contains(x);
                assert(cs[cs.len() - 1] == cs.last());
            }
        }
        if exists|j: int, g: (Seq<char>, Seq<char>)|
            0 <= j < cs.len() && #[trigger] walk(edges, cs[j], g, d) && #[trigger] own_keys(files, g, kind).contains(x) {
            let (j, g) = choose|j: int, g: (Seq<char>, Seq<char>)|
                0 <= j < cs.len() && #[trigger] walk(edges, cs[j], g, d) && #[trigger] own_keys(files, g, kind).contains(x);
            if j < cs.len() - 1 {
                assert(init[j] == cs[j]);
                let i = choose|i: int| 0 <= i < a.len() && a[i] == x;
                assert((a + b)[i] == x);
            } else {
                let i = choose|i: int| 0 <= i < b.len() && b[i] == x;
                assert((a + b)[a.len() + i] == x);
            }
        }
    }
}

/// The callee ends of the edges, as function keys (source, function).
pub open spec fn edge_targets(edges: Seq<(Seq<char>, Seq<char>, Seq<char>, Seq<char>)>) -> Seq<(Seq<char>, Seq<char>)> {
    edges.map_values(|e: (Seq<char>, Seq<char>, Seq<char>, Seq<char>)| (e.3, e.2))
}

/// Function `b` is reached from `a` by following any number of call edges.
pub open spec fn reaches(edges: Seq<(Seq<char>, Seq<char>, Seq<char>, Seq<char>)>, a: (Seq<char>, Seq<char>), b: (Seq<char>, Seq<char>)) -> bool {
    exists|n: nat| #[trigger] walk(edges, a, b, n)
}

/// Following one more edge from `k` steps reaches nothing new.
spec fn stable_at(edges: Seq<(Seq<char>, Seq<char>, Seq<char>, Seq<char>)>, a: (Seq<char>, Seq<char>), k: nat) -> bool {
    forall|b: (Seq<char>, Seq<char>)| #[trigger] walk(edges, a, b, k + 1) ==> walk(edges, a, b, k)
}

/// The functions reached from `a` within `k` edges.
spec fn reach_set(edges: Seq<(Seq<char>, Seq<char>, Seq<char>, Seq<char>)>, a: (Seq<char>, Seq<char>), k: nat) -> Set<(Seq<char>, Seq<char>)> {
    Set::new(|b: (Seq<char>, Seq<char>)| walk(edges, a, b, k))
}

proof fn lemma_callees_targets(edges: Seq<(Seq<char>, Seq<char>, Seq<char>, Seq<char>)>, a: (Seq<char>, Seq<char>), i: int)
    requires
        0 <= i < callees(edges, a).len(),
    ensures
        edge_targets(edges).contains(callees(edges, a)[i]),
    decreases edges.len(),
{
    if edges.len() > 0 {
        let init = edges.drop_last();
        let rest = callees(init, a);
        assert(edge_targets(init) =~= edge_targets(edges).drop_last());
        if i < rest.len() {
            lemma_callees_targets(init, a, i);
            let j = choose|j: int| 0 <= j < edge_targets(init).len() && edge_targets(init)[j] == rest[i];
            assert(edge_targets(edges)[j] == rest[i]);
        } else {
            assert(edge_targets(edges)[edges.len() - 1] == callees(edges, a)[i]);
        }
    }
}

proof fn lemma_walk_target(edges: Seq<(Seq<char>, Seq<char>, Seq<char>, Seq<char>)>, a: (Seq<char>, Seq<char>), b: (Seq<char>, Seq<char>), n: nat)
    requires
        walk(edges, a, b, n),
    ensures
        b == a || edge_targets(edges).contains(b),
    decreases n,
{
    if a != b {
        let i = choose|i: int| 0 <= i < callees(edges, a).len() && walk(edges, #[trigger] callees(edges, a)[i], b, (n - 1) as nat);
        lemma_walk_target(edges, callees(edges, a)[i], b, (n - 1) as nat);
        lemma_callees_targets(edges, a, i);
    }
}

proof fn lemma_walk_more(edges: Seq<(Seq<char>, Seq<char>, Seq<char>, Seq<char>)>, a: (Seq<char>, Seq<char>), b: (Seq<char>, Seq<char>), n: nat, m: nat)
    requires
        walk(edges, a, b, n),
        n <= m,
    ensures
        walk(edges, a, b, m),
    decreases n,
{
    if a != b {
        let i = choose|i: int| 0 <= i < callees(edges, a).len() && walk(edges, #[trigger] callees(edges, a)[i], b, (n - 1) as nat);
        lemma_walk_more(edges, callees(edges, a)[i], b, (n - 1) as nat, (m - 1) as nat);
        assert(walk(edges, callees(edges, a)[i], b, (m - 1) as nat));
    }
}

proof fn lemma_walk_extend(
    edges: Seq<(Seq<char>, Seq<char>, Seq<char>, Seq<char>)>,
    a: (Seq<char>, Seq<char>),
    m: (Seq<char>, Seq<char>),
    b: (Seq<char>, Seq<char>),
    n: nat,
)
    requires
        walk(edges, a, m, n),
        callees(edges, m).contains(b),
    ensures
        walk(edges, a, b, n + 1),
    decreases n,
{
    if a == m {
        let i = choose|i: int| 0 <= i < callees(edges, m).len() && callees(edges, m)[i] == b;
        assert(walk(edges, b, b, n));
        assert(walk(edges, callees(edges, a)[i], b, n));
    } else {
        let i = choose|i: int| 0 <= i < callees(edges, a).len() && walk(edges, #[trigger] callees(edges, a)[i], m, (n - 1) as nat);
        lemma_walk_extend(edges, callees(edges, a)[i], m, b, (n - 1) as nat);
        assert(walk(edges, callees(edges, a)[i], b, n));
    }
}

proof fn lemma_walk_split(edges: Seq<(Seq<char>, Seq<char>, Seq<char>, Seq<char>)>, a: (Seq<char>, Seq<char>), b: (Seq<char>, Seq<char>), n: nat)
    requires
        walk(edges, a, b, n + 1),
    ensures
        walk(edges, a, b, n) || exists|m: (Seq<char>, Seq<char>)| walk(edges, a, m, n) && #[trigger] callees(edges, m).contains(b),
    decreases n,
{
    if a != b {
        let i = choose|i: int| 0 <= i < callees(edges, a).len() && walk(edges, #[trigger] callees(edges, a)[i], b, n);
        let c = callees(edges, a)[i];
        if n == 0 {
            assert(walk(edges, a, a, 0));
            assert(callees(edges, a).contains(b));
        } else {
            lemma_walk_split(edges, c, b, (n - 1) as nat);
            if walk(edges, c, b, (n - 1) as nat) {
                assert(walk(edges, a, b, n));
            } else {
                let m = choose|m: (Seq<char>, Seq<char>)| walk(edges, c, m, (n - 1) as nat) && #[trigger] callees(edges, m).contains(b);
                assert(walk(edges, callees(edges, a)[i], m, (n - 1) as nat));
                assert(walk(edges, a, m, n));
            }
        }
    }
}

proof fn lemma_walk_stable(
    edges: Seq<(Seq<char>, Seq<char>, Seq<char>, Seq<char>)>,
    a: (Seq<char>, Seq<char>),
    b: (Seq<char>, Seq<char>),
    k: nat,
    j: nat,
)
    requires
        stable_at(edges, a, k),
        k <= j,
        walk(edges, a, b, j),
    ensures
        walk(edges, a, b, k),
    decreases j,
{
    if j > k {
        lemma_walk_split(edges, a, b, (j - 1) as nat);
        if walk(edges, a, b, (j - 1) as nat) {
            lemma_walk_stable(edges, a, b, k, (j - 1) as nat);
        } else {
            let m = choose|m: (Seq<char>, Seq<char>)| walk(edges, a, m, (j - 1) as nat) && #[trigger] callees(edges, m).contains(b);
            lemma_walk_stable(edges, a, m, k, (j - 1) as nat);
            lemma_walk_extend(edges, a, m, b, k);
        }
    }
}

proof fn lemma_reach_set_bounded(edges: Seq<(Seq<char>, Seq<char>, Seq<char>, Seq<char>)>, a: (Seq<char>, Seq<char>), k: nat)
    ensures
        reach_set(edges, a, k).finite(),
        reach_set(edges, a, k).len() <= edges.len() + 1,
{
    let ts = edge_targets(edges);
    let u = ts.to_set().insert(a);
    assert forall|b: (Seq<char>, Seq<char>)| #[trigger] reach_set(edges, a, k).contains(b) implies u.contains(b) by {
        lemma_walk_target(edges, a, b, k);
    }
    ts.lemma_cardinality_of_set();
    vstd::seq_lib::seq_to_set_is_finite(ts);
    vstd::set_lib::lemma_len_subset(reach_set(edges, a, k), u);
}

proof fn lemma_reach_grows(edges: Seq<(Seq<char>, Seq<char>, Seq<char>, Seq<char>)>, a: (Seq<char>, Seq<char>), k: nat)
    requires
        forall|j: nat| j < k ==> !#[trigger] stable_at(edges, a, j),
    ensures
        reach_set(edges, a, k).len() >= k + 1,
    decreases k,
{
    lemma_reach_set_bounded(edges, a, k);
    if k == 0 {
        let one = Set::<(Seq<char>, Seq<char>)>::empty().insert(a);
        assert(walk(edges, a, a, 0));
        assert(one.subset_of(reach_set(edges, a, 0)));
        vstd::set_lib::lemma_len_subset(one, reach_set(edges, a, 0));
    } else {
        let p = (k - 1) as nat;
        lemma_reach_grows(edges, a, p);
        lemma_reach_set_bounded(edges, a, p);
        assert(!stable_at(edges, a, p));
        let b = choose|b: (Seq<char>, Seq<char>)| #[trigger] walk(edges, a, b, p + 1) && !walk(edges, a, b, p);
        let bigger = reach_set(edges, a, p).insert(b);
        assert forall|c: (Seq<char>, Seq<char>)| #[trigger] bigger.contains(c) implies reach_set(edges, a, k).contains(c) by {
            if c != b {
                lemma_walk_more(edges, a, c, p, k);
            }
        }
        vstd::set_lib::lemma_len_subset(bigger, reach_set(edges, a, k));
    }
}

/// Whatever is reached at all is reached within as many edges as there are.
proof fn lemma_walk_bound(edges: Seq<(Seq<char>, Seq<char>, Seq<char>, Seq<char>)>, a: (Seq<char>, Seq<char>), b: (Seq<char>, Seq<char>), n: nat)
    requires
        walk(edges, a, b, n),
    ensures
        walk(edges, a, b, edges.len()),
{
    let top = edges.len();
    if n <= top {
        lemma_walk_more(edges, a, b, n, top);
    } else {
        if forall|j: nat| j < top + 1 ==> !#[trigger] stable_at(edges, a, j) {
            lemma_reach_grows(edges, a, top + 1);
            lemma_reach_set_bounded(edges, a, top + 1);
        }
        let k = choose|j: nat| j < top + 1 && #[trigger] stable_at(edges, a, j);
        lemma_walk_stable(edges, a, b, k, n);
        lemma_walk_more(edges, a, b, k, top);
    }
}

proof fn lemma_edges_len(files: Seq<SourceRecords>, sites: Seq<(Seq<char>, CallRecord)>)
    ensures
        edges_from(files, sites).len() <= sites.len(),
    decreases sites.len(),
{
    if sites.len() > 0 {
        lemma_edges_len(files, sites.drop_last());
    }
}

proof fn lemma_sites_len(files: Seq<SourceRecords>)
    ensures
        site_list(files).len() <= record_count(files),
    decreases files.len(),
{
    if files.len() > 0 {
        lemma_sites_len(files.drop_last());
    }
}

/// A function's effective keys are exactly the own keys of the functions it
/// reaches, itself included, through any number of call edges resolved
/// across the set.
pub proof fn lemma_effective_footprint(files: Seq<SourceRecords>, key: (Seq<char>, Seq<char>), kind: AccessKind, x: Seq<Seq<char>>)
    ensures
        effective(files, key, kind).contains(x) <==> exists|g: (Seq<char>, Seq<char>)|
            reaches(set_edges(files), key, g) && #[trigger] own_keys(files, g, kind).contains(x),
{
    let edges = set_edges(files);
    let depth = record_count(files);
    lemma_eff_keys_reach(files, edges, key, depth, kind, x);
    lemma_edges_len(files, site_list(files));
    lemma_sites_len(files);
    if exists|g: (Seq<char>, Seq<char>)| reaches(edges, key, g) && #[trigger] own_keys(files, g, kind).contains(x) {
        let g = choose|g: (Seq<char>, Seq<char>)| reaches(edges, key, g) && #[trigger] own_keys(files, g, kind).contains(x);
        let n = choose|n: nat| #[trigger] walk(edges, key, g, n);
        lemma_walk_bound(edges, key, g, n);
        lemma_walk_more(edges, key, g, edges.len(), depth);
    }
    if effective(files, key, kind).contains(x) {
        let g = choose|g: (Seq<char>, Seq<char>)| walk(edges, key, g, depth) && #[trigger] own_keys(files, g, kind).contains(x);
        assert(reaches(edges, key, g));
    }
}

/// Source names differ across the set.
pub open spec fn distinct_sources(files: Seq<SourceRecords>) -> bool {
    forall|i: int, j: int| 0 <= i < j < files.len() ==> (#[trigger] files[i]).source_name@ != (#[trigger] files[j]).source_name@
}

proof fn lemma_own_source_is(files: Seq<SourceRecords>, i: int, fname: Seq<char>)
    requires
        distinct_sources(files),
        0 <= i < files.len(),
        file_functions(files[i]).contains(fname),
    ensures
        own_source(files, (files[i].source_name@, fname)) == Some(files[i]),
    decreases files.len(),
{
    if i < files.len() - 1 {
        let init = files.drop_last();
        assert(files[i].source_name@ != files[files.len() - 1].source_name@);
        assert(init[i] == files[i]);
        assert forall|a: int, b: int| 0 <= a < b < init.len() implies (#[trigger] init[a]).source_name@ != (#[trigger] init[b]).source_name@ by {
            assert(init[a] == files[a] && init[b] == files[b]);
        }
        lemma_own_source_is(init, i, fname);
    }
}

/// In a set whose source names differ, the reports of the set keep each
/// function's own reads and writes within its effective ones, and all carry
/// the same call graph.
pub proof fn lemma_reports_cover_own(files: Seq<SourceRecords>, reports: Seq<AnalysisReport>, i: int, a: int, x: Seq<Seq<char>>)
    requires
        distinct_sources(files),
        reports.len() == files.len(),
        forall|j: int| 0 <= j < files.len() ==> set_report(files, j, #[trigger] reports[j]),
        0 <= i < files.len(),
        0 <= a < reports[i].functions@.len(),
    ensures
        key_models(reports[i].functions@[a].storage_reads@).contains(x) ==> key_models(
            reports[i].functions@[a].effective_storage_reads@,
        ).contains(x),
        key_models(reports[i].functions@[a].storage_writes@).contains(x) ==> key_models(
            reports[i].functions@[a].effective_storage_writes@,
        ).contains(x),
        forall|j: int|
            0 <= j < files.len() ==> edge_models((#[trigger] reports[j]).call_graph.edges@) == edge_models(
                reports[i].call_graph.edges@,
            ) && unresolved_models(reports[j].call_graph.unresolved@) == unresolved_models(reports[i].call_graph.unresolved@),
{
    let f = files[i];
    let fa = reports[i].functions@[a];
    let fname = fa.function_name@;
    let key = (f.source_name@, fname);
    assert(set_report(files, i, reports[i]));
    assert(file_functions(f).contains(fname) && set_function(fa, files, f, fname));
    lemma_own_source_is(files, i, fname);
    assert(walk(set_edges(files), key, key, 0));
    assert(reaches(set_edges(files), key, key));
    lemma_effective_footprint(files, key, AccessKind::Read, x);
    lemma_effective_footprint(files, key, AccessKind::Write, x);
}

/// The file a walked source gives: its name with the records of its walk.
pub open spec fn walked_file(s: (String, Option<BodyRecords>)) -> SourceRecords {
    SourceRecords { source_name: s.0, accesses: s.1->0.accesses, calls: s.1->0.calls }
}

/// The files of walked sources.
pub open spec fn walked_files(s: Seq<(String, Option<BodyRecords>)>) -> Seq<SourceRecords> {
    s.map_values(|x: (String, Option<BodyRecords>)| walked_file(x))
}

/// Every source was walked (it parsed).
pub open spec fn all_walked(s: Seq<(String, Option<BodyRecords>)>) -> bool {
    forall|i: int| 0 <= i < s.len() ==> (#[trigger] s[i]).1 is Some
}

/// Analyzes a set of sources together from the records of their walks,
/// resolving calls across the set: `None` when some source has no walk (it
/// failed to parse), otherwise one report per source, as `analyze_records`
/// gives them for the sources' files.
pub fn analyze_walked(sources: Vec<(String, Option<BodyRecords>)>) -> (r: Option<Vec<AnalysisReport>>)
    requires
        all_walked(sources@) ==> record_count(walked_files(sources@)) <= usize::MAX,
    ensures
        r is None <==> !all_walked(sources@),
        r matches Some(reps) ==> reps@.len() == sources@.len() && forall|i: int|
            0 <= i < sources@.len() ==> set_report(walked_files(sources@), i, #[trigger] reps@[i]),
{
    let ghost orig = sources@;
    let mut rest = sources;
    let mut files: Vec<SourceRecords> = Vec::new();
    proof {
        assert(orig.skip(0) =~= orig);
        assert(walked_files(orig.take(0)) =~= files@);
    }
    while rest.len() > 0
        invariant
            files@.len() + rest@.len() == orig.len(),
            rest@ == orig.skip(files@.len() as int),
            files@ == walked_files(orig.take(files@.len() as int)),
            all_walked(orig.take(files@.len() as int)),
            all_walked(orig) ==> record_count(walked_files(orig)) <= usize::MAX,
            orig == sources@,
        decreases rest@.len(),
    {
        let ghost k = files@.len() as int;
        let (name, walked) = rest.remove(0);
        proof {
            assert(orig[k] == (name, walked));
        }
        match walked {
            Some(b) => {
                files.push(SourceRecords { source_name: name, accesses: b.accesses, calls: b.calls });
                proof {
                    assert(rest@ =~= orig.skip(k + 1));
                    assert(orig.take(k + 1) =~= orig.take(k).push(orig[k]));
                    assert(files@ =~= walked_files(orig.take(k + 1)));
                    assert forall|j: int| 0 <= j < orig.take(k + 1).len() implies (#[trigger] orig.take(k + 1)[j]).1 is Some by {
                        if j < k {
                            assert(orig.take(k + 1)[j] == orig.take(k)[j]);
                        }
                    }
                }
            },
            None => {
                proof {
                    assert(orig[k].1 is None);
                    assert(0 <= k < orig.len());
                    assert(!all_walked(orig));
                }
                return None;
            },
        }
    }
    proof {
        assert(orig.take(orig.len() as int) =~= orig);
    }
    Some(analyze_records(files.as_slice()))
}


} // verus!
