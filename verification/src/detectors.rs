//! Heuristic detectors for contention anti-patterns, run over the raw access
//! records collected from contract source. They are conservative: they may
//! flag a benign pattern but do not miss an obvious one, and dynamic keys are
//! never assumed safe.

use vstd::prelude::*;

use crate::analysis::{record_names, AccessKind, AccessRecord, CallRecord, DYNAMIC_SEGMENT, access_functions, call_functions};
use crate::keys::chars_lt;
use crate::names::{
    contains_name, insert_name, lemma_name_set_contains, lemma_names_total, name_set, sorted_texts,
};
use crate::text::{decimal, decimal_string, join, joined, same_text, texts};

verus! {

/// Detector name: a static, fully-resolvable key is written from multiple
/// functions. Indicates a global contention point.
pub const GLOBAL_STATIC_WRITE: &'static str = "global-static-write";

/// Detector name: a storage write occurs inside a loop body. Indicates
/// potential write amplification and unbounded footprint growth.
pub const WRITE_IN_LOOP: &'static str = "write-in-loop";

/// Detector name: a function both reads and writes the same key. Indicates a
/// read-modify-write pattern that serializes access to that key.
pub const READ_MODIFY_WRITE: &'static str = "read-modify-write";

/// Detector name: the same static key is read more than once in a function.
/// Indicates redundant reads / read amplification.
pub const DUPLICATE_READ: &'static str = "duplicate-read";

/// A single detector finding.
#[derive(Debug, Clone, PartialEq, Eq)]
pub struct DetectorFinding {
    /// The detector that produced the finding.
    pub detector: String,
    /// The function the finding is associated with, when relevant.
    pub function: Option<String>,
    /// The storage key the finding is associated with, when relevant.
    pub key: Option<String>,
    /// A human-readable explanation.
    pub message: String,
}

/// The text of an optional string.
pub open spec fn opt_text(o: Option<String>) -> Option<Seq<char>> {
    match o {
        Some(s) => Some(s@),
        None => None,
    }
}

/// The model of a finding: detector, function, key and message.
pub open spec fn finding_model(f: DetectorFinding) -> (Seq<char>, Option<Seq<char>>, Option<Seq<char>>, Seq<char>) {
    (f.detector@, opt_text(f.function), opt_text(f.key), f.message@)
}

/// The function and key of a finding (empty where absent).
pub open spec fn finding_pair(f: DetectorFinding) -> (Seq<char>, Seq<char>) {
    (
        match f.function {
            Some(s) => s@,
            None => Seq::empty(),
        },
        match f.key {
            Some(s) => s@,
            None => Seq::empty(),
        },
    )
}

/// The canonical string form of an access's key.
pub open spec fn key_text(a: AccessRecord) -> Seq<char> {
    joined(a.key@, "."@)
}

/// The values `val` takes on the records selected by `sel`.
pub open spec fn collected(
    acc: Seq<AccessRecord>,
    sel: spec_fn(AccessRecord) -> bool,
    val: spec_fn(AccessRecord) -> Seq<char>,
) -> Set<Seq<char>> {
    Set::new(|x: Seq<char>| exists|i: int| 0 <= i < acc.len() && sel(#[trigger] acc[i]) && val(acc[i]) == x)
}

/// Extending the records by one extends the collected values by that
/// record's value when it is selected.
pub proof fn lemma_collected_step(
    acc: Seq<AccessRecord>,
    sel: spec_fn(AccessRecord) -> bool,
    val: spec_fn(AccessRecord) -> Seq<char>,
    j: int,
)
    requires
        0 <= j < acc.len(),
    ensures
        collected(acc.take(j + 1), sel, val) == if sel(acc[j]) {
            collected(acc.take(j), sel, val).insert(val(acc[j]))
        } else {
            collected(acc.take(j), sel, val)
        },
{
    let pre = acc.take(j);
    let post = acc.take(j + 1);
    let want = if sel(acc[j]) {
        collected(pre, sel, val).insert(val(acc[j]))
    } else {
        collected(pre, sel, val)
    };
    assert forall|x: Seq<char>| collected(post, sel, val).contains(x) <==> want.contains(x) by {
        if collected(post, sel, val).contains(x) {
            let i = choose|i: int| 0 <= i < post.len() && sel(#[trigger] post[i]) && val(post[i]) == x;
            if i < j {
                assert(pre[i] == post[i]);
            }
        }
        if collected(pre, sel, val).contains(x) {
            let i = choose|i: int| 0 <= i < pre.len() && sel(#[trigger] pre[i]) && val(pre[i]) == x;
            assert(post[i] == pre[i]);
        }
        if sel(acc[j]) && x == val(acc[j]) {
            assert(post[j] == acc[j]);
        }
    }
    assert(collected(post, sel, val) =~= want);
}

/// Collecting over no records gives nothing.
pub proof fn lemma_collected_empty(
    acc: Seq<AccessRecord>,
    sel: spec_fn(AccessRecord) -> bool,
    val: spec_fn(AccessRecord) -> Seq<char>,
)
    ensures
        collected(acc.take(0), sel, val) == Set::<Seq<char>>::empty(),
{
    assert(collected(acc.take(0), sel, val) =~= Set::<Seq<char>>::empty());
}

// ----- global-static-write -----

/// A write whose key has no dynamic segment.
pub open spec fn is_static_write(a: AccessRecord) -> bool {
    a.kind == AccessKind::Write && !a.key@.contains(DYNAMIC_SEGMENT@)
}

/// The keys (in string form) written statically.
pub open spec fn static_write_keys(acc: Seq<AccessRecord>) -> Set<Seq<char>> {
    collected(acc, |a: AccessRecord| is_static_write(a), |a: AccessRecord| key_text(a))
}

/// The functions that write key `k` statically.
pub open spec fn static_writers(acc: Seq<AccessRecord>, k: Seq<char>) -> Set<Seq<char>> {
    collected(acc, |a: AccessRecord| is_static_write(a) && key_text(a) == k, |a: AccessRecord| a.function@)
}

/// Key `k` is written statically from at least two functions.
pub open spec fn multi_writer(acc: Seq<AccessRecord>, k: Seq<char>) -> bool {
    exists|f1: Seq<char>, f2: Seq<char>|
        f1 != f2 && #[trigger] static_writers(acc, k).contains(f1) && #[trigger] static_writers(acc, k).contains(f2)
}

/// The message of a global-static-write finding for key `k` written from the
/// functions `fns`.
pub open spec fn global_message(k: Seq<char>, fns: Seq<Seq<char>>) -> Seq<char> {
    "static key `"@ + k + "` is written from multiple functions ("@ + joined(fns, ", "@)
        + "); a global contention point that serializes concurrent access"@
}

/// `fd` flags key `k` as written from several functions, naming them in
/// order.
pub open spec fn global_finding(acc: Seq<AccessRecord>, fd: DetectorFinding) -> bool {
    let k = finding_pair(fd).1;
    &&& multi_writer(acc, k)
    &&& exists|fs: Seq<Seq<char>>|
        sorted_texts(fs) && #[trigger] fs.to_set() == static_writers(acc, k) && finding_model(fd) == (
            GLOBAL_STATIC_WRITE@,
            None::<Seq<char>>,
            Some(k),
            global_message(k, fs),
        )
}

/// `r` holds one global-static-write finding per key written statically
/// from several functions, in key order.
pub open spec fn global_ok(acc: Seq<AccessRecord>, r: Seq<DetectorFinding>) -> bool {
    &&& forall|i: int| 0 <= i < r.len() ==> global_finding(acc, #[trigger] r[i])
    &&& forall|i: int, j: int| 0 <= i < j < r.len() ==> chars_lt(finding_pair(#[trigger] r[i]).1, finding_pair(#[trigger] r[j]).1)
    &&& forall|k: Seq<char>| #[trigger] multi_writer(acc, k) ==> exists|i: int| 0 <= i < r.len() && finding_pair(#[trigger] r[i]).1 == k
}

/// The keys (in string form) that are written with no dynamic segment.
fn static_write_key_names(accesses: &[AccessRecord]) -> (r: Vec<String>)
    ensures
        sorted_texts(texts(r@)),
        name_set(r@) == static_write_keys(accesses@),
{
    let ghost sel = |a: AccessRecord| is_static_write(a);
    let ghost val = |a: AccessRecord| key_text(a);
    let mut names: Vec<String> = Vec::new();
    proof {
        lemma_collected_empty(accesses@, sel, val);
        assert(name_set(names@) =~= Set::<Seq<char>>::empty());
    }
    let mut j: usize = 0;
    while j < accesses.len()
        invariant
            j <= accesses.len(),
            sorted_texts(texts(names@)),
            name_set(names@) == collected(accesses@.take(j as int), sel, val),
            sel == (|a: AccessRecord| is_static_write(a)),
            val == (|a: AccessRecord| key_text(a)),
        decreases accesses.len() - j,
    {
        let a = &accesses[j];
        proof {
            lemma_collected_step(accesses@, sel, val, j as int);
        }
        let write = match a.kind {
            AccessKind::Write => true,
            AccessKind::Read => false,
        };
        if write && !a.key.is_dynamic() {
            let k = a.key.as_key();
            insert_name(&mut names, k.as_str());
        }
        j = j + 1;
    }
    proof {
        assert(accesses@.take(accesses@.len() as int) =~= accesses@);
    }
    names
}

/// The functions that write key `k` with no dynamic segment.
fn static_writer_names(accesses: &[AccessRecord], k: &str) -> (r: Vec<String>)
    ensures
        sorted_texts(texts(r@)),
        name_set(r@) == static_writers(accesses@, k@),
{
    let ghost sel = |a: AccessRecord| is_static_write(a) && key_text(a) == k@;
    let ghost val = |a: AccessRecord| a.function@;
    let mut names: Vec<String> = Vec::new();
    proof {
        lemma_collected_empty(accesses@, sel, val);
        assert(name_set(names@) =~= Set::<Seq<char>>::empty());
    }
    let mut j: usize = 0;
    while j < accesses.len()
        invariant
            j <= accesses.len(),
            sorted_texts(texts(names@)),
            name_set(names@) == collected(accesses@.take(j as int), sel, val),
            sel == (|a: AccessRecord| is_static_write(a) && key_text(a) == k@),
            val == (|a: AccessRecord| a.function@),
        decreases accesses.len() - j,
    {
        let a = &accesses[j];
        proof {
            lemma_collected_step(accesses@, sel, val, j as int);
        }
        let write = match a.kind {
            AccessKind::Write => true,
            AccessKind::Read => false,
        };
        if write && !a.key.is_dynamic() {
            let text = a.key.as_key();
            if same_text(text.as_str(), k) {
                insert_name(&mut names, a.function.as_str());
            }
        }
        j = j + 1;
    }
    proof {
        assert(accesses@.take(accesses@.len() as int) =~= accesses@);
    }
    names
}

/// A sorted name vector has two distinct members exactly when it has more
/// than one element.
proof fn lemma_two_names(s: Seq<Seq<char>>)
    requires
        sorted_texts(s),
    ensures
        s.len() > 1 <==> exists|f1: Seq<char>, f2: Seq<char>|
            f1 != f2 && #[trigger] s.to_set().contains(f1) && #[trigger] s.to_set().contains(f2),
{
    if s.len() > 1 {
        assert(chars_lt(s[0], s[1]));
        lemma_names_total(s[0], s[1]);
        assert(s.to_set().contains(s[0]) && s.to_set().contains(s[1]));
    } else {
        if exists|f1: Seq<char>, f2: Seq<char>| f1 != f2 && #[trigger] s.to_set().contains(f1) && #[trigger] s.to_set().contains(f2) {
            let (f1, f2) = choose|f1: Seq<char>, f2: Seq<char>| f1 != f2 && #[trigger] s.to_set().contains(f1) && #[trigger] s.to_set().contains(f2);
            let i = choose|i: int| 0 <= i < s.len() && s[i] == f1;
            let j = choose|j: int| 0 <= j < s.len() && s[j] == f2;
        }
    }
}

/// Flags static keys written from more than one function, in key order,
/// naming the writing functions in order.
pub fn global_static_write(accesses: &[AccessRecord]) -> (r: Vec<DetectorFinding>)
    ensures
        global_ok(accesses@, r@),
{
    let keys = static_write_key_names(accesses);
    let mut out: Vec<DetectorFinding> = Vec::new();
    let mut q: usize = 0;
    while q < keys.len()
        invariant
            q <= keys.len(),
            sorted_texts(texts(keys@)),
            name_set(keys@) == static_write_keys(accesses@),
            forall|i: int| 0 <= i < out@.len() ==> global_finding(accesses@, #[trigger] out@[i]),
            forall|i: int, j: int| 0 <= i < j < out@.len() ==> chars_lt(finding_pair(#[trigger] out@[i]).1, finding_pair(#[trigger] out@[j]).1),
            forall|i: int| 0 <= i < out@.len() ==> name_set(keys@.take(q as int)).contains(finding_pair(#[trigger] out@[i]).1),
            forall|k: Seq<char>| #[trigger] multi_writer(accesses@, k) && name_set(keys@.take(q as int)).contains(k) ==> exists|i: int| 0 <= i < out@.len() && finding_pair(#[trigger] out@[i]).1 == k,
        decreases keys.len() - q,
    {
        let k = keys[q].as_str();
        let fns = static_writer_names(accesses, k);
        let ghost prefix = keys@.take(q as int);
        let ghost post = keys@.take(q + 1);
        proof {
            lemma_two_names(texts(fns@));
            assert(post =~= prefix.push(keys@[q as int]));
            lemma_name_set_contains(prefix, k@);
            lemma_name_set_contains(post, k@);
            assert(post[q as int]@ == k@);
            assert(name_set(post) =~= name_set(prefix).insert(k@)) by {
                assert forall|m: Seq<char>| name_set(post).contains(m) <==> name_set(prefix).insert(k@).contains(m) by {
                    lemma_name_set_contains(prefix, m);
                    lemma_name_set_contains(post, m);
                    if name_set(post).contains(m) {
                        let p = choose|p: int| 0 <= p < post.len() && #[trigger] post[p]@ == m;
                        if p < q {
                            assert(prefix[p] == post[p]);
                        }
                    }
                    if name_set(prefix).contains(m) {
                        let p = choose|p: int| 0 <= p < prefix.len() && #[trigger] prefix[p]@ == m;
                        assert(post[p] == prefix[p]);
                    }
                }
            }
            // Every key already flagged comes before `k`.
            assert forall|i: int| 0 <= i < out@.len() implies chars_lt(finding_pair(#[trigger] out@[i]).1, k@) by {
                lemma_name_set_contains(prefix, finding_pair(out@[i]).1);
                let p = choose|p: int| 0 <= p < prefix.len() && #[trigger] prefix[p]@ == finding_pair(out@[i]).1;
                assert(texts(keys@)[p] == keys@[p]@);
                assert(texts(keys@)[q as int] == keys@[q as int]@);
            }
            assert(name_set(fns@) == texts(fns@).to_set());
        }
        let ghost before = out@;
        if fns.len() > 1 {
            let mut message = String::from_str("static key `");
            message.append(k);
            message.append("` is written from multiple functions (");
            let list = join(fns.as_slice(), ", ");
            message.append(list.as_str());
            message.append("); a global contention point that serializes concurrent access");
            let finding = DetectorFinding {
                detector: String::from_str(GLOBAL_STATIC_WRITE),
                function: None,
                key: Some(String::from_str(k)),
                message,
            };
            proof {
                assert(finding_model(finding) == (
                    GLOBAL_STATIC_WRITE@,
                    None::<Seq<char>>,
                    Some(k@),
                    global_message(k@, texts(fns@)),
                ));
                assert(sorted_texts(texts(fns@)) && texts(fns@).to_set() == static_writers(accesses@, k@));
                assert(multi_writer(accesses@, k@));
            }
            out.push(finding);
        }
        proof {
            assert forall|kk: Seq<char>| #[trigger] multi_writer(accesses@, kk) && name_set(post).contains(kk) implies exists|i: int| 0 <= i < out@.len() && finding_pair(#[trigger] out@[i]).1 == kk by {
                if kk == k@ {
                    if !(fns@.len() > 1) {
                        let (f1, f2) = choose|f1: Seq<char>, f2: Seq<char>|
                            f1 != f2 && #[trigger] static_writers(accesses@, kk).contains(f1) && #[trigger] static_writers(accesses@, kk).contains(f2);
                        assert(texts(fns@).to_set().contains(f1) && texts(fns@).to_set().contains(f2));
                    }
                    assert(finding_pair(out@[out@.len() - 1]).1 == kk);
                } else {
                    assert(name_set(prefix).contains(kk));
                    let i = choose|i: int| 0 <= i < before.len() && finding_pair(#[trigger] before[i]).1 == kk;
                    assert(out@[i] == before[i]);
                }
            }
        }
        q = q + 1;
    }
    proof {
        assert(keys@.take(keys@.len() as int) =~= keys@);
        assert forall|k: Seq<char>| #[trigger] multi_writer(accesses@, k) implies exists|i: int| 0 <= i < out@.len() && finding_pair(#[trigger] out@[i]).1 == k by {
            let (f1, f2) = choose|f1: Seq<char>, f2: Seq<char>|
                f1 != f2 && #[trigger] static_writers(accesses@, k).contains(f1) && #[trigger] static_writers(accesses@, k).contains(f2);
            let i = choose|i: int| 0 <= i < accesses@.len() && (is_static_write(#[trigger] accesses@[i]) && key_text(accesses@[i]) == k) && accesses@[i].function@ == f1;
            assert(static_write_keys(accesses@).contains(k));
        }
    }
    out
}

// ----- write-in-loop -----

/// The message of a write-in-loop finding.
pub open spec fn loop_message(f: Seq<char>, k: Seq<char>) -> Seq<char> {
    "function `"@ + f + "` writes storage key `"@ + k + "` inside a loop; potential write amplification and unbounded footprint growth"@
}

/// One write-in-loop finding per write inside a loop, in record order.
pub open spec fn loop_findings(acc: Seq<AccessRecord>) -> Seq<(Seq<char>, Option<Seq<char>>, Option<Seq<char>>, Seq<char>)>
    decreases acc.len(),
{
    if acc.len() == 0 {
        Seq::empty()
    } else {
        let rest = loop_findings(acc.drop_last());
        let a = acc.last();
        if a.kind == AccessKind::Write && a.in_loop {
            rest.push((WRITE_IN_LOOP@, Some(a.function@), Some(key_text(a)), loop_message(a.function@, key_text(a))))
        } else {
            rest
        }
    }
}

/// An access record that writes inside a loop.
pub open spec fn loop_write(a: AccessRecord) -> bool {
    a.kind == AccessKind::Write && a.in_loop
}

/// The finding `f` names the function and key of record `a`.
pub open spec fn names_record(f: (Seq<char>, Option<Seq<char>>, Option<Seq<char>>, Seq<char>), a: AccessRecord) -> bool {
    f.0 == WRITE_IN_LOOP@ && f.1 == Some(a.function@) && f.2 == Some(key_text(a))
}

/// The access records that write inside a loop, in record order.
pub open spec fn loop_writes(acc: Seq<AccessRecord>) -> Seq<AccessRecord> {
    acc.filter(|a: AccessRecord| loop_write(a))
}

/// The write-in-loop findings are exactly one per access record that writes
/// inside a loop, in record order, each naming that record's function and
/// key: every finding comes from such a write, and a read never yields one.
pub proof fn lemma_loop_findings_are_loop_writes(acc: Seq<AccessRecord>)
    ensures
        loop_findings(acc).len() == loop_writes(acc).len(),
        forall|k: int| 0 <= k < loop_findings(acc).len() ==> loop_write(#[trigger] loop_writes(acc)[k]),
        forall|k: int| 0 <= k < loop_findings(acc).len() ==> names_record(#[trigger] loop_findings(acc)[k], loop_writes(acc)[k]),
    decreases acc.len(),
{
    reveal(Seq::filter);
    if acc.len() > 0 {
        let init = acc.drop_last();
        lemma_loop_findings_are_loop_writes(init);
        assert(loop_writes(acc) == if loop_write(acc.last()) {
            loop_writes(init).push(acc.last())
        } else {
            loop_writes(init)
        });
        let rest = loop_findings(init);
        assert forall|k: int| 0 <= k < loop_findings(acc).len() implies loop_write(#[trigger] loop_writes(acc)[k])
            && names_record(loop_findings(acc)[k], loop_writes(acc)[k]) by {
            if k < rest.len() {
                assert(loop_findings(acc)[k] == rest[k]);
                assert(loop_writes(acc)[k] == loop_writes(init)[k]);
            }
        }
    }
}

/// The models of a sequence of findings.
pub open spec fn findings_model(s: Seq<DetectorFinding>) -> Seq<(Seq<char>, Option<Seq<char>>, Option<Seq<char>>, Seq<char>)> {
    s.map_values(|f: DetectorFinding| finding_model(f))
}

/// Flags every storage write inside a loop body, in record order.
pub fn write_in_loop(accesses: &[AccessRecord]) -> (r: Vec<DetectorFinding>)
    ensures
        findings_model(r@) == loop_findings(accesses@),
        r@.len() == loop_writes(accesses@).len(),
        forall|k: int| 0 <= k < r@.len() ==> loop_write(#[trigger] loop_writes(accesses@)[k]),
        forall|k: int| 0 <= k < r@.len() ==> names_record(finding_model(#[trigger] r@[k]), loop_writes(accesses@)[k]),
{
    let mut out: Vec<DetectorFinding> = Vec::new();
    let mut j: usize = 0;
    proof {
        assert(findings_model(out@) =~= loop_findings(accesses@.take(0)));
    }
    while j < accesses.len()
        invariant
            j <= accesses.len(),
            findings_model(out@) == loop_findings(accesses@.take(j as int)),
        decreases accesses.len() - j,
    {
        let a = &accesses[j];
        let ghost pre = out@;
        proof {
            assert(accesses@.take(j + 1).drop_last() =~= accesses@.take(j as int));
            assert(accesses@.take(j + 1).last() == *a);
        }
        let write = match a.kind {
            AccessKind::Write => true,
            AccessKind::Read => false,
        };
        if write && a.in_loop {
            let k = a.key.as_key();
            let mut message = String::from_str("function `");
            message.append(a.function.as_str());
            message.append("` writes storage key `");
            message.append(k.as_str());
            message.append("` inside a loop; potential write amplification and unbounded footprint growth");
            let finding = DetectorFinding {
                detector: String::from_str(WRITE_IN_LOOP),
                function: Some(a.function.clone()),
                key: Some(k),
                message,
            };
            out.push(finding);
            proof {
                assert(out@ =~= pre.push(finding));
                assert(findings_model(out@) =~= findings_model(pre).push(finding_model(finding)));
            }
        }
        j = j + 1;
    }
    proof {
        assert(accesses@.take(accesses@.len() as int) =~= accesses@);
        lemma_loop_findings_are_loop_writes(accesses@);
        assert forall|k: int| 0 <= k < out@.len() implies names_record(finding_model(#[trigger] out@[k]), loop_writes(accesses@)[k]) by {
            assert(findings_model(out@)[k] == finding_model(out@[k]));
        }
    }
    out
}

// ----- read-modify-write and duplicate-read -----

/// The keys (in string form) function `f` reads.
pub open spec fn read_keys(acc: Seq<AccessRecord>, f: Seq<char>) -> Set<Seq<char>> {
    collected(acc, |a: AccessRecord| a.function@ == f && a.kind == AccessKind::Read, |a: AccessRecord| key_text(a))
}

/// The keys (in string form) function `f` writes.
pub open spec fn written_keys(acc: Seq<AccessRecord>, f: Seq<char>) -> Set<Seq<char>> {
    collected(acc, |a: AccessRecord| a.function@ == f && a.kind == AccessKind::Write, |a: AccessRecord| key_text(a))
}

/// How many times function `f` reads key `k` (in string form).
pub open spec fn read_count(acc: Seq<AccessRecord>, f: Seq<char>, k: Seq<char>) -> nat
    decreases acc.len(),
{
    if acc.len() == 0 {
        0
    } else {
        let a = acc.last();
        read_count(acc.drop_last(), f, k) + if a.function@ == f && a.kind == AccessKind::Read && key_text(a) == k {
            1nat
        } else {
            0nat
        }
    }
}

/// A key read at least once is among the keys read.
proof fn lemma_read_count_reads(acc: Seq<AccessRecord>, f: Seq<char>, k: Seq<char>)
    ensures
        read_count(acc, f, k) > 0 ==> read_keys(acc, f).contains(k),
        read_count(acc, f, k) <= acc.len(),
    decreases acc.len(),
{
    if acc.len() > 0 {
        let pre = acc.drop_last();
        lemma_read_count_reads(pre, f, k);
        if read_count(pre, f, k) > 0 {
            let i = choose|i: int| 0 <= i < pre.len() && (#[trigger] pre[i]).function@ == f && pre[i].kind == AccessKind::Read && key_text(pre[i]) == k;
            assert(acc[i] == pre[i]);
        }
        let a = acc.last();
        if a.function@ == f && a.kind == AccessKind::Read && key_text(a) == k {
            assert(acc[acc.len() - 1] == a);
        }
    }
}

/// The two per-function, per-key detectors.
#[derive(Debug, Clone, Copy, PartialEq, Eq, Structural)]
pub enum PairRule {
    /// A function both reads and writes a key.
    ReadModifyWrite,
    /// A function reads a key more than once.
    DuplicateRead,
}

/// Whether the rule flags function `f` and key `k`.
pub open spec fn pair_hit(rule: PairRule, acc: Seq<AccessRecord>, f: Seq<char>, k: Seq<char>) -> bool {
    match rule {
        PairRule::ReadModifyWrite => read_keys(acc, f).contains(k) && written_keys(acc, f).contains(k),
        PairRule::DuplicateRead => read_count(acc, f, k) > 1,
    }
}

/// The message of a read-modify-write finding.
pub open spec fn rmw_message(f: Seq<char>, k: Seq<char>) -> Seq<char> {
    "function `"@ + f + "` both reads and writes key `"@ + k + "`; read-modify-write access serializes every writer to that key"@
}

/// The message of a duplicate-read finding for `n` reads.
pub open spec fn dup_message(f: Seq<char>, k: Seq<char>, n: nat) -> Seq<char> {
    "function `"@ + f + "` reads key `"@ + k + "` "@ + decimal(n) + " times; redundant reads amplify the read set"@
}

/// The finding the rule makes for function `f` and key `k`.
pub open spec fn pair_model(rule: PairRule, acc: Seq<AccessRecord>, f: Seq<char>, k: Seq<char>) -> (Seq<char>, Option<Seq<char>>, Option<Seq<char>>, Seq<char>) {
    match rule {
        PairRule::ReadModifyWrite => (READ_MODIFY_WRITE@, Some(f), Some(k), rmw_message(f, k)),
        PairRule::DuplicateRead => (DUPLICATE_READ@, Some(f), Some(k), dup_message(f, k, read_count(acc, f, k))),
    }
}

/// Lexicographic order on (function, key) pairs.
pub open spec fn pair_lt(a: (Seq<char>, Seq<char>), b: (Seq<char>, Seq<char>)) -> bool {
    chars_lt(a.0, b.0) || (a.0 == b.0 && chars_lt(a.1, b.1))
}

/// `r` holds one finding of the rule per flagged (function, key) pair, in
/// pair order.
pub open spec fn pair_ok(rule: PairRule, acc: Seq<AccessRecord>, r: Seq<DetectorFinding>) -> bool {
    &&& forall|i: int|
        0 <= i < r.len() ==> pair_hit(rule, acc, finding_pair(#[trigger] r[i]).0, finding_pair(r[i]).1) && finding_model(r[i])
            == pair_model(rule, acc, finding_pair(r[i]).0, finding_pair(r[i]).1)
    &&& forall|i: int, j: int| 0 <= i < j < r.len() ==> pair_lt(finding_pair(#[trigger] r[i]), finding_pair(#[trigger] r[j]))
    &&& forall|f: Seq<char>, k: Seq<char>| #[trigger] pair_hit(rule, acc, f, k) ==> exists|i: int| 0 <= i < r.len() && finding_pair(#[trigger] r[i]) == (f, k)
}

/// The keys (in string form) function `f` accesses with `kind`.
fn key_names_of(accesses: &[AccessRecord], f: &str, kind: AccessKind) -> (r: Vec<String>)
    ensures
        sorted_texts(texts(r@)),
        name_set(r@) == collected(accesses@, |a: AccessRecord| a.function@ == f@ && a.kind == kind, |a: AccessRecord| key_text(a)),
{
    let ghost sel = |a: AccessRecord| a.function@ == f@ && a.kind == kind;
    let ghost val = |a: AccessRecord| key_text(a);
    let mut names: Vec<String> = Vec::new();
    proof {
        lemma_collected_empty(accesses@, sel, val);
        assert(name_set(names@) =~= Set::<Seq<char>>::empty());
    }
    let mut j: usize = 0;
    while j < accesses.len()
        invariant
            j <= accesses.len(),
            sorted_texts(texts(names@)),
            name_set(names@) == collected(accesses@.take(j as int), sel, val),
            sel == (|a: AccessRecord| a.function@ == f@ && a.kind == kind),
            val == (|a: AccessRecord| key_text(a)),
        decreases accesses.len() - j,
    {
        let a = &accesses[j];
        proof {
            lemma_collected_step(accesses@, sel, val, j as int);
        }
        if a.kind == kind && same_text(a.function.as_str(), f) {
            let k = a.key.as_key();
            insert_name(&mut names, k.as_str());
        }
        j = j + 1;
    }
    proof {
        assert(accesses@.take(accesses@.len() as int) =~= accesses@);
    }
    names
}

/// How many times function `f` reads key `k`.
fn count_reads(accesses: &[AccessRecord], f: &str, k: &str) -> (r: usize)
    ensures
        r == read_count(accesses@, f@, k@),
{
    let mut n: usize = 0;
    let mut j: usize = 0;
    while j < accesses.len()
        invariant
            j <= accesses.len(),
            n == read_count(accesses@.take(j as int), f@, k@),
        decreases accesses.len() - j,
    {
        let a = &accesses[j];
        proof {
            assert(accesses@.take(j + 1).drop_last() =~= accesses@.take(j as int));
            assert(accesses@.take(j + 1).last() == *a);
            lemma_read_count_reads(accesses@.take(j as int), f@, k@);
        }
        let read = match a.kind {
            AccessKind::Read => true,
            AccessKind::Write => false,
        };
        if read && same_text(a.function.as_str(), f) {
            let text = a.key.as_key();
            if same_text(text.as_str(), k) {
                n = n + 1;
            }
        }
        j = j + 1;
    }
    proof {
        assert(accesses@.take(accesses@.len() as int) =~= accesses@);
    }
    n
}

/// The finding of the rule for function `f` and key `k`, if the rule flags
/// them.
fn pair_finding(rule: PairRule, accesses: &[AccessRecord], f: &str, k: &str, written: &Vec<String>) -> (r: Option<DetectorFinding>)
    requires
        read_keys(accesses@, f@).contains(k@),
        name_set(written@) == written_keys(accesses@, f@),
    ensures
        match r {
            Some(fd) => pair_hit(rule, accesses@, f@, k@) && finding_model(fd) == pair_model(rule, accesses@, f@, k@) && finding_pair(fd) == (f@, k@),
            None => !pair_hit(rule, accesses@, f@, k@),
        },
{
    match rule {
        PairRule::ReadModifyWrite => {
            if contains_name(written.as_slice(), k) {
                let mut message = String::from_str("function `");
                message.append(f);
                message.append("` both reads and writes key `");
                message.append(k);
                message.append("`; read-modify-write access serializes every writer to that key");
                Some(DetectorFinding {
                    detector: String::from_str(READ_MODIFY_WRITE),
                    function: Some(String::from_str(f)),
                    key: Some(String::from_str(k)),
                    message,
                })
            } else {
                None
            }
        },
        PairRule::DuplicateRead => {
            let count = count_reads(accesses, f, k);
            if count > 1 {
                let mut message = String::from_str("function `");
                message.append(f);
                message.append("` reads key `");
                message.append(k);
                message.append("` ");
                let times = decimal_string(count as u64);
                message.append(times.as_str());
                message.append(" times; redundant reads amplify the read set");
                Some(DetectorFinding {
                    detector: String::from_str(DUPLICATE_READ),
                    function: Some(String::from_str(f)),
                    key: Some(String::from_str(k)),
                    message,
                })
            } else {
                None
            }
        },
    }
}

/// Runs a per-function, per-key rule over every function, in function order
/// and then key order.
pub fn pair_findings(rule: PairRule, accesses: &[AccessRecord]) -> (r: Vec<DetectorFinding>)
    ensures
        pair_ok(rule, accesses@, r@),
{
    let no_calls: Vec<CallRecord> = Vec::new();
    let names = record_names(accesses, no_calls.as_slice());
    proof {
        assert(call_functions(no_calls@) =~= Set::<Seq<char>>::empty());
        assert(access_functions(accesses@).union(call_functions(no_calls@)) =~= access_functions(accesses@));
    }
    let mut out: Vec<DetectorFinding> = Vec::new();
    let mut p: usize = 0;
    while p < names.len()
        invariant
            p <= names.len(),
            sorted_texts(texts(names@)),
            name_set(names@) == access_functions(accesses@),
            forall|i: int|
                0 <= i < out@.len() ==> pair_hit(rule, accesses@, finding_pair(#[trigger] out@[i]).0, finding_pair(out@[i]).1)
                    && finding_model(out@[i]) == pair_model(rule, accesses@, finding_pair(out@[i]).0, finding_pair(out@[i]).1),
            forall|i: int, j: int| 0 <= i < j < out@.len() ==> pair_lt(finding_pair(#[trigger] out@[i]), finding_pair(#[trigger] out@[j])),
            forall|i: int| 0 <= i < out@.len() ==> name_set(names@.take(p as int)).contains(finding_pair(#[trigger] out@[i]).0),
            forall|f: Seq<char>, k: Seq<char>|
                #[trigger] pair_hit(rule, accesses@, f, k) && name_set(names@.take(p as int)).contains(f) ==> exists|i: int|
                    0 <= i < out@.len() && finding_pair(#[trigger] out@[i]) == (f, k),
        decreases names.len() - p,
    {
        let f = names[p].as_str();
        let reads = key_names_of(accesses, f, AccessKind::Read);
        let written = key_names_of(accesses, f, AccessKind::Write);
        let ghost fprefix = names@.take(p as int);
        let ghost fpost = names@.take(p + 1);
        let ghost base = out@;
        proof {
            assert(fpost =~= fprefix.push(names@[p as int]));
            assert(fpost[p as int]@ == f@);
            assert(name_set(fpost) =~= name_set(fprefix).insert(f@)) by {
                assert forall|m: Seq<char>| name_set(fpost).contains(m) <==> name_set(fprefix).insert(f@).contains(m) by {
                    lemma_name_set_contains(fprefix, m);
                    lemma_name_set_contains(fpost, m);
                    if name_set(fpost).contains(m) {
                        let x = choose|x: int| 0 <= x < fpost.len() && #[trigger] fpost[x]@ == m;
                        if x < p {
                            assert(fprefix[x] == fpost[x]);
                        }
                    }
                    if name_set(fprefix).contains(m) {
                        let x = choose|x: int| 0 <= x < fprefix.len() && #[trigger] fprefix[x]@ == m;
                        assert(fpost[x] == fprefix[x]);
                    }
                }
            }
            assert forall|i: int| 0 <= i < base.len() implies chars_lt(finding_pair(#[trigger] base[i]).0, f@) by {
                lemma_name_set_contains(fprefix, finding_pair(base[i]).0);
                let x = choose|x: int| 0 <= x < fprefix.len() && #[trigger] fprefix[x]@ == finding_pair(base[i]).0;
                assert(texts(names@)[x] == names@[x]@);
                assert(texts(names@)[p as int] == names@[p as int]@);
            }
            assert(read_keys(accesses@, f@) == name_set(reads@));
        }
        let mut q: usize = 0;
        while q < reads.len()
            invariant
                q <= reads.len(),
                p < names.len(),
                f@ == names@[p as int]@,
                sorted_texts(texts(reads@)),
                name_set(reads@) == read_keys(accesses@, f@),
                name_set(written@) == written_keys(accesses@, f@),
                base.len() <= out@.len(),
                forall|i: int| 0 <= i < base.len() ==> out@[i] == base[i],
                forall|i: int| 0 <= i < base.len() ==> chars_lt(finding_pair(#[trigger] base[i]).0, f@),
                forall|i: int|
                    0 <= i < out@.len() ==> pair_hit(rule, accesses@, finding_pair(#[trigger] out@[i]).0, finding_pair(out@[i]).1)
                        && finding_model(out@[i]) == pair_model(rule, accesses@, finding_pair(out@[i]).0, finding_pair(out@[i]).1),
                forall|i: int, j: int| 0 <= i < j < out@.len() ==> pair_lt(finding_pair(#[trigger] out@[i]), finding_pair(#[trigger] out@[j])),
                forall|i: int| base.len() <= i < out@.len() ==> finding_pair(#[trigger] out@[i]).0 == f@ && name_set(reads@.take(q as int)).contains(finding_pair(out@[i]).1),
                forall|k: Seq<char>|
                    #[trigger] pair_hit(rule, accesses@, f@, k) && name_set(reads@.take(q as int)).contains(k) ==> exists|i: int|
                        0 <= i < out@.len() && finding_pair(#[trigger] out@[i]) == (f@, k),
            decreases reads.len() - q,
        {
            let k = reads[q].as_str();
            let ghost kprefix = reads@.take(q as int);
            let ghost kpost = reads@.take(q + 1);
            proof {
                assert(kpost =~= kprefix.push(reads@[q as int]));
                assert(kpost[q as int]@ == k@);
                lemma_name_set_contains(reads@, k@);
                assert(name_set(kpost) =~= name_set(kprefix).insert(k@)) by {
                    assert forall|m: Seq<char>| name_set(kpost).contains(m) <==> name_set(kprefix).insert(k@).contains(m) by {
                        lemma_name_set_contains(kprefix, m);
                        lemma_name_set_contains(kpost, m);
                        if name_set(kpost).contains(m) {
                            let x = choose|x: int| 0 <= x < kpost.len() && #[trigger] kpost[x]@ == m;
                            if x < q {
                                assert(kprefix[x] == kpost[x]);
                            }
                        }
                        if name_set(kprefix).contains(m) {
                            let x = choose|x: int| 0 <= x < kprefix.len() && #[trigger] kprefix[x]@ == m;
                            assert(kpost[x] == kprefix[x]);
                        }
                    }
                }
                assert forall|i: int| base.len() <= i < out@.len() implies chars_lt(finding_pair(#[trigger] out@[i]).1, k@) by {
                    lemma_name_set_contains(kprefix, finding_pair(out@[i]).1);
                    let x = choose|x: int| 0 <= x < kprefix.len() && #[trigger] kprefix[x]@ == finding_pair(out@[i]).1;
                    assert(texts(reads@)[x] == reads@[x]@);
                    assert(texts(reads@)[q as int] == reads@[q as int]@);
                }
            }
            let ghost before = out@;
            match pair_finding(rule, accesses, f, k, &written) {
                Some(fd) => {
                    out.push(fd);
                    proof {
                        assert forall|i: int, j: int| 0 <= i < j < out@.len() implies pair_lt(finding_pair(#[trigger] out@[i]), finding_pair(#[trigger] out@[j])) by {
                            if j == out@.len() - 1 {
                                assert(out@[i] == before[i]);
                                if i < base.len() {
                                    assert(out@[i] == base[i]);
                                }
                            } else {
                                assert(out@[i] == before[i] && out@[j] == before[j]);
                            }
                        }
                    }
                },
                None => {},
            }
            proof {
                assert forall|kk: Seq<char>|
                    #[trigger] pair_hit(rule, accesses@, f@, kk) && name_set(kpost).contains(kk) implies exists|i: int|
                        0 <= i < out@.len() && finding_pair(#[trigger] out@[i]) == (f@, kk) by {
                    if kk == k@ {
                        assert(finding_pair(out@[out@.len() - 1]) == (f@, kk));
                    } else {
                        assert(name_set(kprefix).contains(kk));
                        let i = choose|i: int| 0 <= i < before.len() && finding_pair(#[trigger] before[i]) == (f@, kk);
                        assert(out@[i] == before[i]);
                    }
                }
                assert forall|i: int| base.len() <= i < out@.len() implies finding_pair(#[trigger] out@[i]).0 == f@ && name_set(kpost).contains(finding_pair(out@[i]).1) by {
                    if i < before.len() {
                        assert(out@[i] == before[i]);
                    }
                }
            }
            q = q + 1;
        }
        proof {
            assert(reads@.take(reads@.len() as int) =~= reads@);
            assert forall|i: int| 0 <= i < out@.len() implies name_set(fpost).contains(finding_pair(#[trigger] out@[i]).0) by {
                if i < base.len() {
                    assert(out@[i] == base[i]);
                }
            }
            assert forall|ff: Seq<char>, kk: Seq<char>|
                #[trigger] pair_hit(rule, accesses@, ff, kk) && name_set(fpost).contains(ff) implies exists|i: int|
                    0 <= i < out@.len() && finding_pair(#[trigger] out@[i]) == (ff, kk) by {
                if ff == f@ {
                    match rule {
                        PairRule::ReadModifyWrite => {},
                        PairRule::DuplicateRead => {
                            lemma_read_count_reads(accesses@, ff, kk);
                        },
                    }
                    assert(name_set(reads@).contains(kk));
                } else {
                    assert(name_set(fprefix).contains(ff));
                    let i = choose|i: int| 0 <= i < base.len() && finding_pair(#[trigger] base[i]) == (ff, kk);
                    assert(out@[i] == base[i]);
                }
            }
        }
        p = p + 1;
    }
    proof {
        assert(names@.take(names@.len() as int) =~= names@);
        assert forall|f: Seq<char>, k: Seq<char>| #[trigger] pair_hit(rule, accesses@, f, k) implies exists|i: int| 0 <= i < out@.len() && finding_pair(#[trigger] out@[i]) == (f, k) by {
            match rule {
                PairRule::ReadModifyWrite => {},
                PairRule::DuplicateRead => {
                    lemma_read_count_reads(accesses@, f, k);
                },
            }
            let i = choose|i: int| 0 <= i < accesses@.len() && (#[trigger] accesses@[i]).function@ == f && accesses@[i].kind == AccessKind::Read && key_text(accesses@[i]) == k;
            assert(access_functions(accesses@).contains(f));
        }
    }
    out
}

/// Flags each (function, key) a function both reads and writes.
pub fn read_modify_write(accesses: &[AccessRecord]) -> (r: Vec<DetectorFinding>)
    ensures
        pair_ok(PairRule::ReadModifyWrite, accesses@, r@),
{
    pair_findings(PairRule::ReadModifyWrite, accesses)
}

/// Flags each (function, key) a function reads more than once.
pub fn duplicate_read(accesses: &[AccessRecord]) -> (r: Vec<DetectorFinding>)
    ensures
        pair_ok(PairRule::DuplicateRead, accesses@, r@),
{
    pair_findings(PairRule::DuplicateRead, accesses)
}

/// `r` is the findings of every detector in turn: global static writes,
/// writes in loops, read-modify-writes and duplicate reads.
pub open spec fn detectors_ok(acc: Seq<AccessRecord>, r: Seq<DetectorFinding>) -> bool {
    exists|a: int, b: int, c: int|
        0 <= a <= b <= c <= r.len() && global_ok(acc, #[trigger] r.subrange(0, a))
            && findings_model(#[trigger] r.subrange(a, b)) == loop_findings(acc)
            && pair_ok(PairRule::ReadModifyWrite, acc, #[trigger] r.subrange(b, c))
            && pair_ok(PairRule::DuplicateRead, acc, r.subrange(c, r.len() as int))
}

/// Runs all detectors over the raw access records: global static writes,
/// writes in loops, read-modify-writes and duplicate reads, in that order.
pub fn run(accesses: &[AccessRecord]) -> (r: Vec<DetectorFinding>)
    ensures
        detectors_ok(accesses@, r@),
{
    let mut findings = global_static_write(accesses);
    let ghost a = findings@.len() as int;
    let ghost g = findings@;
    let mut loops = write_in_loop(accesses);
    let ghost l = loops@;
    findings.append(&mut loops);
    let ghost b = findings@.len() as int;
    let mut rmw = read_modify_write(accesses);
    let ghost m = rmw@;
    findings.append(&mut rmw);
    let ghost c = findings@.len() as int;
    let mut dup = duplicate_read(accesses);
    let ghost d = dup@;
    findings.append(&mut dup);
    proof {
        assert(findings@.subrange(0, a) =~= g);
        assert(findings@.subrange(a, b) =~= l);
        assert(findings@.subrange(b, c) =~= m);
        assert(findings@.subrange(c, findings@.len() as int) =~= d);
    }
    findings
}

} // verus!
