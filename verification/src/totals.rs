//! Totals over a set of analysis reports, and the comparison of two sets
//! (for instance a naive and an optimized contract): per-metric rows and
//! per-function access deltas.

use vstd::prelude::*;

use crate::analysis::{AnalysisReport, FunctionAccess};
use crate::detectors::DetectorFinding;
use crate::keys::chars_lt;
use crate::names::{contains_name, insert_name, lemma_name_set_contains, lemma_sorted_names_len, name_set, sorted_texts};
use crate::text::{same_text, texts};

verus! {

/// Totals over the reports of one side of a comparison.
#[derive(Debug, Clone)]
pub struct Totals {
    pub files: usize,
    pub functions: usize,
    pub reads: usize,
    pub writes: usize,
    /// Findings per detector name, in name order.
    pub detectors: Vec<(String, usize)>,
}

/// The sum of `f` over the reports.
pub open spec fn report_sum(reports: Seq<AnalysisReport>, f: spec_fn(AnalysisReport) -> int) -> int
    decreases reports.len(),
{
    if reports.len() == 0 {
        0
    } else {
        report_sum(reports.drop_last(), f) + f(reports.last())
    }
}

/// The sum of `g` over the functions.
pub open spec fn function_sum(fs: Seq<FunctionAccess>, g: spec_fn(FunctionAccess) -> int) -> int
    decreases fs.len(),
{
    if fs.len() == 0 {
        0
    } else {
        function_sum(fs.drop_last(), g) + g(fs.last())
    }
}

/// The number of findings of detector `d`.
pub open spec fn findings_named(fs: Seq<DetectorFinding>, d: Seq<char>) -> int
    decreases fs.len(),
{
    if fs.len() == 0 {
        0
    } else {
        findings_named(fs.drop_last(), d) + if fs.last().detector@ == d {
            1int
        } else {
            0int
        }
    }
}

/// The number of functions across the reports.
pub open spec fn function_total(reports: Seq<AnalysisReport>) -> int {
    report_sum(reports, |r: AnalysisReport| r.functions@.len() as int)
}

/// The number of own storage reads across the reports' functions.
pub open spec fn read_total(reports: Seq<AnalysisReport>) -> int {
    report_sum(reports, |r: AnalysisReport| function_sum(r.functions@, |f: FunctionAccess| f.storage_reads@.len() as int))
}

/// The number of own storage writes across the reports' functions.
pub open spec fn write_total(reports: Seq<AnalysisReport>) -> int {
    report_sum(reports, |r: AnalysisReport| function_sum(r.functions@, |f: FunctionAccess| f.storage_writes@.len() as int))
}

/// The number of findings across the reports.
pub open spec fn finding_total(reports: Seq<AnalysisReport>) -> int {
    report_sum(reports, |r: AnalysisReport| r.detectors@.len() as int)
}

/// The number of findings of detector `d` across the reports.
pub open spec fn detector_count(reports: Seq<AnalysisReport>, d: Seq<char>) -> int {
    report_sum(reports, |r: AnalysisReport| findings_named(r.detectors@, d))
}

/// The detector names with findings in the reports.
pub open spec fn detector_names(reports: Seq<AnalysisReport>) -> Set<Seq<char>> {
    Set::new(
        |d: Seq<char>|
            exists|i: int, j: int|
                0 <= i < reports.len() && 0 <= j < reports[i].detectors@.len() && (#[trigger] reports[i].detectors@[j]).detector@ == d,
    )
}

/// The names of a list of counts.
pub open spec fn count_names(c: Seq<(String, usize)>) -> Seq<Seq<char>> {
    c.map_values(|e: (String, usize)| e.0@)
}

/// `t` totals the reports: files, functions, own reads and writes, and the
/// findings of each detector, in detector-name order.
pub open spec fn totals_of(t: Totals, reports: Seq<AnalysisReport>) -> bool {
    &&& t.files == reports.len()
    &&& t.functions == function_total(reports)
    &&& t.reads == read_total(reports)
    &&& t.writes == write_total(reports)
    &&& sorted_texts(count_names(t.detectors@))
    &&& count_names(t.detectors@).to_set() == detector_names(reports)
    &&& forall|k: int| 0 <= k < t.detectors@.len() ==> (#[trigger] t.detectors@[k]).1 == detector_count(reports, t.detectors@[k].0@)
}

/// The totals of every report fit machine integers.
pub open spec fn totals_fit(reports: Seq<AnalysisReport>) -> bool {
    &&& function_total(reports) <= usize::MAX
    &&& read_total(reports) <= usize::MAX
    &&& write_total(reports) <= usize::MAX
    &&& finding_total(reports) <= usize::MAX
}

/// A prefix sums no more than the whole, for nonnegative terms.
pub proof fn lemma_report_sum_prefix(reports: Seq<AnalysisReport>, f: spec_fn(AnalysisReport) -> int, k: int)
    requires
        0 <= k <= reports.len(),
        forall|r: AnalysisReport| #[trigger] f(r) >= 0,
    ensures
        0 <= report_sum(reports.take(k), f) <= report_sum(reports, f),
        k < reports.len() ==> report_sum(reports.take(k + 1), f) == report_sum(reports.take(k), f) + f(reports[k]),
    decreases reports.len(),
{
    if k < reports.len() {
        assert(reports.take(k + 1).drop_last() =~= reports.take(k));
        if k + 1 < reports.len() {
            assert(reports.drop_last().take(k + 1) =~= reports.take(k + 1));
            lemma_report_sum_prefix(reports.drop_last(), f, k + 1);
        } else {
            assert(reports.take(k + 1) =~= reports);
        }
        assert(reports.drop_last().take(k) =~= reports.take(k));
        lemma_report_sum_prefix(reports.drop_last(), f, k);
    } else {
        assert(reports.take(k) =~= reports);
        if reports.len() > 0 {
            assert(reports.drop_last().take(reports.drop_last().len() as int) =~= reports.drop_last());
            lemma_report_sum_prefix(reports.drop_last(), f, reports.drop_last().len() as int);
        }
    }
}

/// A prefix sums no more than the whole, for nonnegative terms.
pub proof fn lemma_function_sum_prefix(fs: Seq<FunctionAccess>, g: spec_fn(FunctionAccess) -> int, k: int)
    requires
        0 <= k <= fs.len(),
        forall|f: FunctionAccess| #[trigger] g(f) >= 0,
    ensures
        0 <= function_sum(fs.take(k), g) <= function_sum(fs, g),
        k < fs.len() ==> function_sum(fs.take(k + 1), g) == function_sum(fs.take(k), g) + g(fs[k]),
    decreases fs.len(),
{
    if k < fs.len() {
        assert(fs.take(k + 1).drop_last() =~= fs.take(k));
        if k + 1 < fs.len() {
            assert(fs.drop_last().take(k + 1) =~= fs.take(k + 1));
            lemma_function_sum_prefix(fs.drop_last(), g, k + 1);
        } else {
            assert(fs.take(k + 1) =~= fs);
        }
        assert(fs.drop_last().take(k) =~= fs.take(k));
        lemma_function_sum_prefix(fs.drop_last(), g, k);
    } else {
        assert(fs.take(k) =~= fs);
        if fs.len() > 0 {
            assert(fs.drop_last().take(fs.drop_last().len() as int) =~= fs.drop_last());
            lemma_function_sum_prefix(fs.drop_last(), g, fs.drop_last().len() as int);
        }
    }
}

/// A detector has no more findings than there are.
proof fn lemma_findings_named_bound(fs: Seq<DetectorFinding>, d: Seq<char>)
    ensures
        0 <= findings_named(fs, d) <= fs.len(),
    decreases fs.len(),
{
    if fs.len() > 0 {
        lemma_findings_named_bound(fs.drop_last(), d);
    }
}

/// A detector has no more findings across the reports than there are.
proof fn lemma_detector_count_bound(reports: Seq<AnalysisReport>, d: Seq<char>)
    ensures
        0 <= detector_count(reports, d) <= finding_total(reports),
    decreases reports.len(),
{
    if reports.len() > 0 {
        lemma_detector_count_bound(reports.drop_last(), d);
        lemma_findings_named_bound(reports.last().detectors@, d);
    }
}

/// The own reads and writes of a report's functions.
pub fn report_access_counts(report: &AnalysisReport) -> (r: (usize, usize))
    requires
        function_sum(report.functions@, |f: FunctionAccess| f.storage_reads@.len() as int) <= usize::MAX,
        function_sum(report.functions@, |f: FunctionAccess| f.storage_writes@.len() as int) <= usize::MAX,
    ensures
        r.0 == function_sum(report.functions@, |f: FunctionAccess| f.storage_reads@.len() as int),
        r.1 == function_sum(report.functions@, |f: FunctionAccess| f.storage_writes@.len() as int),
{
    let ghost gr = |f: FunctionAccess| f.storage_reads@.len() as int;
    let ghost gw = |f: FunctionAccess| f.storage_writes@.len() as int;
    let mut reads: usize = 0;
    let mut writes: usize = 0;
    let mut j: usize = 0;
    while j < report.functions.len()
        invariant
            j <= report.functions.len(),
            gr == (|f: FunctionAccess| f.storage_reads@.len() as int),
            gw == (|f: FunctionAccess| f.storage_writes@.len() as int),
            function_sum(report.functions@, gr) <= usize::MAX,
            function_sum(report.functions@, gw) <= usize::MAX,
            reads == function_sum(report.functions@.take(j as int), gr),
            writes == function_sum(report.functions@.take(j as int), gw),
        decreases report.functions.len() - j,
    {
        proof {
            lemma_function_sum_prefix(report.functions@, gr, j + 1);
            lemma_function_sum_prefix(report.functions@, gr, j as int);
            lemma_function_sum_prefix(report.functions@, gw, j + 1);
            lemma_function_sum_prefix(report.functions@, gw, j as int);
        }
        reads = reads + report.functions[j].storage_reads.len();
        writes = writes + report.functions[j].storage_writes.len();
        j = j + 1;
    }
    proof {
        assert(report.functions@.take(report.functions@.len() as int) =~= report.functions@);
    }
    (reads, writes)
}

/// The detector names with findings in the reports, in name order.
fn finding_names(reports: &[AnalysisReport]) -> (r: Vec<String>)
    ensures
        sorted_texts(texts(r@)),
        name_set(r@) == detector_names(reports@),
{
    let mut names: Vec<String> = Vec::new();
    proof {
        assert(name_set(names@) =~= Set::<Seq<char>>::empty());
    }
    let mut i: usize = 0;
    while i < reports.len()
        invariant
            i <= reports.len(),
            sorted_texts(texts(names@)),
            forall|d: Seq<char>| #[trigger] name_set(names@).contains(d) <==> exists|a: int, b: int|
                0 <= a < i && 0 <= b < reports@[a].detectors@.len() && (#[trigger] reports@[a].detectors@[b]).detector@ == d,
        decreases reports.len() - i,
    {
        let report = &reports[i];
        let mut j: usize = 0;
        while j < report.detectors.len()
            invariant
                j <= report.detectors.len(),
                i < reports.len(),
                *report == reports@[i as int],
                sorted_texts(texts(names@)),
                forall|d: Seq<char>| #[trigger] name_set(names@).contains(d) <==> (exists|a: int, b: int|
                    0 <= a < i && 0 <= b < reports@[a].detectors@.len() && (#[trigger] reports@[a].detectors@[b]).detector@ == d)
                    || (exists|b: int| 0 <= b < j && (#[trigger] report.detectors@[b]).detector@ == d),
            decreases report.detectors.len() - j,
        {
            let ghost before = name_set(names@);
            insert_name(&mut names, report.detectors[j].detector.as_str());
            proof {
                assert forall|d: Seq<char>| #[trigger] name_set(names@).contains(d) <==> (exists|a: int, b: int|
                    0 <= a < i && 0 <= b < reports@[a].detectors@.len() && (#[trigger] reports@[a].detectors@[b]).detector@ == d)
                    || (exists|b: int| 0 <= b < j + 1 && (#[trigger] report.detectors@[b]).detector@ == d) by {
                    if d == report.detectors@[j as int].detector@ {
                        assert(report.detectors@[j as int].detector@ == d);
                    }
                    if exists|b: int| 0 <= b < j + 1 && (#[trigger] report.detectors@[b]).detector@ == d {
                        let b = choose|b: int| 0 <= b < j + 1 && (#[trigger] report.detectors@[b]).detector@ == d;
                        if b < j {
                            assert(before.contains(d));
                        }
                    }
                }
            }
            j = j + 1;
        }
        proof {
            assert forall|d: Seq<char>| #[trigger] name_set(names@).contains(d) <==> exists|a: int, b: int|
                0 <= a < i + 1 && 0 <= b < reports@[a].detectors@.len() && (#[trigger] reports@[a].detectors@[b]).detector@ == d by {
                if exists|b: int| 0 <= b < report.detectors@.len() && (#[trigger] report.detectors@[b]).detector@ == d {
                    let b = choose|b: int| 0 <= b < report.detectors@.len() && (#[trigger] report.detectors@[b]).detector@ == d;
                    assert(reports@[i as int].detectors@[b].detector@ == d);
                }
                if exists|a: int, b: int|
                    0 <= a < i + 1 && 0 <= b < reports@[a].detectors@.len() && (#[trigger] reports@[a].detectors@[b]).detector@ == d {
                    let (a, b) = choose|a: int, b: int|
                        0 <= a < i + 1 && 0 <= b < reports@[a].detectors@.len() && (#[trigger] reports@[a].detectors@[b]).detector@ == d;
                    if a == i {
                        assert(report.detectors@[b].detector@ == d);
                    }
                }
            }
        }
        i = i + 1;
    }
    proof {
        assert(name_set(names@) =~= detector_names(reports@));
    }
    names
}

/// The number of findings of detector `d` across the reports.
fn count_findings(reports: &[AnalysisReport], d: &str) -> (r: usize)
    requires
        finding_total(reports@) <= usize::MAX,
    ensures
        r == detector_count(reports@, d@),
{
    let ghost f = |r: AnalysisReport| findings_named(r.detectors@, d@);
    let mut total: usize = 0;
    let mut i: usize = 0;
    while i < reports.len()
        invariant
            i <= reports.len(),
            f == (|r: AnalysisReport| findings_named(r.detectors@, d@)),
            finding_total(reports@) <= usize::MAX,
            total == report_sum(reports@.take(i as int), f),
        decreases reports.len() - i,
    {
        let report = &reports[i];
        let mut n: usize = 0;
        let mut j: usize = 0;
        while j < report.detectors.len()
            invariant
                j <= report.detectors.len(),
                n == findings_named(report.detectors@.take(j as int), d@),
            decreases report.detectors.len() - j,
        {
            proof {
                assert(report.detectors@.take(j + 1).drop_last() =~= report.detectors@.take(j as int));
                lemma_findings_named_bound(report.detectors@.take(j as int), d@);
            }
            if same_text(report.detectors[j].detector.as_str(), d) {
                n = n + 1;
            }
            j = j + 1;
        }
        proof {
            assert(report.detectors@.take(report.detectors@.len() as int) =~= report.detectors@);
            assert forall|r: AnalysisReport| #[trigger] f(r) >= 0 by {
                lemma_findings_named_bound(r.detectors@, d@);
            }
            lemma_report_sum_prefix(reports@, f, i as int);
            lemma_report_sum_prefix(reports@, f, i + 1);
            lemma_detector_count_bound(reports@, d@);
            assert(f(reports@[i as int]) == n);
        }
        total = total + n;
        i = i + 1;
    }
    proof {
        assert(reports@.take(reports@.len() as int) =~= reports@);
    }
    total
}

/// Totals the reports: files, functions, own reads and writes, and the
/// findings of each detector in name order.
pub fn aggregate(reports: &[AnalysisReport]) -> (r: Totals)
    requires
        totals_fit(reports@),
    ensures
        totals_of(r, reports@),
{
    let ghost ff = |r: AnalysisReport| r.functions@.len() as int;
    let ghost fr = |r: AnalysisReport| function_sum(r.functions@, |f: FunctionAccess| f.storage_reads@.len() as int);
    let ghost fw = |r: AnalysisReport| function_sum(r.functions@, |f: FunctionAccess| f.storage_writes@.len() as int);
    let mut functions: usize = 0;
    let mut reads: usize = 0;
    let mut writes: usize = 0;
    let mut i: usize = 0;
    proof {
        assert forall|r: AnalysisReport| #[trigger] fr(r) >= 0 by {
            lemma_function_sum_prefix(r.functions@, |f: FunctionAccess| f.storage_reads@.len() as int, 0);
        }
        assert forall|r: AnalysisReport| #[trigger] fw(r) >= 0 by {
            lemma_function_sum_prefix(r.functions@, |f: FunctionAccess| f.storage_writes@.len() as int, 0);
        }
    }
    while i < reports.len()
        invariant
            i <= reports.len(),
            totals_fit(reports@),
            ff == (|r: AnalysisReport| r.functions@.len() as int),
            fr == (|r: AnalysisReport| function_sum(r.functions@, |f: FunctionAccess| f.storage_reads@.len() as int)),
            fw == (|r: AnalysisReport| function_sum(r.functions@, |f: FunctionAccess| f.storage_writes@.len() as int)),
            forall|r: AnalysisReport| #[trigger] fr(r) >= 0,
            forall|r: AnalysisReport| #[trigger] fw(r) >= 0,
            functions == report_sum(reports@.take(i as int), ff),
            reads == report_sum(reports@.take(i as int), fr),
            writes == report_sum(reports@.take(i as int), fw),
        decreases reports.len() - i,
    {
        proof {
            lemma_report_sum_prefix(reports@, ff, i as int);
            lemma_report_sum_prefix(reports@, ff, i + 1);
            lemma_report_sum_prefix(reports@, fr, i as int);
            lemma_report_sum_prefix(reports@, fr, i + 1);
            lemma_report_sum_prefix(reports@, fw, i as int);
            lemma_report_sum_prefix(reports@, fw, i + 1);
        }
        let (r, w) = report_access_counts(&reports[i]);
        functions = functions + reports[i].functions.len();
        reads = reads + r;
        writes = writes + w;
        i = i + 1;
    }
    proof {
        assert(reports@.take(reports@.len() as int) =~= reports@);
    }
    let names = finding_names(reports);
    let mut detectors: Vec<(String, usize)> = Vec::new();
    let mut k: usize = 0;
    while k < names.len()
        invariant
            k <= names.len(),
            totals_fit(reports@),
            detectors@.len() == k,
            forall|x: int| 0 <= x < k ==> (#[trigger] detectors@[x]).0@ == names@[x]@ && detectors@[x].1 == detector_count(reports@, names@[x]@),
        decreases names.len() - k,
    {
        let n = count_findings(reports, names[k].as_str());
        detectors.push((names[k].clone(), n));
        k = k + 1;
    }
    proof {
        assert(count_names(detectors@) =~= texts(names@));
    }
    Totals { files: reports.len(), functions, reads, writes, detectors }
}

/// The count of `name` in a list of counts: the first entry with that name,
/// or zero.
pub open spec fn count_of(c: Seq<(String, usize)>, name: Seq<char>) -> int
    decreases c.len(),
{
    if c.len() == 0 {
        0
    } else if c[0].0@ == name {
        c[0].1 as int
    } else {
        count_of(c.drop_first(), name)
    }
}

/// The sum of the counts.
pub open spec fn count_sum(c: Seq<(String, usize)>) -> int
    decreases c.len(),
{
    if c.len() == 0 {
        0
    } else {
        count_sum(c.drop_last()) + c.last().1
    }
}

fn lookup_count(c: &Vec<(String, usize)>, name: &str) -> (r: usize)
    ensures
        r == count_of(c@, name@),
{
    let mut i: usize = 0;
    assert(c@.skip(0) =~= c@);
    while i < c.len()
        invariant
            i <= c.len(),
            count_of(c@, name@) == count_of(c@.skip(i as int), name@),
        decreases c.len() - i,
    {
        proof {
            assert(c@.skip(i as int).drop_first() =~= c@.skip(i + 1));
        }
        if same_text(c[i].0.as_str(), name) {
            return c[i].1;
        }
        i = i + 1;
    }
    0
}

fn sum_counts(c: &Vec<(String, usize)>) -> (r: usize)
    requires
        count_sum(c@) <= usize::MAX,
    ensures
        r == count_sum(c@),
{
    let mut total: usize = 0;
    let mut i: usize = 0;
    while i < c.len()
        invariant
            i <= c.len(),
            count_sum(c@) <= usize::MAX,
            total == count_sum(c@.take(i as int)),
        decreases c.len() - i,
    {
        proof {
            assert(c@.take(i + 1).drop_last() =~= c@.take(i as int));
            lemma_count_sum_prefix(c@, i + 1);
        }
        total = total + c[i].1;
        i = i + 1;
    }
    proof {
        assert(c@.take(c@.len() as int) =~= c@);
    }
    total
}

proof fn lemma_count_sum_prefix(c: Seq<(String, usize)>, k: int)
    requires
        0 <= k <= c.len(),
    ensures
        count_sum(c.take(k)) <= count_sum(c),
    decreases c.len(),
{
    if k < c.len() {
        assert(c.drop_last().take(k) =~= c.take(k));
        lemma_count_sum_prefix(c.drop_last(), k);
    } else {
        assert(c.take(k) =~= c);
    }
}

/// The model of a comparison row: metric, left value, right value.
pub open spec fn row_model(r: (String, usize, usize)) -> (Seq<char>, int, int) {
    (r.0@, r.1 as int, r.2 as int)
}

/// The rows comparing two totals: files, functions, storage reads, storage
/// writes and detector findings, then one row per detector name of either
/// side, in name order, naming the detector in brackets.
pub open spec fn compared(rows: Seq<(String, usize, usize)>, left: Totals, right: Totals) -> bool {
    &&& rows.len() >= 5
    &&& row_model(rows[0]) == ("files"@, left.files as int, right.files as int)
    &&& row_model(rows[1]) == ("functions"@, left.functions as int, right.functions as int)
    &&& row_model(rows[2]) == ("storage reads"@, left.reads as int, right.reads as int)
    &&& row_model(rows[3]) == ("storage writes"@, left.writes as int, right.writes as int)
    &&& row_model(rows[4]) == ("detector findings"@, count_sum(left.detectors@), count_sum(right.detectors@))
    &&& exists|ds: Seq<Seq<char>>|
        #![trigger ds.len()]
        sorted_texts(ds) && ds.to_set() == count_names(left.detectors@).to_set().union(count_names(right.detectors@).to_set())
            && rows.len() == 5 + ds.len() && forall|k: int|
            0 <= k < ds.len() ==> row_model(#[trigger] rows[5 + k]) == (
                "  ["@ + ds[k] + "]"@,
                count_of(left.detectors@, ds[k]),
                count_of(right.detectors@, ds[k]),
            )
}

/// The sorted union of the names of two count lists.
fn merged_names(a: &Vec<(String, usize)>, b: &Vec<(String, usize)>) -> (r: Vec<String>)
    ensures
        sorted_texts(texts(r@)),
        name_set(r@) == count_names(a@).to_set().union(count_names(b@).to_set()),
{
    let mut names: Vec<String> = Vec::new();
    let mut i: usize = 0;
    proof {
        assert(name_set(names@) =~= count_names(a@.take(0)).to_set());
    }
    while i < a.len()
        invariant
            i <= a.len(),
            sorted_texts(texts(names@)),
            name_set(names@) == count_names(a@.take(i as int)).to_set(),
        decreases a.len() - i,
    {
        insert_name(&mut names, a[i].0.as_str());
        proof {
            assert(count_names(a@.take(i + 1)) =~= count_names(a@.take(i as int)).push(a@[i as int].0@));
            assert(count_names(a@.take(i as int)).push(a@[i as int].0@).to_set() =~= count_names(a@.take(i as int)).to_set().insert(a@[i as int].0@)) by {
                let s = count_names(a@.take(i as int));
                let x = a@[i as int].0@;
                assert forall|m: Seq<char>| s.push(x).to_set().contains(m) <==> s.to_set().insert(x).contains(m) by {
                    if s.push(x).to_set().contains(m) {
                        let p = choose|p: int| 0 <= p < s.push(x).len() && s.push(x)[p] == m;
                        if p < s.len() {
                            assert(s[p] == m);
                        }
                    }
                    if s.to_set().contains(m) {
                        let p = choose|p: int| 0 <= p < s.len() && s[p] == m;
                        assert(s.push(x)[p] == m);
                    }
                    if m == x {
                        assert(s.push(x)[s.len() as int] == m);
                    }
                }
            }
        }
        i = i + 1;
    }
    proof {
        assert(a@.take(a@.len() as int) =~= a@);
        assert(name_set(names@) =~= count_names(a@).to_set().union(count_names(b@.take(0)).to_set()));
    }
    let mut j: usize = 0;
    while j < b.len()
        invariant
            j <= b.len(),
            sorted_texts(texts(names@)),
            name_set(names@) == count_names(a@).to_set().union(count_names(b@.take(j as int)).to_set()),
        decreases b.len() - j,
    {
        insert_name(&mut names, b[j].0.as_str());
        proof {
            assert(count_names(b@.take(j + 1)) =~= count_names(b@.take(j as int)).push(b@[j as int].0@));
            assert(count_names(b@.take(j as int)).push(b@[j as int].0@).to_set() =~= count_names(b@.take(j as int)).to_set().insert(b@[j as int].0@)) by {
                let s = count_names(b@.take(j as int));
                let x = b@[j as int].0@;
                assert forall|m: Seq<char>| s.push(x).to_set().contains(m) <==> s.to_set().insert(x).contains(m) by {
                    if s.push(x).to_set().contains(m) {
                        let p = choose|p: int| 0 <= p < s.push(x).len() && s.push(x)[p] == m;
                        if p < s.len() {
                            assert(s[p] == m);
                        }
                    }
                    if s.to_set().contains(m) {
                        let p = choose|p: int| 0 <= p < s.len() && s[p] == m;
                        assert(s.push(x)[p] == m);
                    }
                    if m == x {
                        assert(s.push(x)[s.len() as int] == m);
                    }
                }
            }
            assert(name_set(names@) =~= count_names(a@).to_set().union(count_names(b@.take(j + 1)).to_set()));
        }
        j = j + 1;
    }
    proof {
        assert(b@.take(b@.len() as int) =~= b@);
    }
    names
}

/// Compares two totals metric by metric.
pub fn compare(left: &Totals, right: &Totals) -> (r: Vec<(String, usize, usize)>)
    requires
        count_sum(left.detectors@) <= usize::MAX,
        count_sum(right.detectors@) <= usize::MAX,
    ensures
        compared(r@, *left, *right),
{
    let mut rows: Vec<(String, usize, usize)> = Vec::new();
    rows.push((String::from_str("files"), left.files, right.files));
    rows.push((String::from_str("functions"), left.functions, right.functions));
    rows.push((String::from_str("storage reads"), left.reads, right.reads));
    rows.push((String::from_str("storage writes"), left.writes, right.writes));
    rows.push((String::from_str("detector findings"), sum_counts(&left.detectors), sum_counts(&right.detectors)));
    let names = merged_names(&left.detectors, &right.detectors);
    let ghost head = rows@;
    proof {
        assert(row_model(head[0]) == ("files"@, left.files as int, right.files as int));
        assert(row_model(head[1]) == ("functions"@, left.functions as int, right.functions as int));
        assert(row_model(head[2]) == ("storage reads"@, left.reads as int, right.reads as int));
        assert(row_model(head[3]) == ("storage writes"@, left.writes as int, right.writes as int));
        assert(row_model(head[4]) == ("detector findings"@, count_sum(left.detectors@), count_sum(right.detectors@)));
    }
    let mut k: usize = 0;
    while k < names.len()
        invariant
            k <= names.len(),
            rows@.len() == 5 + k,
            forall|x: int| 0 <= x < 5 ==> #[trigger] rows@[x] == head[x],
            forall|x: int|
                0 <= x < k ==> row_model(#[trigger] rows@[5 + x]) == (
                    "  ["@ + names@[x]@ + "]"@,
                    count_of(left.detectors@, names@[x]@),
                    count_of(right.detectors@, names@[x]@),
                ),
        decreases names.len() - k,
    {
        let mut label = String::from_str("  [");
        label.append(names[k].as_str());
        label.append("]");
        let l = lookup_count(&left.detectors, names[k].as_str());
        let r = lookup_count(&right.detectors, names[k].as_str());
        rows.push((label, l, r));
        proof {
            assert(rows@[5 + k as int] == (label, l, r));
        }
        k = k + 1;
    }
    proof {
        assert(rows@[0] == head[0] && rows@[1] == head[1] && rows@[2] == head[2] && rows@[3] == head[3] && rows@[4] == head[4]);
        let ds = texts(names@);
        assert(sorted_texts(ds) && ds.to_set() == count_names(left.detectors@).to_set().union(count_names(right.detectors@).to_set()));
        assert(rows@.len() == 5 + ds.len());
        assert forall|x: int| 0 <= x < ds.len() implies row_model(#[trigger] rows@[5 + x]) == (
            "  ["@ + ds[x] + "]"@,
            count_of(left.detectors@, ds[x]),
            count_of(right.detectors@, ds[x]),
        ) by {
            assert(ds[x] == names@[x]@);
        }
    }
    rows
}

/// Where a finding points: its function and key, either alone, or nothing.
pub open spec fn location_text(f: Option<Seq<char>>, k: Option<Seq<char>>) -> Seq<char> {
    match (f, k) {
        (Some(a), Some(b)) => a + " / "@ + b,
        (Some(a), None) => a,
        (None, Some(b)) => b,
        (None, None) => Seq::empty(),
    }
}

/// The location shown for a finding.
pub fn finding_location(finding: &DetectorFinding) -> (r: String)
    ensures
        r@ == location_text(crate::detectors::opt_text(finding.function), crate::detectors::opt_text(finding.key)),
{
    match (&finding.function, &finding.key) {
        (Some(f), Some(k)) => {
            let mut s = f.clone();
            s.append(" / ");
            s.append(k.as_str());
            s
        },
        (Some(f), None) => f.clone(),
        (None, Some(k)) => k.clone(),
        (None, None) => String::new(),
    }
}

/// The own keys a function accesses with `kind`.
pub open spec fn kind_len(f: FunctionAccess, kind: crate::analysis::AccessKind) -> int {
    match kind {
        crate::analysis::AccessKind::Read => f.storage_reads@.len() as int,
        crate::analysis::AccessKind::Write => f.storage_writes@.len() as int,
    }
}

/// The own keys accessed with `kind` by the functions named `name`.
pub open spec fn named_in(fs: Seq<FunctionAccess>, name: Seq<char>, kind: crate::analysis::AccessKind) -> int
    decreases fs.len(),
{
    if fs.len() == 0 {
        0
    } else {
        named_in(fs.drop_last(), name, kind) + if fs.last().function_name@ == name {
            kind_len(fs.last(), kind)
        } else {
            0
        }
    }
}

/// The own keys accessed with `kind` by the functions.
pub open spec fn kind_in(fs: Seq<FunctionAccess>, kind: crate::analysis::AccessKind) -> int
    decreases fs.len(),
{
    if fs.len() == 0 {
        0
    } else {
        kind_in(fs.drop_last(), kind) + kind_len(fs.last(), kind)
    }
}

/// The own keys accessed with `kind` by the functions named `name` across
/// the reports.
pub open spec fn named_sum(reports: Seq<AnalysisReport>, name: Seq<char>, kind: crate::analysis::AccessKind) -> int
    decreases reports.len(),
{
    if reports.len() == 0 {
        0
    } else {
        named_sum(reports.drop_last(), name, kind) + named_in(reports.last().functions@, name, kind)
    }
}

/// The own keys accessed with `kind` across the reports.
pub open spec fn kind_total(reports: Seq<AnalysisReport>, kind: crate::analysis::AccessKind) -> int
    decreases reports.len(),
{
    if reports.len() == 0 {
        0
    } else {
        kind_total(reports.drop_last(), kind) + kind_in(reports.last().functions@, kind)
    }
}

/// The function names across the reports.
pub open spec fn function_names(reports: Seq<AnalysisReport>) -> Set<Seq<char>> {
    Set::new(
        |n: Seq<char>|
            exists|i: int, j: int|
                0 <= i < reports.len() && 0 <= j < reports[i].functions@.len() && (#[trigger] reports[i].functions@[j]).function_name@ == n,
    )
}

/// The names of a list of metrics.
pub open spec fn metric_names(m: Seq<(String, usize, usize)>) -> Seq<Seq<char>> {
    m.map_values(|e: (String, usize, usize)| e.0@)
}

/// A named count is at most the total, and a prefix at most the whole.
proof fn lemma_named_in(fs: Seq<FunctionAccess>, name: Seq<char>, kind: crate::analysis::AccessKind, k: int)
    requires
        0 <= k <= fs.len(),
    ensures
        0 <= named_in(fs.take(k), name, kind) <= named_in(fs, name, kind) <= kind_in(fs, kind),
        k < fs.len() ==> named_in(fs.take(k + 1), name, kind) == named_in(fs.take(k), name, kind) + if fs[k].function_name@ == name {
            kind_len(fs[k], kind)
        } else {
            0
        },
    decreases fs.len() - k,
{
    lemma_named_in_total(fs, name, kind);
    lemma_named_in_total(fs.take(k), name, kind);
    if k < fs.len() {
        assert(fs.take(k + 1).drop_last() =~= fs.take(k));
        assert(fs.take(k + 1).last() == fs[k]);
        lemma_named_in(fs, name, kind, k + 1);
    } else {
        assert(fs.take(k) =~= fs);
    }
}

proof fn lemma_named_in_total(fs: Seq<FunctionAccess>, name: Seq<char>, kind: crate::analysis::AccessKind)
    ensures
        0 <= named_in(fs, name, kind) <= kind_in(fs, kind),
    decreases fs.len(),
{
    if fs.len() > 0 {
        lemma_named_in_total(fs.drop_last(), name, kind);
    }
}

/// A named count across the reports is at most the total, and a prefix at
/// most the whole.
proof fn lemma_named_sum(reports: Seq<AnalysisReport>, name: Seq<char>, kind: crate::analysis::AccessKind, k: int)
    requires
        0 <= k <= reports.len(),
    ensures
        0 <= named_sum(reports.take(k), name, kind) <= named_sum(reports, name, kind) <= kind_total(reports, kind),
        k < reports.len() ==> named_sum(reports.take(k + 1), name, kind) == named_sum(reports.take(k), name, kind) + named_in(
            reports[k].functions@,
            name,
            kind,
        ),
    decreases reports.len() - k,
{
    lemma_named_sum_total(reports, name, kind);
    lemma_named_sum_total(reports.take(k), name, kind);
    if k < reports.len() {
        assert(reports.take(k + 1).drop_last() =~= reports.take(k));
        assert(reports.take(k + 1).last() == reports[k]);
        lemma_named_in_total(reports[k].functions@, name, kind);
        lemma_named_sum(reports, name, kind, k + 1);
    } else {
        assert(reports.take(k) =~= reports);
    }
}

proof fn lemma_named_sum_total(reports: Seq<AnalysisReport>, name: Seq<char>, kind: crate::analysis::AccessKind)
    ensures
        0 <= named_sum(reports, name, kind) <= kind_total(reports, kind),
    decreases reports.len(),
{
    if reports.len() > 0 {
        lemma_named_sum_total(reports.drop_last(), name, kind);
        lemma_named_in_total(reports.last().functions@, name, kind);
    }
}

/// The function names across the reports, in order.
fn all_function_names(reports: &[AnalysisReport]) -> (r: Vec<String>)
    ensures
        sorted_texts(texts(r@)),
        name_set(r@) == function_names(reports@),
{
    let mut names: Vec<String> = Vec::new();
    proof {
        assert(name_set(names@) =~= Set::<Seq<char>>::empty());
    }
    let mut i: usize = 0;
    while i < reports.len()
        invariant
            i <= reports.len(),
            sorted_texts(texts(names@)),
            forall|d: Seq<char>| #[trigger] name_set(names@).contains(d) <==> exists|a: int, b: int|
                0 <= a < i && 0 <= b < reports@[a].functions@.len() && (#[trigger] reports@[a].functions@[b]).function_name@ == d,
        decreases reports.len() - i,
    {
        let report = &reports[i];
        let mut j: usize = 0;
        while j < report.functions.len()
            invariant
                j <= report.functions.len(),
                i < reports.len(),
                *report == reports@[i as int],
                sorted_texts(texts(names@)),
                forall|d: Seq<char>| #[trigger] name_set(names@).contains(d) <==> (exists|a: int, b: int|
                    0 <= a < i && 0 <= b < reports@[a].functions@.len() && (#[trigger] reports@[a].functions@[b]).function_name@ == d)
                    || (exists|b: int| 0 <= b < j && (#[trigger] report.functions@[b]).function_name@ == d),
            decreases report.functions.len() - j,
        {
            let ghost before = name_set(names@);
            insert_name(&mut names, report.functions[j].function_name.as_str());
            proof {
                assert forall|d: Seq<char>| #[trigger] name_set(names@).contains(d) <==> (exists|a: int, b: int|
                    0 <= a < i && 0 <= b < reports@[a].functions@.len() && (#[trigger] reports@[a].functions@[b]).function_name@ == d)
                    || (exists|b: int| 0 <= b < j + 1 && (#[trigger] report.functions@[b]).function_name@ == d) by {
                    if d == report.functions@[j as int].function_name@ {
                        assert(report.functions@[j as int].function_name@ == d);
                    }
                    if exists|b: int| 0 <= b < j + 1 && (#[trigger] report.functions@[b]).function_name@ == d {
                        let b = choose|b: int| 0 <= b < j + 1 && (#[trigger] report.functions@[b]).function_name@ == d;
                        if b < j {
                            assert(before.contains(d));
                        }
                    }
                }
            }
            j = j + 1;
        }
        proof {
            assert forall|d: Seq<char>| #[trigger] name_set(names@).contains(d) <==> exists|a: int, b: int|
                0 <= a < i + 1 && 0 <= b < reports@[a].functions@.len() && (#[trigger] reports@[a].functions@[b]).function_name@ == d by {
                if exists|b: int| 0 <= b < report.functions@.len() && (#[trigger] report.functions@[b]).function_name@ == d {
                    let b = choose|b: int| 0 <= b < report.functions@.len() && (#[trigger] report.functions@[b]).function_name@ == d;
                    assert(reports@[i as int].functions@[b].function_name@ == d);
                }
                if exists|a: int, b: int|
                    0 <= a < i + 1 && 0 <= b < reports@[a].functions@.len() && (#[trigger] reports@[a].functions@[b]).function_name@ == d {
                    let (a, b) = choose|a: int, b: int|
                        0 <= a < i + 1 && 0 <= b < reports@[a].functions@.len() && (#[trigger] reports@[a].functions@[b]).function_name@ == d;
                    if a == i {
                        assert(report.functions@[b].function_name@ == d);
                    }
                }
            }
        }
        i = i + 1;
    }
    proof {
        assert(name_set(names@) =~= function_names(reports@));
    }
    names
}

/// The own keys accessed with `kind` by the functions named `name` across
/// the reports.
fn named_count(reports: &[AnalysisReport], name: &str, kind: crate::analysis::AccessKind) -> (r: usize)
    requires
        kind_total(reports@, kind) <= usize::MAX,
    ensures
        r == named_sum(reports@, name@, kind),
{
    let mut total: usize = 0;
    let mut i: usize = 0;
    while i < reports.len()
        invariant
            i <= reports.len(),
            kind_total(reports@, kind) <= usize::MAX,
            total == named_sum(reports@.take(i as int), name@, kind),
        decreases reports.len() - i,
    {
        let report = &reports[i];
        let mut n: usize = 0;
        let mut j: usize = 0;
        proof {
            lemma_named_sum(reports@, name@, kind, i as int);
            lemma_named_sum(reports@, name@, kind, i + 1);
        }
        while j < report.functions.len()
            invariant
                j <= report.functions.len(),
                i < reports.len(),
                *report == reports@[i as int],
                named_in(report.functions@, name@, kind) <= usize::MAX,
                n == named_in(report.functions@.take(j as int), name@, kind),
            decreases report.functions.len() - j,
        {
            proof {
                lemma_named_in(report.functions@, name@, kind, j as int);
                lemma_named_in(report.functions@, name@, kind, j + 1);
            }
            if same_text(report.functions[j].function_name.as_str(), name) {
                let len = match kind {
                    crate::analysis::AccessKind::Read => report.functions[j].storage_reads.len(),
                    crate::analysis::AccessKind::Write => report.functions[j].storage_writes.len(),
                };
                n = n + len;
            }
            j = j + 1;
        }
        proof {
            assert(report.functions@.take(report.functions@.len() as int) =~= report.functions@);
        }
        total = total + n;
        i = i + 1;
    }
    proof {
        assert(reports@.take(reports@.len() as int) =~= reports@);
    }
    total
}

/// Per function name across the reports, in name order: the own reads and
/// writes of the functions with that name.
pub fn per_function_metrics(reports: &[AnalysisReport]) -> (r: Vec<(String, usize, usize)>)
    requires
        kind_total(reports@, crate::analysis::AccessKind::Read) <= usize::MAX,
        kind_total(reports@, crate::analysis::AccessKind::Write) <= usize::MAX,
    ensures
        sorted_texts(metric_names(r@)),
        metric_names(r@).to_set() == function_names(reports@),
        forall|k: int|
            0 <= k < r@.len() ==> (#[trigger] r@[k]).1 == named_sum(reports@, r@[k].0@, crate::analysis::AccessKind::Read)
                && r@[k].2 == named_sum(reports@, r@[k].0@, crate::analysis::AccessKind::Write),
{
    let names = all_function_names(reports);
    let mut out: Vec<(String, usize, usize)> = Vec::new();
    let mut k: usize = 0;
    while k < names.len()
        invariant
            k <= names.len(),
            kind_total(reports@, crate::analysis::AccessKind::Read) <= usize::MAX,
            kind_total(reports@, crate::analysis::AccessKind::Write) <= usize::MAX,
            out@.len() == k,
            forall|x: int|
                0 <= x < k ==> (#[trigger] out@[x]).0@ == names@[x]@ && out@[x].1 == named_sum(reports@, names@[x]@, crate::analysis::AccessKind::Read)
                    && out@[x].2 == named_sum(reports@, names@[x]@, crate::analysis::AccessKind::Write),
        decreases names.len() - k,
    {
        let r = named_count(reports, names[k].as_str(), crate::analysis::AccessKind::Read);
        let w = named_count(reports, names[k].as_str(), crate::analysis::AccessKind::Write);
        out.push((names[k].clone(), r, w));
        k = k + 1;
    }
    proof {
        assert(metric_names(out@) =~= texts(names@));
    }
    out
}

/// The reads and writes of `name` in a metric list: the first entry with
/// that name, or zero.
pub open spec fn metric_of(m: Seq<(String, usize, usize)>, name: Seq<char>) -> (int, int)
    decreases m.len(),
{
    if m.len() == 0 {
        (0, 0)
    } else if m[0].0@ == name {
        (m[0].1 as int, m[0].2 as int)
    } else {
        metric_of(m.drop_first(), name)
    }
}

fn lookup_metric(m: &Vec<(String, usize, usize)>, name: &str) -> (r: (usize, usize))
    ensures
        (r.0 as int, r.1 as int) == metric_of(m@, name@),
{
    let mut i: usize = 0;
    assert(m@.skip(0) =~= m@);
    while i < m.len()
        invariant
            i <= m.len(),
            metric_of(m@, name@) == metric_of(m@.skip(i as int), name@),
        decreases m.len() - i,
    {
        proof {
            assert(m@.skip(i as int).drop_first() =~= m@.skip(i + 1));
        }
        if same_text(m[i].0.as_str(), name) {
            return (m[i].1, m[i].2);
        }
        i = i + 1;
    }
    (0, 0)
}

/// Every count of a metric list fits an `i64`.
pub open spec fn metrics_fit_i64(m: Seq<(String, usize, usize)>) -> bool {
    forall|k: int| 0 <= k < m.len() ==> (#[trigger] m[k]).1 <= i64::MAX && m[k].2 <= i64::MAX
}

proof fn lemma_metric_of_bound(m: Seq<(String, usize, usize)>, name: Seq<char>)
    requires
        metrics_fit_i64(m),
    ensures
        0 <= metric_of(m, name).0 <= i64::MAX,
        0 <= metric_of(m, name).1 <= i64::MAX,
    decreases m.len(),
{
    if m.len() > 0 && m[0].0@ != name {
        assert forall|k: int| 0 <= k < m.drop_first().len() implies (#[trigger] m.drop_first()[k]).1 <= i64::MAX && m.drop_first()[k].2 <= i64::MAX by {
            assert(m.drop_first()[k] == m[k + 1]);
        }
        lemma_metric_of_bound(m.drop_first(), name);
    }
}

/// The change in reads and writes per function name of either side, in name
/// order: right minus left, a missing name counting zero.
pub fn function_deltas(left: &Vec<(String, usize, usize)>, right: &Vec<(String, usize, usize)>) -> (r: Vec<(String, i64, i64)>)
    requires
        metrics_fit_i64(left@),
        metrics_fit_i64(right@),
    ensures
        sorted_texts(r@.map_values(|e: (String, i64, i64)| e.0@)),
        r@.map_values(|e: (String, i64, i64)| e.0@).to_set() == metric_names(left@).to_set().union(metric_names(right@).to_set()),
        forall|k: int|
            0 <= k < r@.len() ==> (#[trigger] r@[k]).1 == metric_of(right@, r@[k].0@).0 - metric_of(left@, r@[k].0@).0
                && r@[k].2 == metric_of(right@, r@[k].0@).1 - metric_of(left@, r@[k].0@).1,
{
    let mut la: Vec<String> = Vec::new();
    let mut i: usize = 0;
    while i < left.len()
        invariant
            i <= left.len(),
            texts(la@) == metric_names(left@.take(i as int)),
        decreases left.len() - i,
    {
        let ghost pre = la@;
        let nm = left[i].0.clone();
        la.push(nm);
        proof {
            assert(la@ =~= pre.push(nm));
            assert(texts(la@) =~= texts(pre).push(nm@));
            assert(left@.take(i + 1) =~= left@.take(i as int).push(left@[i as int]));
            assert(metric_names(left@.take(i + 1)) =~= metric_names(left@.take(i as int)).push(left@[i as int].0@));
        }
        i = i + 1;
    }
    let mut ra: Vec<String> = Vec::new();
    let mut j: usize = 0;
    while j < right.len()
        invariant
            j <= right.len(),
            texts(ra@) == metric_names(right@.take(j as int)),
        decreases right.len() - j,
    {
        let ghost pre = ra@;
        let nm = right[j].0.clone();
        ra.push(nm);
        proof {
            assert(ra@ =~= pre.push(nm));
            assert(texts(ra@) =~= texts(pre).push(nm@));
            assert(right@.take(j + 1) =~= right@.take(j as int).push(right@[j as int]));
            assert(metric_names(right@.take(j + 1)) =~= metric_names(right@.take(j as int)).push(right@[j as int].0@));
        }
        j = j + 1;
    }
    proof {
        assert(left@.take(left@.len() as int) =~= left@);
        assert(right@.take(right@.len() as int) =~= right@);
    }
    let names = union_names(&la, &ra);
    let mut out: Vec<(String, i64, i64)> = Vec::new();
    let mut k: usize = 0;
    while k < names.len()
        invariant
            k <= names.len(),
            metrics_fit_i64(left@),
            metrics_fit_i64(right@),
            out@.len() == k,
            forall|x: int|
                0 <= x < k ==> (#[trigger] out@[x]).0@ == names@[x]@ && out@[x].1 == metric_of(right@, names@[x]@).0 - metric_of(left@, names@[x]@).0
                    && out@[x].2 == metric_of(right@, names@[x]@).1 - metric_of(left@, names@[x]@).1,
        decreases names.len() - k,
    {
        let l = lookup_metric(left, names[k].as_str());
        let r = lookup_metric(right, names[k].as_str());
        proof {
            lemma_metric_of_bound(left@, names@[k as int]@);
            lemma_metric_of_bound(right@, names@[k as int]@);
        }
        out.push((names[k].clone(), r.0 as i64 - l.0 as i64, r.1 as i64 - l.1 as i64));
        k = k + 1;
    }
    proof {
        assert(out@.map_values(|e: (String, i64, i64)| e.0@) =~= texts(names@));
        assert(name_set(la@) == metric_names(left@).to_set());
        assert(name_set(ra@) == metric_names(right@).to_set());
    }
    out
}

/// The sorted union of two name lists.
fn union_names(a: &Vec<String>, b: &Vec<String>) -> (r: Vec<String>)
    ensures
        sorted_texts(texts(r@)),
        name_set(r@) == name_set(a@).union(name_set(b@)),
{
    let mut names: Vec<String> = Vec::new();
    proof {
        assert(name_set(names@) =~= name_set(a@.take(0)));
    }
    let mut i: usize = 0;
    while i < a.len()
        invariant
            i <= a.len(),
            sorted_texts(texts(names@)),
            name_set(names@) == name_set(a@.take(i as int)),
        decreases a.len() - i,
    {
        insert_name(&mut names, a[i].as_str());
        proof {
            assert(texts(a@.take(i + 1)) =~= texts(a@.take(i as int)).push(a@[i as int]@));
            lemma_push_to_set(texts(a@.take(i as int)), a@[i as int]@);
        }
        i = i + 1;
    }
    proof {
        assert(a@.take(a@.len() as int) =~= a@);
        assert(name_set(names@) =~= name_set(a@).union(name_set(b@.take(0))));
    }
    let mut j: usize = 0;
    while j < b.len()
        invariant
            j <= b.len(),
            sorted_texts(texts(names@)),
            name_set(names@) == name_set(a@).union(name_set(b@.take(j as int))),
        decreases b.len() - j,
    {
        insert_name(&mut names, b[j].as_str());
        proof {
            assert(texts(b@.take(j + 1)) =~= texts(b@.take(j as int)).push(b@[j as int]@));
            lemma_push_to_set(texts(b@.take(j as int)), b@[j as int]@);
            assert(name_set(names@) =~= name_set(a@).union(name_set(b@.take(j + 1))));
        }
        j = j + 1;
    }
    proof {
        assert(b@.take(b@.len() as int) =~= b@);
    }
    names
}

/// Pushing an element adds it to the set.
proof fn lemma_push_to_set(s: Seq<Seq<char>>, x: Seq<char>)
    ensures
        s.push(x).to_set() == s.to_set().insert(x),
{
    assert forall|m: Seq<char>| s.push(x).to_set().contains(m) <==> s.to_set().insert(x).contains(m) by {
        if s.push(x).to_set().contains(m) {
            let p = choose|p: int| 0 <= p < s.push(x).len() && s.push(x)[p] == m;
            if p < s.len() {
                assert(s[p] == m);
            }
        }
        if s.to_set().contains(m) {
            let p = choose|p: int| 0 <= p < s.len() && s[p] == m;
            assert(s.push(x)[p] == m);
        }
        if m == x {
            assert(s.push(x)[s.len() as int] == m);
        }
    }
    assert(s.push(x).to_set() =~= s.to_set().insert(x));
}

/// The summary of a diff from `left` to `right`: the change in detector
/// findings, in storage reads and in storage writes.
pub fn summary_deltas(left: &Totals, right: &Totals) -> (r: (i64, i64, i64))
    requires
        count_sum(left.detectors@) <= usize::MAX,
        count_sum(right.detectors@) <= usize::MAX,
        count_sum(left.detectors@) <= i64::MAX,
        count_sum(right.detectors@) <= i64::MAX,
        left.reads <= i64::MAX,
        right.reads <= i64::MAX,
        left.writes <= i64::MAX,
        right.writes <= i64::MAX,
    ensures
        r.0 == count_sum(right.detectors@) - count_sum(left.detectors@),
        r.1 == right.reads - left.reads,
        r.2 == right.writes - left.writes,
{
    let lf = sum_counts(&left.detectors) as i64;
    let rf = sum_counts(&right.detectors) as i64;
    (rf - lf, right.reads as i64 - left.reads as i64, right.writes as i64 - left.writes as i64)
}


} // verus!
