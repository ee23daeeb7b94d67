use crate::order::{lemma_path_lt_facts, path_lt, str_lt};
use vstd::seq_lib::{to_multiset_contains, to_multiset_len, to_multiset_remove};
use vstd::prelude::*;

verus! {

/// Why one fetch failed.
#[derive(Clone, Copy, Debug, PartialEq, Eq, Structural)]
pub enum FetchError {
    /// The request did not complete, or the server answered with an error status.
    Transport,
    /// The response body was not a non-negative integer.
    Decode,
}

/// The first failed fetch of a batch: its position among the outcomes, and why.
#[derive(Clone, Copy, Debug, PartialEq, Eq, Structural)]
pub struct FailedFetch {
    pub index: usize,
    pub error: FetchError,
}

/// The result of fetching one key.
pub struct FetchOutcome {
    pub key: String,
    pub result: Result<usize, FetchError>,
}

/// One row of the exported table.
pub struct ExportRecord {
    pub path: String,
    pub views: usize,
}

impl View for ExportRecord {
    type V = (Seq<char>, usize);

    open spec fn view(&self) -> (Seq<char>, usize) {
        (self.path@, self.views)
    }
}

/// The records as `(path, views)` pairs.
pub open spec fn records_view(s: Seq<ExportRecord>) -> Seq<(Seq<char>, usize)> {
    s.map_values(|r: ExportRecord| r@)
}

/// The record that a successful outcome yields.
pub open spec fn outcome_record(o: FetchOutcome) -> (Seq<char>, usize) {
    (o.key@, o.result->Ok_0)
}

pub open spec fn outcome_records(s: Seq<FetchOutcome>) -> Seq<(Seq<char>, usize)> {
    s.map_values(|o: FetchOutcome| outcome_record(o))
}

/// Records in ascending order of path (equal paths may stand side by side).
pub open spec fn sorted_by_path(s: Seq<(Seq<char>, usize)>) -> bool {
    forall|i: int, j: int| 0 <= i < j < s.len() ==> !path_lt(#[trigger] s[j].0, #[trigger] s[i].0)
}

/// Records in strictly ascending order of path.
pub open spec fn strictly_sorted_by_path(s: Seq<(Seq<char>, usize)>) -> bool {
    forall|i: int, j: int| 0 <= i < j < s.len() ==> path_lt(#[trigger] s[i].0, #[trigger] s[j].0)
}

/// No path occurs twice.
pub open spec fn distinct_paths(s: Seq<(Seq<char>, usize)>) -> bool {
    forall|i: int, j: int| 0 <= i < j < s.len() ==> #[trigger] s[i].0 != #[trigger] s[j].0
}

/// Whether some outcome is a failure.
pub open spec fn has_failure(s: Seq<FetchOutcome>) -> bool {
    exists|i: int| 0 <= i < s.len() && (#[trigger] s[i]).result is Err
}

/// Whether the outcome at `i` is the first failure.
pub open spec fn is_first_failure(s: Seq<FetchOutcome>, i: int) -> bool {
    &&& 0 <= i < s.len()
    &&& s[i].result is Err
    &&& forall|j: int| 0 <= j < i ==> (#[trigger] s[j]).result is Ok
}

/// Position of the first record whose path comes after `path`, or the length.
fn insertion_point(out: &Vec<ExportRecord>, path: &str) -> (p: usize)
    requires
        sorted_by_path(records_view(out@)),
    ensures
        p <= out.len(),
        forall|k: int| 0 <= k < p ==> !path_lt(path@, #[trigger] out@[k].path@),
        p < out.len() ==> path_lt(path@, out@[p as int].path@),
{
    let mut p: usize = 0;
    while p < out.len()
        invariant
            p <= out.len(),
            forall|k: int| 0 <= k < p ==> !path_lt(path@, #[trigger] out@[k].path@),
        decreases out.len() - p,
    {
        if str_lt(path, out[p].path.as_str()) {
            return p;
        }
        p = p + 1;
    }
    p
}

proof fn lemma_insert_sorted(s: Seq<(Seq<char>, usize)>, p: int, x: (Seq<char>, usize))
    requires
        sorted_by_path(s),
        0 <= p <= s.len(),
        forall|k: int| 0 <= k < p ==> !path_lt(x.0, #[trigger] s[k].0),
        p < s.len() ==> path_lt(x.0, s[p].0),
    ensures
        sorted_by_path(s.insert(p, x)),
{
    let t = s.insert(p, x);
    assert forall|i: int, j: int| 0 <= i < j < t.len() implies !path_lt(
        #[trigger] t[j].0,
        #[trigger] t[i].0,
    ) by {
        if i == p {
            // t[j] == s[j - 1], which does not come before s[p]
            let b = s[j - 1].0;
            lemma_path_lt_facts(x.0, s[p].0, b);
            lemma_path_lt_facts(s[p].0, b, x.0);
            lemma_path_lt_facts(b, x.0, s[p].0);
            if j - 1 > p {
                assert(!path_lt(s[j - 1].0, s[p].0));
            }
        } else if j == p {
            assert(t[i] == s[i]);
        } else if i < p && j > p {
            assert(t[j] == s[j - 1]);
            assert(t[i] == s[i]);
        }
    }
}

/// Records in ascending order of path with no path twice are in strictly
/// ascending order of path.
pub proof fn lemma_distinct_sorted_is_strict(s: Seq<(Seq<char>, usize)>)
    requires
        sorted_by_path(s),
        distinct_paths(s),
    ensures
        strictly_sorted_by_path(s),
{
    assert forall|i: int, j: int| 0 <= i < j < s.len() implies path_lt(
        #[trigger] s[i].0,
        #[trigger] s[j].0,
    ) by {
        lemma_path_lt_facts(s[i].0, s[j].0, s[j].0);
    }
}

/// The order of the records does not depend on the order in which they were
/// gathered: two sequences of the same records, both in ascending order of
/// path and with no path twice, are the same sequence.
pub proof fn lemma_sorted_records_unique(a: Seq<(Seq<char>, usize)>, b: Seq<(Seq<char>, usize)>)
    requires
        sorted_by_path(a),
        sorted_by_path(b),
        distinct_paths(a),
        a.to_multiset() == b.to_multiset(),
    ensures
        a == b,
    decreases a.len(),
{
    to_multiset_len(a);
    to_multiset_len(b);
    if a.len() == 0 {
        assert(a =~= b);
    } else {
        to_multiset_contains(a, a[0]);
        to_multiset_contains(b, a[0]);
        to_multiset_contains(a, b[0]);
        to_multiset_contains(b, b[0]);
        assert(a.contains(a[0]));
        assert(b.contains(b[0]));
        let j = choose|j: int| 0 <= j < b.len() && b[j] == a[0];
        let k = choose|k: int| 0 <= k < a.len() && a[k] == b[0];
        if j > 0 {
            assert(!path_lt(b[j].0, b[0].0));
        }
        if k > 0 {
            assert(!path_lt(a[k].0, a[0].0));
        }
        lemma_path_lt_facts(a[0].0, b[0].0, a[0].0);
        if k > 0 {
            assert(a[0].0 != a[k].0);
        }
        assert(a[0] == b[0]);
        to_multiset_remove(a, 0);
        to_multiset_remove(b, 0);
        assert(a.remove(0) =~= a.drop_first());
        assert(b.remove(0) =~= b.drop_first());
        let ta = a.drop_first();
        let tb = b.drop_first();
        assert forall|i: int, l: int| 0 <= i < l < ta.len() implies !path_lt(
            #[trigger] ta[l].0,
            #[trigger] ta[i].0,
        ) by {
            assert(ta[l] == a[l + 1] && ta[i] == a[i + 1]);
        }
        assert forall|i: int, l: int| 0 <= i < l < tb.len() implies !path_lt(
            #[trigger] tb[l].0,
            #[trigger] tb[i].0,
        ) by {
            assert(tb[l] == b[l + 1] && tb[i] == b[i + 1]);
        }
        assert forall|i: int, l: int| 0 <= i < l < ta.len() implies #[trigger] ta[i].0
            != #[trigger] ta[l].0 by {
            assert(ta[l] == a[l + 1] && ta[i] == a[i + 1]);
        }
        lemma_sorted_records_unique(ta, tb);
        assert forall|i: int| 0 < i < a.len() implies a[i] == b[i] by {
            assert(a[i] == ta[i - 1] && b[i] == tb[i - 1]);
        }
        assert(a =~= b);
    }
}

/// Assembles the outcomes of a batch of fetches into the exported records.
///
/// A batch is all or nothing: if any fetch failed, the first failure (in the
/// order of `outcomes`) is returned and no record. Otherwise there is one
/// record per outcome, the same records whatever their order in `outcomes`,
/// in ascending order of path.
pub fn collect_records(outcomes: &Vec<FetchOutcome>) -> (r: Result<Vec<ExportRecord>, FailedFetch>)
    ensures
        r is Err <==> has_failure(outcomes@),
        r matches Err(f) ==> is_first_failure(outcomes@, f.index as int) && outcomes@[f.index as int].result
            == Err::<usize, FetchError>(f.error),
        r matches Ok(recs) ==> {
            &&& recs.len() == outcomes.len()
            &&& records_view(recs@).to_multiset() == outcome_records(outcomes@).to_multiset()
            &&& sorted_by_path(records_view(recs@))
        },
{
    let mut i: usize = 0;
    while i < outcomes.len()
        invariant
            i <= outcomes.len(),
            forall|j: int| 0 <= j < i ==> (#[trigger] outcomes@[j]).result is Ok,
        decreases outcomes.len() - i,
    {
        match &outcomes[i].result {
            Err(e) => {
                return Err(FailedFetch { index: i, error: *e });
            },
            Ok(_) => {},
        }
        i = i + 1;
    }
    let mut out: Vec<ExportRecord> = Vec::new();
    let mut i: usize = 0;
    assert(records_view(out@) =~= outcome_records(outcomes@.take(0)));
    while i < outcomes.len()
        invariant
            i <= outcomes.len(),
            forall|j: int| 0 <= j < outcomes.len() ==> (#[trigger] outcomes@[j]).result is Ok,
            out.len() == i,
            records_view(out@).to_multiset() == outcome_records(outcomes@.take(i as int)).to_multiset(),
            sorted_by_path(records_view(out@)),
        decreases outcomes.len() - i,
    {
        let o = &outcomes[i];
        let views = match &o.result {
            Ok(v) => *v,
            Err(_) => 0,
        };
        let p = insertion_point(&out, o.key.as_str());
        let rec = ExportRecord { path: o.key.clone(), views };
        proof {
            let s = records_view(out@);
            lemma_insert_sorted(s, p as int, rec@);
            vstd::seq_lib::to_multiset_insert(s, p as int, rec@);
            assert(outcomes@.take(i + 1) =~= outcomes@.take(i as int).push(outcomes@[i as int]));
            assert(outcome_records(outcomes@.take(i + 1)) =~= outcome_records(
                outcomes@.take(i as int),
            ).push(rec@));
            vstd::seq_lib::to_multiset_build(outcome_records(outcomes@.take(i as int)), rec@);
        }
        let ghost before = records_view(out@);
        let ghost r = rec@;
        out.insert(p, rec);
        assert(records_view(out@) =~= before.insert(p as int, r));
        i = i + 1;
    }
    assert(outcomes@.take(outcomes.len() as int) =~= outcomes@);
    Ok(out)
}

} // verus!
