//! The whole run from the two collaborators' outputs to the report.
use vstd::prelude::*;
use crate::aggregate::{aggregate, orphans, totals, AggregateError};
use crate::table::{entry_views, exceeds_u64};
use crate::index::{last_pos, lemma_last_pos, KeyIndex};
use crate::text::texts;
use crate::objects::{association_map, views, Association, ParseError};
use crate::report::{byte_size_text, line_text, render_report, sort_by_size};
use crate::sizes::{parse_sizes, size_failure, size_line_spec, size_table};

verus! {

/// The identifiers to ask sizes for: each identifier of `assocs` once, in
/// order of first appearance.
pub fn requested_ids(assocs: &Vec<Association>) -> (r: Vec<String>)
    ensures
        forall|i: int, j: int| 0 <= i < j < r@.len() ==> r@[i]@ != r@[j]@,
        forall|k: Seq<char>|
            #[trigger] association_map(views(assocs@)).contains_key(k) <==> exists|i: int|
                0 <= i < r@.len() && (#[trigger] r@[i])@ == k,
{
    let ghost a = views(assocs@);
    let mut r: Vec<String> = Vec::new();
    let mut index = KeyIndex::new();
    let mut i: usize = 0;
    assert(texts(r@) =~= Seq::<Seq<char>>::empty());
    while i < assocs.len()
        invariant
            i <= assocs@.len(),
            index.wf(),
            index.keys() == texts(r@),
            a == views(assocs@),
            forall|x: int, y: int| 0 <= x < y < r@.len() ==> r@[x]@ != r@[y]@,
            forall|k: Seq<char>|
                #[trigger] association_map(a.subrange(0, i as int)).contains_key(k) <==> exists|x: int|
                    0 <= x < r@.len() && (#[trigger] r@[x])@ == k,
        decreases assocs@.len() - i,
    {
        assert(a.subrange(0, i + 1).drop_last() =~= a.subrange(0, i as int));
        assert(a[i as int] == assocs@[i as int]@);
        let id = &assocs[i].id;
        let seen = index.find_last(id).is_some();
        proof {
            lemma_last_pos(texts(r@), id@);
            if seen {
                let x = last_pos(texts(r@), id@)->Some_0;
                assert(r@[x]@ == texts(r@)[x]);
            } else {
                assert forall|x: int| 0 <= x < r@.len() implies r@[x]@ != id@ by {
                    assert(r@[x]@ == texts(r@)[x]);
                }
            }
        }
        proof {
            assert(association_map(a.subrange(0, i + 1)) == association_map(
                a.subrange(0, i as int),
            ).insert(id@, a[i as int].1));
        }
        if !seen {
            let ghost before = r@;
            index.push(id.clone());
            r.push(id.clone());
            assert(texts(r@) =~= texts(before).push(id@));
            assert forall|k: Seq<char>|
                #[trigger] association_map(a.subrange(0, i + 1)).contains_key(k) implies exists|x: int|
                    0 <= x < r@.len() && (#[trigger] r@[x])@ == k by {
                if k != id@ {
                    assert(association_map(a.subrange(0, i as int)).contains_key(k));
                    let x = choose|x: int| 0 <= x < before.len() && (#[trigger] before[x])@ == k;
                    assert(r@[x] == before[x]);
                } else {
                    assert(r@[before.len() as int]@ == k);
                }
            }
            assert forall|k: Seq<char>|
                (exists|x: int| 0 <= x < r@.len() && (#[trigger] r@[x])@ == k) implies #[trigger] association_map(
                a.subrange(0, i + 1),
            ).contains_key(k) by {
                let x = choose|x: int| 0 <= x < r@.len() && (#[trigger] r@[x])@ == k;
                if x < before.len() {
                    assert(before[x] == r@[x]);
                    assert(association_map(a.subrange(0, i as int)).contains_key(k));
                }
            }
        } else {
            assert forall|k: Seq<char>|
                #[trigger] association_map(a.subrange(0, i + 1)).contains_key(k) <==> exists|x: int|
                    0 <= x < r@.len() && (#[trigger] r@[x])@ == k by {
                assert(association_map(a.subrange(0, i as int)).contains_key(k) <==> exists|x: int|
                    0 <= x < r@.len() && (#[trigger] r@[x])@ == k);
            }
        }
        i = i + 1;
    }
    assert(a.subrange(0, assocs@.len() as int) =~= a);
    r
}

/// What can stop a run once the history is read.
#[derive(Debug, PartialEq, Eq, Structural)]
pub enum ReportError {
    /// The size lookup's output cannot be read.
    Parse(ParseError),
    /// A total does not fit in 64 bits.
    SizeOverflow,
}

/// The report and the paths left out of it for want of a directory.
pub struct Report {
    pub lines: Vec<String>,
    pub orphans: Vec<String>,
}

/// The lines of the report for the associations `assocs`, the size lookup
/// output `size_lines` and the aggregation mode.
pub open spec fn report_text(
    assocs: Seq<(Seq<char>, Seq<char>)>,
    size_lines: Seq<Seq<char>>,
    directories: bool,
) -> Seq<Seq<char>> {
    let sorted = sort_by_size(totals(association_map(assocs), size_table(size_lines), directories));
    Seq::new(sorted.len(), |i: int| line_text(byte_size_text(sorted[i].1), sorted[i].0))
}

/// The report depends on the collaborators' outputs and the mode alone: two
/// runs over the same repository give the same lines.
pub proof fn lemma_report_idempotent(
    assocs1: Seq<(Seq<char>, Seq<char>)>,
    assocs2: Seq<(Seq<char>, Seq<char>)>,
    size_lines1: Seq<Seq<char>>,
    size_lines2: Seq<Seq<char>>,
    directories: bool,
)
    requires
        assocs1 == assocs2,
        size_lines1 == size_lines2,
    ensures
        report_text(assocs1, size_lines1, directories) == report_text(
            assocs2,
            size_lines2,
            directories,
        ),
{
}

/// Reads the size lookup's output, sums per key and renders the report.
pub fn build_report(assocs: &Vec<Association>, size_lines: &Vec<String>, directories: bool) -> (r:
    Result<Report, ReportError>)
    ensures
        r matches Err(ReportError::Parse(_)) <==> exists|i: int|
            0 <= i < size_lines@.len() && size_line_spec(#[trigger] size_lines@[i]@) is Err,
        r matches Err(ReportError::Parse(e)) ==> size_failure(size_lines@, e),
        r matches Err(ReportError::SizeOverflow) <==> (forall|i: int|
            0 <= i < size_lines@.len() ==> size_line_spec(#[trigger] size_lines@[i]@) is Ok)
            && exceeds_u64(
            totals(association_map(views(assocs@)), size_table(texts(size_lines@)), directories),
        ),
        r matches Ok(rep) ==> texts(rep.lines@) == report_text(
            views(assocs@),
            texts(size_lines@),
            directories,
        ),
        r matches Ok(rep) ==> texts(rep.orphans@) == orphans(
            association_map(views(assocs@)),
            size_table(texts(size_lines@)),
            directories,
        ),
{
    let sizes = match parse_sizes(size_lines) {
        Ok(s) => s,
        Err(e) => {
            return Err(ReportError::Parse(e));
        },
    };
    let agg = match aggregate(assocs, &sizes, directories) {
        Ok(a) => a,
        Err(AggregateError::SizeOverflow) => {
            return Err(ReportError::SizeOverflow);
        },
    };
    let lines = render_report(&agg.totals);
    proof {
        crate::report::lemma_sort_by_size(entry_views(agg.totals@));
    }
    assert(texts(lines@) =~= report_text(views(assocs@), texts(size_lines@), directories));
    Ok(Report { lines, orphans: agg.orphans })
}

/// The warning for a file whose size is left out because it has no parent
/// directory.
pub fn orphan_warning(path: &String) -> (r: String)
    ensures
        r@ == "File has no parent directory: "@ + path@,
{
    let mut r = "File has no parent directory: ".to_owned();
    r.append(path.as_str());
    r
}

} // verus!
