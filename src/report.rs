//! The ordered, rendered report.
use vstd::prelude::*;
use crate::table::{entry_views, SizeEntry};

verus! {

/// Width of the size column: a size is padded with spaces up to it.
pub const SIZE_COLUMN: usize = 10;

/// Text that `bytesize` gives for `n` bytes in power-of-two units.
pub uninterp spec fn byte_size_text(n: int) -> Seq<char>;

pub open spec fn digit_char(d: int) -> char {
    seq!['0', '1', '2', '3', '4', '5', '6', '7', '8', '9'][d]
}

/// The decimal digits of `n`, without leading zeros.
pub open spec fn decimal_text(n: nat) -> Seq<char>
    decreases n,
{
    if n < 10 {
        seq![digit_char(n as int)]
    } else {
        decimal_text(n / 10).push(digit_char((n % 10) as int))
    }
}

/// Relies on bytesize::to_string with binary units: the text depends on
/// the number alone, and below one kibibyte it is the number of bytes
/// followed by " B".
#[verifier::external_body]
fn human_size(n: u64) -> (r: String)
    ensures
        r@ == byte_size_text(n as int),
        n < 1024 ==> r@ == decimal_text(n as nat) + " B"@,
{
    bytesize::to_string(n, true)
}

/// `s` padded on the right with spaces up to `width` characters.
pub open spec fn pad_to(s: Seq<char>, width: int) -> Seq<char> {
    if s.len() >= width {
        s
    } else {
        s + Seq::new((width - s.len()) as nat, |i: int| ' ')
    }
}

/// One report line: the size text in its column, then the key.
pub open spec fn line_text(size_text: Seq<char>, key: Seq<char>) -> Seq<char> {
    pad_to(size_text, SIZE_COLUMN as int) + key
}

/// Lays out one report line from a rendered size and a key.
pub fn layout_line(size_text: &str, key: &str) -> (r: String)
    ensures
        r@ == line_text(size_text@, key@),
{
    let mut r = size_text.to_owned();
    let mut n = size_text.unicode_len();
    while n < SIZE_COLUMN
        invariant
            n <= SIZE_COLUMN || n == size_text@.len(),
            n >= size_text@.len(),
            r@ == size_text@ + Seq::new((n - size_text@.len()) as nat, |i: int| ' '),
        decreases SIZE_COLUMN - n,
    {
        let ghost before = r@;
        r.append(" ");
        proof {
            reveal_strlit(" ");
            assert(r@ =~= before.push(' '));
        }
        n = n + 1;
        assert(r@ =~= size_text@ + Seq::new((n - size_text@.len()) as nat, |i: int| ' '));
    }
    assert(pad_to(size_text@, SIZE_COLUMN as int) =~= size_text@ + Seq::new(
        (n - size_text@.len()) as nat,
        |i: int| ' ',
    ));
    r.append(key);
    r
}

/// Renders one entry of the report.
pub fn render_line(e: &SizeEntry) -> (r: String)
    ensures
        r@ == line_text(byte_size_text(e.size as int), e.key@),
{
    let size_text = human_size(e.size);
    layout_line(size_text.as_str(), e.key.as_str())
}

/// The report: one line per entry, by ascending size, entries of equal
/// size in their given order.
pub fn render_report(totals: &Vec<SizeEntry>) -> (r: Vec<String>)
    ensures
        r@.len() == totals@.len(),
        forall|i: int|
            0 <= i < r@.len() ==> (#[trigger] r@[i])@ == line_text(
                byte_size_text(sort_by_size(entry_views(totals@))[i].1),
                sort_by_size(entry_views(totals@))[i].0,
            ),
{
    let sorted = sort_entries(totals);
    proof {
        lemma_sort_by_size(entry_views(totals@));
    }
    let mut r: Vec<String> = Vec::new();
    let mut i: usize = 0;
    while i < sorted.len()
        invariant
            i <= sorted@.len(),
            r@.len() == i,
            entry_views(sorted@) == sort_by_size(entry_views(totals@)),
            forall|j: int|
                0 <= j < i ==> (#[trigger] r@[j])@ == line_text(
                    byte_size_text(sorted@[j].size as int),
                    sorted@[j].key@,
                ),
        decreases sorted@.len() - i,
    {
        r.push(render_line(&sorted[i]));
        i = i + 1;
    }
    assert forall|j: int| 0 <= j < r@.len() implies (#[trigger] r@[j])@ == line_text(
        byte_size_text(sort_by_size(entry_views(totals@))[j].1),
        sort_by_size(entry_views(totals@))[j].0,
    ) by {
        assert(entry_views(sorted@)[j] == sorted@[j]@);
    }
    r
}

/// Where `x` goes in `s` so that it follows every entry of size at most
/// its own: after the last such entry when `s` is ordered by size.
pub open spec fn insert_pos(s: Seq<(Seq<char>, int)>, x: (Seq<char>, int)) -> int
    decreases s.len(),
{
    if s.len() == 0 {
        0
    } else if s.last().1 <= x.1 {
        s.len() as int
    } else {
        insert_pos(s.drop_last(), x)
    }
}

/// `s` ordered by ascending size; entries of equal size keep their order.
pub open spec fn sort_by_size(s: Seq<(Seq<char>, int)>) -> Seq<(Seq<char>, int)>
    decreases s.len(),
{
    if s.len() == 0 {
        s
    } else {
        let r = sort_by_size(s.drop_last());
        r.insert(insert_pos(r, s.last()), s.last())
    }
}

pub open spec fn is_sorted_by_size(s: Seq<(Seq<char>, int)>) -> bool {
    forall|i: int, j: int| 0 <= i < j < s.len() ==> s[i].1 <= s[j].1
}

proof fn lemma_insert_pos(s: Seq<(Seq<char>, int)>, x: (Seq<char>, int))
    requires
        is_sorted_by_size(s),
    ensures
        0 <= insert_pos(s, x) <= s.len(),
        forall|i: int| 0 <= i < insert_pos(s, x) ==> s[i].1 <= x.1,
        forall|i: int| insert_pos(s, x) <= i < s.len() ==> s[i].1 > x.1,
    decreases s.len(),
{
    if s.len() > 0 {
        let d = s.drop_last();
        assert forall|i: int| 0 <= i < d.len() implies d[i] == s[i] by {}
        if s.last().1 > x.1 {
            lemma_insert_pos(d, x);
        } else {
            assert forall|i: int| 0 <= i < s.len() implies s[i].1 <= x.1 by {
                if i < s.len() - 1 {
                    assert(s[i].1 <= s[s.len() - 1].1);
                }
            }
        }
    }
}

/// A report is ordered by ascending size and holds what it was given.
pub proof fn lemma_sort_by_size(s: Seq<(Seq<char>, int)>)
    ensures
        is_sorted_by_size(sort_by_size(s)),
        sort_by_size(s).len() == s.len(),
        sort_by_size(s).to_multiset() == s.to_multiset(),
    decreases s.len(),
{
    if s.len() > 0 {
        let r = sort_by_size(s.drop_last());
        lemma_sort_by_size(s.drop_last());
        lemma_insert_pos(r, s.last());
        let p = insert_pos(r, s.last());
        let u = r.insert(p, s.last());
        assert forall|i: int, j: int| 0 <= i < j < u.len() implies u[i].1 <= u[j].1 by {
            if j < p {
            } else if j == p {
            } else if i < p {
                assert(u[j] == r[j - 1]);
            } else if i == p {
                assert(u[j] == r[j - 1]);
            } else {
                assert(u[j] == r[j - 1]);
                assert(u[i] == r[i - 1]);
            }
        }
        vstd::seq_lib::to_multiset_insert(r, p, s.last());
        vstd::seq_lib::to_multiset_build(s.drop_last(), s.last());
        assert(s.drop_last().push(s.last()) =~= s);
    }
}

/// Orders `v` by ascending size; entries of equal size keep their order.
pub fn sort_entries(v: &Vec<SizeEntry>) -> (r: Vec<SizeEntry>)
    ensures
        entry_views(r@) == sort_by_size(entry_views(v@)),
{
    let ghost s = entry_views(v@);
    let mut r: Vec<SizeEntry> = Vec::new();
    let mut i: usize = 0;
    let n = v.len();
    while i < n
        invariant
            n == s.len(),
            i <= n,
            s == entry_views(v@),
            entry_views(r@) == sort_by_size(s.subrange(0, i as int)),
        decreases n - i,
    {
        let x = v[i].duplicate();
        assert(x@ == s[i as int]);
        let ghost rs = entry_views(r@);
        assert(s.subrange(0, i + 1).drop_last() =~= s.subrange(0, i as int));
        proof {
            lemma_sort_by_size(s.subrange(0, i as int));
            lemma_insert_pos(rs, x@);
        }
        // binary search for the first entry larger than `x`
        let mut lo: usize = 0;
        let mut hi: usize = r.len();
        while lo < hi
            invariant
                lo <= hi <= r@.len(),
                rs == entry_views(r@),
                is_sorted_by_size(rs),
                forall|k: int| 0 <= k < lo ==> (#[trigger] rs[k]).1 <= x@.1,
                forall|k: int| hi <= k < rs.len() ==> (#[trigger] rs[k]).1 > x@.1,
            decreases hi - lo,
        {
            let mid = lo + (hi - lo) / 2;
            assert(rs[mid as int] == r@[mid as int]@);
            if r[mid].size <= x.size {
                lo = mid + 1;
            } else {
                hi = mid;
            }
        }
        let j = lo;
        proof {
            let p = insert_pos(rs, x@);
            if p < j {
                assert(rs[p].1 > x@.1);
            } else if p > j {
                assert(rs[j as int].1 <= x@.1);
            }
        }
        r.insert(j, x);
        assert(entry_views(r@) =~= rs.insert(j as int, x@));
        i = i + 1;
    }
    assert(s.subrange(0, n as int) =~= s);
    r
}

} // verus!
