//! The on-disk size of each object, as answered by
//! `git cat-file --batch-check='%(objectname) %(objecttype) %(objectsize:disk)'`.
use vstd::prelude::*;
use crate::objects::ParseError;
use crate::index::KeyIndex;
use crate::table::{
    distinct_keys, entry_views, key_seq, lemma_find_key, lemma_find_key_last_pos,
    lemma_upsert_distinct, upsert, SizeEntry,
};
use crate::text::{find_first, first_index, split_once, texts};

verus! {

pub open spec fn is_digit(c: char) -> bool {
    '0' <= c && c <= '9'
}

/// `s` is a non-empty run of decimal digits.
pub open spec fn is_decimal(s: Seq<char>) -> bool {
    s.len() > 0 && forall|i: int| 0 <= i < s.len() ==> is_digit(#[trigger] s[i])
}

/// The number that the decimal digits `s` write.
pub open spec fn decimal_value(s: Seq<char>) -> int
    decreases s.len(),
{
    if s.len() == 0 {
        0
    } else {
        decimal_value(s.drop_last()) * 10 + (s.last() as int - '0' as int)
    }
}

/// The number written by `s`, when `s` is decimal and fits in 64 bits.
pub open spec fn parse_u64_spec(s: Seq<char>) -> Option<int> {
    if is_decimal(s) && decimal_value(s) <= u64::MAX {
        Some(decimal_value(s))
    } else {
        None
    }
}

proof fn lemma_decimal_grows(s: Seq<char>, j: int, k: int)
    requires
        0 <= j <= k <= s.len(),
        forall|i: int| 0 <= i < s.len() ==> is_digit(#[trigger] s[i]),
    ensures
        decimal_value(s.subrange(0, j)) <= decimal_value(s.subrange(0, k)),
        decimal_value(s.subrange(0, k)) >= 0,
    decreases k,
{
    if k > 0 {
        assert(s.subrange(0, k).drop_last() =~= s.subrange(0, k - 1));
        assert(is_digit(s[k - 1]));
        if j < k {
            lemma_decimal_grows(s, j, k - 1);
        } else {
            lemma_decimal_grows(s, k - 1, k - 1);
        }
    }
}

/// Reads a size field: decimal digits only, at most `u64::MAX`.
pub fn parse_u64(s: &str) -> (r: Option<u64>)
    ensures
        r matches Some(n) ==> parse_u64_spec(s@) == Some(n as int),
        r is None <==> parse_u64_spec(s@) is None,
{
    let len = s.unicode_len();
    if len == 0 {
        return None;
    }
    let mut acc: u64 = 0;
    let mut i: usize = 0;
    while i < len
        invariant
            len == s@.len(),
            i <= len,
            forall|j: int| 0 <= j < i ==> is_digit(#[trigger] s@[j]),
            acc as int == decimal_value(s@.subrange(0, i as int)),
        decreases len - i,
    {
        let c = s.get_char(i);
        if !('0' <= c && c <= '9') {
            return None;
        }
        let d = (c as u32 - '0' as u32) as u64;
        assert(s@.subrange(0, i + 1).drop_last() =~= s@.subrange(0, i as int));
        if acc > 1844674407370955161 || (acc == 1844674407370955161 && d > 5) {
            proof {
                assert(decimal_value(s@.subrange(0, i + 1)) > u64::MAX);
                if is_decimal(s@) {
                    lemma_decimal_grows(s@, i + 1, s@.len() as int);
                    assert(s@.subrange(0, s@.len() as int) =~= s@);
                }
            }
            return None;
        }
        acc = acc * 10 + d;
        i = i + 1;
    }
    assert(s@.subrange(0, len as int) =~= s@);
    Some(acc)
}

/// The three space-separated fields of a size line: identifier, object
/// type and size.
pub open spec fn size_line_fields(line: Seq<char>) -> Option<(Seq<char>, Seq<char>, Seq<char>)> {
    match split_once(line, ' ') {
        Some((id, rest)) => match split_once(rest, ' ') {
            Some((kind, size)) => if first_index(size, ' ') is None {
                Some((id, kind, size))
            } else {
                None
            },
            None => None,
        },
        None => None,
    }
}

/// How one size line reads.
pub enum SizeLine {
    /// A file blob and its size.
    Blob(SizeEntry),
    /// Another kind of object (tree, commit, tag): it has no file size.
    Other,
    /// Not three space-separated fields.
    Malformed,
    /// A blob whose size field is no 64-bit decimal number.
    InvalidSize,
}

/// The model of a size line: `Err(false)` when malformed, `Err(true)` when
/// a blob's size cannot be read, `Ok(None)` for other object kinds.
pub open spec fn size_line_spec(line: Seq<char>) -> Result<Option<(Seq<char>, int)>, bool> {
    match size_line_fields(line) {
        None => Err(false),
        Some((id, kind, size)) => if kind != "blob"@ {
            Ok(None)
        } else {
            match parse_u64_spec(size) {
                Some(n) => Ok(Some((id, n))),
                None => Err(true),
            }
        },
    }
}

pub open spec fn size_line_view(r: SizeLine) -> Result<Option<(Seq<char>, int)>, bool> {
    match r {
        SizeLine::Blob(e) => Ok(Some(e@)),
        SizeLine::Other => Ok(None),
        SizeLine::Malformed => Err(false),
        SizeLine::InvalidSize => Err(true),
    }
}

/// Reads one line of the size lookup.
pub fn parse_size_line(line: &str) -> (r: SizeLine)
    ensures
        size_line_view(r) == size_line_spec(line@),
{
    let n = line.unicode_len();
    let i = match find_first(line, ' ') {
        Some(i) => i,
        None => {
            return SizeLine::Malformed;
        },
    };
    let rest = line.substring_char(i + 1, n);
    let rn = rest.unicode_len();
    let j = match find_first(rest, ' ') {
        Some(j) => j,
        None => {
            return SizeLine::Malformed;
        },
    };
    let size = rest.substring_char(j + 1, rn);
    if find_first(size, ' ').is_some() {
        return SizeLine::Malformed;
    }
    let kind = rest.substring_char(0, j).to_owned();
    if kind != "blob".to_owned() {
        return SizeLine::Other;
    }
    match parse_u64(size) {
        Some(v) => SizeLine::Blob(SizeEntry { key: line.substring_char(0, i).to_owned(), size: v }),
        None => SizeLine::InvalidSize,
    }
}

/// The identifier-to-size table of the lines `lines`, in order of first
/// appearance; the last size given for an identifier wins. Lines that are
/// not blobs, or that cannot be read, leave it unchanged.
pub open spec fn size_table(lines: Seq<Seq<char>>) -> Seq<(Seq<char>, int)>
    decreases lines.len(),
{
    if lines.len() == 0 {
        seq![]
    } else {
        let t = size_table(lines.drop_last());
        match size_line_spec(lines.last()) {
            Ok(Some((id, n))) => upsert(t, id, n),
            _ => t,
        }
    }
}

/// `e` names the first line of `lines` that cannot be read, and why.
pub open spec fn size_failure(lines: Seq<String>, e: ParseError) -> bool {
    let (line, bad): (int, Result<Option<(Seq<char>, int)>, bool>) = match e {
        ParseError::MalformedSizeLine { line } => (line as int, Err(false)),
        ParseError::InvalidSize { line } => (line as int, Err(true)),
        ParseError::MissingSeparator { .. } => (-1, Ok(None)),
    };
    &&& 0 <= line < lines.len()
    &&& size_line_spec(lines[line]@) == bad
    &&& forall|i: int| 0 <= i < line ==> size_line_spec(#[trigger] lines[i]@) is Ok
}

/// Reads the whole answer of the size lookup into a table with one entry
/// per blob identifier.
pub fn parse_sizes(lines: &Vec<String>) -> (r: Result<Vec<SizeEntry>, ParseError>)
    ensures
        r is Err <==> exists|i: int|
            0 <= i < lines@.len() && size_line_spec(#[trigger] lines@[i]@) is Err,
        r matches Ok(v) ==> entry_views(v@) == size_table(texts(lines@)),
        r matches Err(e) ==> size_failure(lines@, e),
{
    let ghost ls = texts(lines@);
    let mut v: Vec<SizeEntry> = Vec::new();
    let mut index = KeyIndex::new();
    let mut i: usize = 0;
    assert(key_seq(entry_views(v@)) =~= Seq::<Seq<char>>::empty());
    while i < lines.len()
        invariant
            i <= lines@.len(),
            ls == texts(lines@),
            index.wf(),
            index.keys() == key_seq(entry_views(v@)),
            entry_views(v@) == size_table(ls.subrange(0, i as int)),
            forall|j: int| 0 <= j < i ==> size_line_spec(#[trigger] lines@[j]@) is Ok,
        decreases lines@.len() - i,
    {
        assert(ls.subrange(0, i + 1).drop_last() =~= ls.subrange(0, i as int));
        assert(ls[i as int] == lines@[i as int]@);
        match parse_size_line(lines[i].as_str()) {
            SizeLine::Blob(e) => {
                let ghost old_v = v@;
                proof {
                    lemma_find_key_last_pos(entry_views(old_v), e.key@);
                    lemma_find_key(entry_views(old_v), e.key@);
                }
                match index.find_last(&e.key) {
                    Some(k) => {
                        let ghost n = e@.1;
                        v.set(k, e);
                        assert(entry_views(v@) =~= entry_views(old_v).update(
                            k as int,
                            (old_v[k as int].key@, n),
                        ));
                        assert(key_seq(entry_views(v@)) =~= key_seq(entry_views(old_v)));
                    },
                    None => {
                        index.push(e.key.clone());
                        v.push(e);
                        assert(key_seq(entry_views(v@)) =~= key_seq(entry_views(old_v)).push(
                            v@[v@.len() - 1].key@,
                        ));
                    },
                }
                assert(entry_views(v@) =~= size_table(ls.subrange(0, i + 1)));
            },
            SizeLine::Other => {},
            SizeLine::Malformed => {
                return Err(ParseError::MalformedSizeLine { line: i });
            },
            SizeLine::InvalidSize => {
                return Err(ParseError::InvalidSize { line: i });
            },
        }
        i = i + 1;
    }
    assert(ls.subrange(0, lines@.len() as int) =~= ls);
    Ok(v)
}

/// The size table names each object once.
pub proof fn lemma_size_table_distinct(lines: Seq<Seq<char>>)
    ensures
        distinct_keys(size_table(lines)),
    decreases lines.len(),
{
    if lines.len() > 0 {
        lemma_size_table_distinct(lines.drop_last());
        if let Ok(Some((id, n))) = size_line_spec(lines.last()) {
            lemma_upsert_distinct(size_table(lines.drop_last()), id, n);
        }
    }
}

} // verus!
