//! The association of each historical object with the path it was stored
//! at, as listed by `git rev-list --all --objects`.
use vstd::prelude::*;
use crate::index::{last_pos, lemma_last_pos, KeyIndex};
use crate::text::{find_first, split_once};

verus! {

/// One line of the history walk: an object identifier and its path.
pub struct Association {
    pub id: String,
    pub path: String,
}

impl View for Association {
    type V = (Seq<char>, Seq<char>);

    open spec fn view(&self) -> (Seq<char>, Seq<char>) {
        (self.id@, self.path@)
    }
}

/// A collaborator's output that the tool cannot read.
#[derive(Debug, PartialEq, Eq, Structural)]
pub enum ParseError {
    /// A history line with no space between identifier and path.
    MissingSeparator { line: usize },
    /// A size line that does not have exactly three space-separated fields.
    MalformedSizeLine { line: usize },
    /// A blob's size field that is not a decimal number fitting in 64 bits.
    InvalidSize { line: usize },
}

/// A history line read as identifier and path: split at its first space.
pub open spec fn association_of_line(line: Seq<char>) -> Option<(Seq<char>, Seq<char>)> {
    split_once(line, ' ')
}

/// The identifier-to-path table of a sequence of associations: when an
/// identifier recurs, the last association wins. An object stored at
/// several paths over history is therefore counted under its last path
/// only, once; objects with different identifiers at one path all count.
pub open spec fn association_map(a: Seq<(Seq<char>, Seq<char>)>) -> Map<Seq<char>, Seq<char>>
    decreases a.len(),
{
    if a.len() == 0 {
        Map::empty()
    } else {
        association_map(a.drop_last()).insert(a.last().0, a.last().1)
    }
}

pub open spec fn views(v: Seq<Association>) -> Seq<(Seq<char>, Seq<char>)> {
    v.map_values(|a: Association| a@)
}

/// Arguments of the `git` call that walks every object of every revision,
/// restricted to `paths` when there are any.
pub fn rev_list_args(paths: &Vec<String>) -> (r: Vec<String>)
    ensures
        paths@.len() == 0 ==> r@.map_values(|s: String| s@) == seq![
            "rev-list"@,
            "--all"@,
            "--objects"@,
        ],
        paths@.len() > 0 ==> r@.map_values(|s: String| s@) == seq![
            "rev-list"@,
            "--all"@,
            "--objects"@,
            "--"@,
        ] + paths@.map_values(|s: String| s@),
{
    let ghost fixed = seq!["rev-list"@, "--all"@, "--objects"@, "--"@];
    let mut r: Vec<String> = Vec::new();
    r.push("rev-list".to_owned());
    r.push("--all".to_owned());
    r.push("--objects".to_owned());
    if paths.len() == 0 {
        assert(r@.map_values(|s: String| s@) =~= fixed.subrange(0, 3));
        return r;
    }
    r.push("--".to_owned());
    let mut i: usize = 0;
    while i < paths.len()
        invariant
            i <= paths@.len(),
            r@.len() == 4 + i,
            forall|k: int| 0 <= k < 4 ==> #[trigger] r@[k]@ == fixed[k],
            forall|k: int| 0 <= k < i ==> #[trigger] r@[4 + k]@ == paths@[k]@,
        decreases paths@.len() - i,
    {
        r.push(paths[i].clone());
        i = i + 1;
    }
    assert(r@.map_values(|s: String| s@) =~= fixed + paths@.map_values(|s: String| s@)) by {
        assert forall|k: int| 4 <= k < r@.len() implies r@[k]@ == paths@[k - 4]@ by {
            assert(r@[4 + (k - 4)]@ == paths@[k - 4]@);
        }
    }
    r
}

/// Reads one history line.
pub fn parse_association(line: &str) -> (r: Option<Association>)
    ensures
        r matches Some(a) ==> association_of_line(line@) == Some(a@),
        r is None <==> association_of_line(line@) is None,
{
    match find_first(line, ' ') {
        Some(i) => {
            let n = line.unicode_len();
            let id = line.substring_char(0, i).to_owned();
            let path = line.substring_char(i + 1, n).to_owned();
            Some(Association { id, path })
        },
        None => None,
    }
}

/// Reads the whole output of the history walk, one association per line.
pub fn parse_associations(lines: &Vec<String>) -> (r: Result<Vec<Association>, ParseError>)
    ensures
        r is Err <==> exists|i: int|
            0 <= i < lines@.len() && association_of_line(#[trigger] lines@[i]@) is None,
        r matches Ok(v) ==> {
            &&& v@.len() == lines@.len()
            &&& forall|i: int|
                0 <= i < v@.len() ==> association_of_line(lines@[i]@) == Some(
                    #[trigger] v@[i]@,
                )
        },
        r matches Err(ParseError::MissingSeparator { line }) ==> {
            &&& line < lines@.len()
            &&& association_of_line(lines@[line as int]@) is None
            &&& forall|i: int|
                0 <= i < line ==> association_of_line(#[trigger] lines@[i]@) is Some
        },
        r matches Err(e) ==> e is MissingSeparator,
{
    let mut v: Vec<Association> = Vec::new();
    let mut i: usize = 0;
    while i < lines.len()
        invariant
            i <= lines@.len(),
            v@.len() == i,
            forall|j: int|
                0 <= j < i ==> association_of_line(lines@[j]@) == Some(#[trigger] v@[j]@),
        decreases lines@.len() - i,
    {
        match parse_association(lines[i].as_str()) {
            Some(a) => {
                v.push(a);
            },
            None => {
                assert forall|j: int| 0 <= j < i implies association_of_line(
                    #[trigger] lines@[j]@,
                ) is Some by {
                    assert(association_of_line(lines@[j]@) == Some(v@[j]@));
                }
                return Err(ParseError::MissingSeparator { line: i });
            },
        }
        i = i + 1;
    }
    assert forall|j: int| 0 <= j < lines@.len() implies association_of_line(
        #[trigger] lines@[j]@,
    ) is Some by {
        assert(association_of_line(lines@[j]@) == Some(v@[j]@));
    }
    Ok(v)
}

/// An index of the identifiers of `assocs`.
pub fn id_index(assocs: &Vec<Association>) -> (r: KeyIndex)
    ensures
        r.wf(),
        r.keys() == id_seq(views(assocs@)),
{
    let mut r = KeyIndex::new();
    let mut i: usize = 0;
    while i < assocs.len()
        invariant
            i <= assocs@.len(),
            r.wf(),
            r.keys() == id_seq(views(assocs@.subrange(0, i as int))),
        decreases assocs@.len() - i,
    {
        r.push(assocs[i].id.clone());
        i = i + 1;
        assert(id_seq(views(assocs@.subrange(0, i as int))) =~= id_seq(
            views(assocs@.subrange(0, i - 1)),
        ).push(assocs@[i - 1].id@));
    }
    assert(assocs@.subrange(0, i as int) =~= assocs@);
    r
}

/// Path recorded for `id`: the last association that names it wins.
/// `ids` is the index of the identifiers of `assocs`.
pub fn lookup_path<'a>(assocs: &'a Vec<Association>, ids: &KeyIndex, id: &String) -> (r: Option<
    &'a String,
>)
    requires
        ids.wf(),
        ids.keys() == id_seq(views(assocs@)),
    ensures
        r matches Some(p) ==> association_map(views(assocs@)).contains_key(id@)
            && association_map(views(assocs@))[id@] == p@,
        r is None ==> !association_map(views(assocs@)).contains_key(id@),
{
    proof {
        lemma_association_map_last(views(assocs@), id@);
        lemma_last_pos(id_seq(views(assocs@)), id@);
    }
    match ids.find_last(id) {
        Some(p) => {
            assert(views(assocs@)[p as int] == assocs@[p as int]@);
            Some(&assocs[p].path)
        },
        None => None,
    }
}

/// The identifiers of `a`, in order.
pub open spec fn id_seq(a: Seq<(Seq<char>, Seq<char>)>) -> Seq<Seq<char>> {
    a.map_values(|x: (Seq<char>, Seq<char>)| x.0)
}

/// An identifier has a path exactly when it occurs, and its path is that
/// of its last occurrence.
pub proof fn lemma_association_map_last(a: Seq<(Seq<char>, Seq<char>)>, id: Seq<char>)
    ensures
        association_map(a).contains_key(id) <==> last_pos(id_seq(a), id) is Some,
        last_pos(id_seq(a), id) matches Some(p) ==> association_map(a)[id] == a[p].1,
    decreases a.len(),
{
    if a.len() > 0 {
        lemma_association_map_last(a.drop_last(), id);
        assert(id_seq(a).drop_last() =~= id_seq(a.drop_last()));
        lemma_last_pos(id_seq(a.drop_last()), id);
        if let Some(p) = last_pos(id_seq(a.drop_last()), id) {
            assert(a.drop_last()[p] == a[p]);
        }
    }
}

} // verus!
