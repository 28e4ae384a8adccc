//! Joining sizes to paths and summing them per path or per directory.
use vstd::prelude::*;
use crate::index::KeyIndex;
use crate::objects::{association_map, id_index, id_seq, lookup_path, views, Association};
use crate::table::{
    add_to, entry_views, exceeds_u64, key_seq, lemma_find_key, lemma_find_key_last_pos,
    lemma_sum_where_add_to, lemma_value_of_add_to, sum_where, value_of, SizeEntry,
};
use crate::text::{find_last, last_index, texts};

verus! {

/// The directory that holds `path`: everything before its last `/`. A path
/// at the top of the repository has none.
pub open spec fn parent_dir(path: Seq<char>) -> Option<Seq<char>> {
    match last_index(path, '/') {
        Some(i) => Some(path.subrange(0, i)),
        None => None,
    }
}

/// The key under which the size of a file at `path` is summed.
pub open spec fn aggregation_key(path: Seq<char>, directories: bool) -> Option<Seq<char>> {
    if directories {
        parent_dir(path)
    } else {
        Some(path)
    }
}

/// Sizes summed per key. For each entry of the size table, in order: an
/// identifier without a path is skipped (it is not a file), as is a path
/// without a key; otherwise its size is added to its key's total.
pub open spec fn totals(
    assoc: Map<Seq<char>, Seq<char>>,
    sizes: Seq<(Seq<char>, int)>,
    directories: bool,
) -> Seq<(Seq<char>, int)>
    decreases sizes.len(),
{
    if sizes.len() == 0 {
        seq![]
    } else {
        let t = totals(assoc, sizes.drop_last(), directories);
        let (id, n) = sizes.last();
        if assoc.contains_key(id) {
            match aggregation_key(assoc[id], directories) {
                Some(k) => add_to(t, k, n),
                None => t,
            }
        } else {
            t
        }
    }
}

/// The paths, in the order of the size table, whose sizes were left out
/// because they have no key.
pub open spec fn orphans(
    assoc: Map<Seq<char>, Seq<char>>,
    sizes: Seq<(Seq<char>, int)>,
    directories: bool,
) -> Seq<Seq<char>>
    decreases sizes.len(),
{
    if sizes.len() == 0 {
        seq![]
    } else {
        let o = orphans(assoc, sizes.drop_last(), directories);
        let id = sizes.last().0;
        if assoc.contains_key(id) && aggregation_key(assoc[id], directories) is None {
            o.push(assoc[id])
        } else {
            o
        }
    }
}

/// A sum that does not fit in 64 bits.
#[derive(Debug, PartialEq, Eq, Structural)]
pub enum AggregateError {
    SizeOverflow,
}

/// The totals per key, and the paths left out for want of a key.
pub struct Aggregation {
    pub totals: Vec<SizeEntry>,
    pub orphans: Vec<String>,
}

/// Parent directory of `path`.
pub fn parent_directory(path: &str) -> (r: Option<String>)
    ensures
        r matches Some(d) ==> parent_dir(path@) == Some(d@),
        r is None <==> parent_dir(path@) is None,
{
    match find_last(path, '/') {
        Some(i) => {
            proof {
                lemma_last_index(path@, '/');
            }
            Some(path.substring_char(0, i).to_owned())
        },
        None => None,
    }
}

proof fn lemma_last_index(s: Seq<char>, c: char)
    ensures
        last_index(s, c) matches Some(i) ==> 0 <= i < s.len() && s[i] == c,
    decreases s.len(),
{
    if s.len() > 0 {
        lemma_last_index(s.drop_last(), c);
    }
}

/// Key under which the size of a file at `path` is summed.
pub fn key_of(path: &String, directories: bool) -> (r: Option<String>)
    ensures
        r matches Some(k) ==> aggregation_key(path@, directories) == Some(k@),
        r is None <==> aggregation_key(path@, directories) is None,
{
    if directories {
        parent_directory(path.as_str())
    } else {
        Some(path.clone())
    }
}

proof fn lemma_add_to_keeps(t: Seq<(Seq<char>, int)>, k: Seq<char>, n: int)
    requires
        n >= 0,
    ensures
        add_to(t, k, n).len() >= t.len(),
        forall|i: int|
            0 <= i < t.len() ==> (#[trigger] add_to(t, k, n)[i]).0 == t[i].0 && add_to(
                t,
                k,
                n,
            )[i].1 >= t[i].1,
{
    lemma_find_key(t, k);
}

proof fn lemma_totals_grow(
    assoc: Map<Seq<char>, Seq<char>>,
    sizes: Seq<(Seq<char>, int)>,
    directories: bool,
    p: int,
    q: int,
)
    requires
        0 <= p <= q <= sizes.len(),
        forall|i: int| 0 <= i < sizes.len() ==> (#[trigger] sizes[i]).1 >= 0,
    ensures
        totals(assoc, sizes.subrange(0, q), directories).len() >= totals(
            assoc,
            sizes.subrange(0, p),
            directories,
        ).len(),
        forall|i: int|
            0 <= i < totals(assoc, sizes.subrange(0, p), directories).len() ==> (#[trigger] totals(
                assoc,
                sizes.subrange(0, q),
                directories,
            )[i]).1 >= totals(assoc, sizes.subrange(0, p), directories)[i].1,
    decreases q - p,
{
    if p < q {
        lemma_totals_grow(assoc, sizes, directories, p, q - 1);
        let s = sizes.subrange(0, q);
        assert(s.drop_last() =~= sizes.subrange(0, q - 1));
        let t = totals(assoc, s.drop_last(), directories);
        assert(sizes[q - 1].1 >= 0);
        lemma_add_to_keeps(t, s.last().0, s.last().1);
        if assoc.contains_key(s.last().0) {
            if let Some(k) = aggregation_key(assoc[s.last().0], directories) {
                lemma_add_to_keeps(t, k, s.last().1);
            }
        }
    }
}

/// Sums the sizes of `sizes` per key: per path, or per parent directory
/// when `directories` is set. Identifiers that `assocs` does not know are
/// skipped; so are, in directory mode, paths at the top of the repository,
/// which are listed in `orphans`.
pub fn aggregate(assocs: &Vec<Association>, sizes: &Vec<SizeEntry>, directories: bool) -> (r:
    Result<Aggregation, AggregateError>)
    ensures
        r is Err <==> exceeds_u64(
            totals(association_map(views(assocs@)), entry_views(sizes@), directories),
        ),
        r matches Ok(a) ==> entry_views(a.totals@) == totals(
            association_map(views(assocs@)),
            entry_views(sizes@),
            directories,
        ),
        r matches Ok(a) ==> texts(a.orphans@) == orphans(
            association_map(views(assocs@)),
            entry_views(sizes@),
            directories,
        ),
{
    let ghost m = association_map(views(assocs@));
    let ghost s = entry_views(sizes@);
    let ids = id_index(assocs);
    let mut t: Vec<SizeEntry> = Vec::new();
    let mut keys = KeyIndex::new();
    let mut o: Vec<String> = Vec::new();
    let mut i: usize = 0;
    assert(key_seq(entry_views(t@)) =~= Seq::<Seq<char>>::empty());
    assert forall|j: int| 0 <= j < s.len() implies (#[trigger] s[j]).1 >= 0 by {
        assert(s[j] == sizes@[j]@);
    }
    while i < sizes.len()
        invariant
            i <= sizes@.len(),
            m == association_map(views(assocs@)),
            s == entry_views(sizes@),
            ids.wf(),
            ids.keys() == id_seq(views(assocs@)),
            keys.wf(),
            keys.keys() == key_seq(entry_views(t@)),
            forall|j: int| 0 <= j < s.len() ==> (#[trigger] s[j]).1 >= 0,
            entry_views(t@) == totals(m, s.subrange(0, i as int), directories),
            o@.map_values(|x: String| x@) == orphans(m, s.subrange(0, i as int), directories),
        decreases sizes@.len() - i,
    {
        assert(s.subrange(0, i + 1).drop_last() =~= s.subrange(0, i as int));
        assert(s[i as int] == sizes@[i as int]@);
        let ghost old_t = t@;
        let n = sizes[i].size;
        match lookup_path(assocs, &ids, &sizes[i].key) {
            Some(path) => {
                match key_of(path, directories) {
                    Some(k) => {
                        proof {
                            lemma_find_key_last_pos(entry_views(old_t), k@);
                            lemma_find_key(entry_views(old_t), k@);
                        }
                        match keys.find_last(&k) {
                            Some(idx) => {
                                if t[idx].size > u64::MAX - n {
                                    proof {
                                        let full = totals(m, s, directories);
                                        lemma_totals_grow(
                                            m,
                                            s,
                                            directories,
                                            i + 1,
                                            s.len() as int,
                                        );
                                        assert(s.subrange(0, s.len() as int) =~= s);
                                        assert(old_t[idx as int]@ == entry_views(old_t)[idx as int]);
                                        assert(full[idx as int].1 > u64::MAX);
                                        assert(exceeds_u64(full));
                                    }
                                    return Err(AggregateError::SizeOverflow);
                                }
                                let total = t[idx].size + n;
                                t.set(idx, SizeEntry { key: k, size: total });
                                assert(entry_views(t@) =~= entry_views(old_t).update(
                                    idx as int,
                                    (entry_views(old_t)[idx as int].0, total as int),
                                ));
                                assert(key_seq(entry_views(t@)) =~= key_seq(entry_views(old_t)));
                            },
                            None => {
                                keys.push(k.clone());
                                t.push(SizeEntry { key: k, size: n });
                                assert(entry_views(t@) =~= entry_views(old_t).push((k@, n as int)));
                                assert(key_seq(entry_views(t@)) =~= key_seq(entry_views(old_t)).push(
                                    k@,
                                ));
                            },
                        }
                        assert(o@.map_values(|x: String| x@) =~= orphans(
                            m,
                            s.subrange(0, i + 1),
                            directories,
                        ));
                    },
                    None => {
                        let ghost old_o = o@;
                        o.push(path.clone());
                        assert(o@.map_values(|x: String| x@) =~= old_o.map_values(|x: String| x@).push(
                            path@,
                        ));
                    },
                }
            },
            None => {},
        }
        i = i + 1;
    }
    assert(s.subrange(0, sizes@.len() as int) =~= s);
    proof {
        let full = totals(m, s, directories);
        assert forall|j: int| 0 <= j < full.len() implies (#[trigger] full[j]).1 <= u64::MAX by {
            assert(full[j] == t@[j]@);
        }
    }
    Ok(Aggregation { totals: t, orphans: o })
}

/// Sum of the sizes in `sizes` whose identifiers have a path.
pub open spec fn associated_sum(assoc: Map<Seq<char>, Seq<char>>, sizes: Seq<(Seq<char>, int)>) -> int
    decreases sizes.len(),
{
    if sizes.len() == 0 {
        0
    } else {
        associated_sum(assoc, sizes.drop_last()) + if assoc.contains_key(sizes.last().0) {
            sizes.last().1
        } else {
            0
        }
    }
}

/// Per file, the totals of the report add up to the sizes of all the
/// objects of the size table that have a path: each is counted once.
pub proof fn lemma_conservation(assoc: Map<Seq<char>, Seq<char>>, sizes: Seq<(Seq<char>, int)>)
    ensures
        sum_where(totals(assoc, sizes, false), |k: Seq<char>| true) == associated_sum(assoc, sizes),
    decreases sizes.len(),
{
    if sizes.len() > 0 {
        lemma_conservation(assoc, sizes.drop_last());
        let t = totals(assoc, sizes.drop_last(), false);
        let id = sizes.last().0;
        if assoc.contains_key(id) {
            lemma_sum_where_add_to(t, assoc[id], sizes.last().1, |k: Seq<char>| true);
        }
    }
}

/// The per-file totals of the files directly in directory `d` add up to
/// the total of `d` in directory mode.
pub proof fn lemma_directory_collapse(
    assoc: Map<Seq<char>, Seq<char>>,
    sizes: Seq<(Seq<char>, int)>,
    d: Seq<char>,
)
    ensures
        sum_where(totals(assoc, sizes, false), |k: Seq<char>| parent_dir(k) == Some(d)) == value_of(
            totals(assoc, sizes, true),
            d,
        ),
    decreases sizes.len(),
{
    let f = |k: Seq<char>| parent_dir(k) == Some(d);
    if sizes.len() == 0 {
        assert(value_of(totals(assoc, sizes, true), d) == 0);
    } else {
        lemma_directory_collapse(assoc, sizes.drop_last(), d);
        let tf = totals(assoc, sizes.drop_last(), false);
        let td = totals(assoc, sizes.drop_last(), true);
        let (id, n) = sizes.last();
        if assoc.contains_key(id) {
            let p = assoc[id];
            lemma_sum_where_add_to(tf, p, n, f);
            if let Some(q) = parent_dir(p) {
                lemma_value_of_add_to(td, q, n, d);
            }
        }
    }
}

} // verus!
