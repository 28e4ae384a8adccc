//! Small keyed tables of byte counts, kept as vectors in insertion order.
use vstd::prelude::*;
use crate::index::last_pos;

verus! {

/// A key (an object identifier or a path) with a byte count.
pub struct SizeEntry {
    pub key: String,
    pub size: u64,
}

impl View for SizeEntry {
    type V = (Seq<char>, int);

    open spec fn view(&self) -> (Seq<char>, int) {
        (self.key@, self.size as int)
    }
}

impl SizeEntry {
    /// A copy of this entry.
    pub fn duplicate(&self) -> (r: SizeEntry)
        ensures
            r@ == self@,
    {
        SizeEntry { key: self.key.clone(), size: self.size }
    }
}

/// Some value of `t` does not fit in 64 bits.
pub open spec fn exceeds_u64(t: Seq<(Seq<char>, int)>) -> bool {
    exists|i: int| 0 <= i < t.len() && (#[trigger] t[i]).1 > u64::MAX
}

pub open spec fn entry_views(v: Seq<SizeEntry>) -> Seq<(Seq<char>, int)> {
    v.map_values(|e: SizeEntry| e@)
}

/// Position of the last entry of `s` with key `k`.
pub open spec fn find_key(s: Seq<(Seq<char>, int)>, k: Seq<char>) -> Option<int>
    decreases s.len(),
{
    if s.len() == 0 {
        None
    } else if s.last().0 == k {
        Some(s.len() - 1)
    } else {
        find_key(s.drop_last(), k)
    }
}

/// `s` with the value of key `k` set to `n`: in place when the key is
/// there, appended at the end when it is not.
pub open spec fn upsert(s: Seq<(Seq<char>, int)>, k: Seq<char>, n: int) -> Seq<(Seq<char>, int)> {
    match find_key(s, k) {
        Some(i) => s.update(i, (k, n)),
        None => s.push((k, n)),
    }
}

/// `s` with `n` added to the value of key `k`, a new entry `(k, n)` at the
/// end when the key is not there yet.
pub open spec fn add_to(s: Seq<(Seq<char>, int)>, k: Seq<char>, n: int) -> Seq<(Seq<char>, int)> {
    match find_key(s, k) {
        Some(i) => s.update(i, (k, s[i].1 + n)),
        None => s.push((k, n)),
    }
}

/// The value of key `k` in `s`, zero when it is absent.
pub open spec fn value_of(s: Seq<(Seq<char>, int)>, k: Seq<char>) -> int {
    match find_key(s, k) {
        Some(i) => s[i].1,
        None => 0,
    }
}

pub proof fn lemma_find_key(s: Seq<(Seq<char>, int)>, k: Seq<char>)
    ensures
        find_key(s, k) matches Some(i) ==> 0 <= i < s.len() && s[i].0 == k,
        find_key(s, k) is None ==> forall|j: int| 0 <= j < s.len() ==> s[j].0 != k,
    decreases s.len(),
{
    if s.len() > 0 {
        lemma_find_key(s.drop_last(), k);
        if find_key(s, k) is None {
            assert forall|j: int| 0 <= j < s.len() implies s[j].0 != k by {
                if j < s.len() - 1 {
                    assert(s.drop_last()[j] == s[j]);
                }
            }
        }
    }
}

} // verus!

verus! {

/// Sum of the values of the entries of `t` whose key satisfies `f`.
pub open spec fn sum_where(t: Seq<(Seq<char>, int)>, f: spec_fn(Seq<char>) -> bool) -> int
    decreases t.len(),
{
    if t.len() == 0 {
        0
    } else {
        sum_where(t.drop_last(), f) + if f(t.last().0) {
            t.last().1
        } else {
            0
        }
    }
}

proof fn lemma_sum_where_update(
    t: Seq<(Seq<char>, int)>,
    i: int,
    v: (Seq<char>, int),
    f: spec_fn(Seq<char>) -> bool,
)
    requires
        0 <= i < t.len(),
    ensures
        sum_where(t.update(i, v), f) == sum_where(t, f) - (if f(t[i].0) {
            t[i].1
        } else {
            0
        }) + (if f(v.0) {
            v.1
        } else {
            0
        }),
    decreases t.len(),
{
    if i == t.len() - 1 {
        assert(t.update(i, v).drop_last() =~= t.drop_last());
    } else {
        lemma_sum_where_update(t.drop_last(), i, v, f);
        assert(t.update(i, v).drop_last() =~= t.drop_last().update(i, v));
    }
}

/// Adding `n` under key `k` adds `n` to every sum over a set of keys that
/// holds `k`, and nothing to the others.
pub proof fn lemma_sum_where_add_to(
    t: Seq<(Seq<char>, int)>,
    k: Seq<char>,
    n: int,
    f: spec_fn(Seq<char>) -> bool,
)
    ensures
        sum_where(add_to(t, k, n), f) == sum_where(t, f) + if f(k) {
            n
        } else {
            0
        },
{
    lemma_find_key(t, k);
    match find_key(t, k) {
        Some(i) => lemma_sum_where_update(t, i, (k, t[i].1 + n), f),
        None => assert(t.push((k, n)).drop_last() =~= t),
    }
}

proof fn lemma_find_key_same_keys(t: Seq<(Seq<char>, int)>, i: int, v: (Seq<char>, int), d: Seq<char>)
    requires
        0 <= i < t.len(),
        v.0 == t[i].0,
    ensures
        find_key(t.update(i, v), d) == find_key(t, d),
    decreases t.len(),
{
    if i < t.len() - 1 {
        lemma_find_key_same_keys(t.drop_last(), i, v, d);
        assert(t.update(i, v).drop_last() =~= t.drop_last().update(i, v));
    } else {
        assert(t.update(i, v).drop_last() =~= t.drop_last());
    }
}

/// Adding `n` under key `k` adds `n` to the value of `k` and leaves the
/// other keys' values as they were.
pub proof fn lemma_value_of_add_to(t: Seq<(Seq<char>, int)>, k: Seq<char>, n: int, d: Seq<char>)
    ensures
        value_of(add_to(t, k, n), d) == value_of(t, d) + if k == d {
            n
        } else {
            0
        },
{
    lemma_find_key(t, k);
    lemma_find_key(t, d);
    match find_key(t, k) {
        Some(i) => {
            lemma_find_key_same_keys(t, i, (k, t[i].1 + n), d);
        },
        None => {
            assert(t.push((k, n)).drop_last() =~= t);
        },
    }
}

/// No two entries of `t` have the same key.
pub open spec fn distinct_keys(t: Seq<(Seq<char>, int)>) -> bool {
    forall|i: int, j: int| 0 <= i < j < t.len() ==> t[i].0 != t[j].0
}

pub proof fn lemma_upsert_distinct(t: Seq<(Seq<char>, int)>, k: Seq<char>, n: int)
    requires
        distinct_keys(t),
    ensures
        distinct_keys(upsert(t, k, n)),
{
    lemma_find_key(t, k);
}

/// The keys of `t`, in order.
pub open spec fn key_seq(t: Seq<(Seq<char>, int)>) -> Seq<Seq<char>> {
    t.map_values(|e: (Seq<char>, int)| e.0)
}

pub proof fn lemma_find_key_last_pos(t: Seq<(Seq<char>, int)>, k: Seq<char>)
    ensures
        find_key(t, k) == last_pos(key_seq(t), k),
    decreases t.len(),
{
    if t.len() > 0 {
        lemma_find_key_last_pos(t.drop_last(), k);
        assert(key_seq(t).drop_last() =~= key_seq(t.drop_last()));
    }
}

} // verus!
