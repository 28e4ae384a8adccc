//! An index from keys to their positions in a growing sequence of keys,
//! so that the last position of a key is found without a scan of the
//! whole sequence.
use vstd::prelude::*;
use std::collections::HashMap;
use crate::text::texts;

verus! {

broadcast use vstd::std_specs::hash::group_hash_axioms;

/// Modulus of the key hash, small enough that a step cannot overflow.
pub const HASH_MODULUS: u64 = 0x2000_0000_0000_0000;

/// How many trailing characters of a key go into its hash.
pub const HASHED_CHARS: usize = 16;

pub open spec fn hash_step(h: int, c: char) -> int {
    (h * 31 + c as int) % (HASH_MODULUS as int)
}

pub open spec fn fold_hash(s: Seq<char>) -> int
    decreases s.len(),
{
    if s.len() == 0 {
        0
    } else {
        hash_step(fold_hash(s.drop_last()), s.last())
    }
}

/// First position that goes into the hash of a key of length `n`.
pub open spec fn hash_start(n: int) -> int {
    if n > HASHED_CHARS as int {
        n - HASHED_CHARS as int
    } else {
        0
    }
}

/// The hash of a key: its last characters folded together.
pub open spec fn key_hash(k: Seq<char>) -> u64 {
    fold_hash(k.subrange(hash_start(k.len() as int), k.len() as int)) as u64
}

/// Last position of `k` in `keys`.
pub open spec fn last_pos(keys: Seq<Seq<char>>, k: Seq<char>) -> Option<int>
    decreases keys.len(),
{
    if keys.len() == 0 {
        None
    } else if keys.last() == k {
        Some(keys.len() - 1)
    } else {
        last_pos(keys.drop_last(), k)
    }
}

/// `last_pos` is the largest position that holds `k`.
pub proof fn lemma_last_pos(keys: Seq<Seq<char>>, k: Seq<char>)
    ensures
        last_pos(keys, k) matches Some(p) ==> 0 <= p < keys.len() && keys[p] == k && forall|q: int|
            p < q < keys.len() ==> keys[q] != k,
        last_pos(keys, k) is None ==> forall|q: int| 0 <= q < keys.len() ==> keys[q] != k,
    decreases keys.len(),
{
    if keys.len() > 0 {
        let d = keys.drop_last();
        lemma_last_pos(d, k);
        assert forall|q: int| 0 <= q < d.len() implies d[q] == keys[q] by {}
    }
}

/// Positions of keys with hash `h`, in increasing order.
pub open spec fn bucket_ok(keys: Seq<Seq<char>>, b: Seq<usize>, h: u64) -> bool {
    &&& forall|j: int| 0 <= j < b.len() ==> (#[trigger] b[j]) < keys.len() && key_hash(keys[b[j] as int]) == h
    &&& forall|i: int, j: int| 0 <= i < j < b.len() ==> b[i] < b[j]
}

/// The bucket of hash `h` in `m` holds position `p`.
pub open spec fn in_bucket(m: Map<u64, Vec<usize>>, h: u64, p: int) -> bool {
    m.contains_key(h) && exists|j: int| 0 <= j < m[h]@.len() && m[h]@[j] as int == p
}

/// Hash of `s`.
pub fn hash_key(s: &str) -> (h: u64)
    ensures
        h == key_hash(s@),
{
    let n = s.unicode_len();
    let start: usize = if n > HASHED_CHARS {
        n - HASHED_CHARS
    } else {
        0
    };
    let mut h: u64 = 0;
    let mut i: usize = start;
    assert(s@.subrange(start as int, start as int) =~= Seq::<char>::empty());
    while i < n
        invariant
            n == s@.len(),
            start <= i <= n,
            start == hash_start(n as int),
            h < HASH_MODULUS,
            h as int == fold_hash(s@.subrange(start as int, i as int)),
        decreases n - i,
    {
        let c = s.get_char(i);
        assert(s@.subrange(start as int, i + 1).drop_last() =~= s@.subrange(start as int, i as int));
        let next = ((h as u128) * 31 + (c as u32) as u128) % (HASH_MODULUS as u128);
        h = next as u64;
        i = i + 1;
    }
    h
}

/// Keys in order of insertion, with their positions grouped by hash.
pub struct KeyIndex {
    keys: Vec<String>,
    buckets: HashMap<u64, Vec<usize>>,
}

impl KeyIndex {
    /// The keys, in order of insertion.
    pub closed spec fn keys(&self) -> Seq<Seq<char>> {
        texts(self.keys@)
    }

    pub closed spec fn wf(&self) -> bool {
        &&& forall|h: u64| #[trigger]
            self.buckets@.contains_key(h) ==> bucket_ok(self.keys(), self.buckets@[h]@, h)
        &&& forall|p: int|
            0 <= p < self.keys@.len() ==> in_bucket(self.buckets@, key_hash(#[trigger] self.keys@[p]@), p)
    }

    /// An empty index.
    pub fn new() -> (r: KeyIndex)
        ensures
            r.wf(),
            r.keys() == Seq::<Seq<char>>::empty(),
    {
        let r = KeyIndex { keys: Vec::new(), buckets: HashMap::new() };
        assert(r.keys() =~= Seq::<Seq<char>>::empty());
        r
    }

    /// Appends `k`.
    pub fn push(&mut self, k: String)
        requires
            old(self).wf(),
        ensures
            final(self).wf(),
            final(self).keys() == old(self).keys().push(k@),
    {
        let ghost old_keys = self.keys();
        let ghost old_buckets = self.buckets@;
        let h = hash_key(k.as_str());
        let p = self.keys.len();
        let mut b = match self.buckets.remove(&h) {
            Some(b) => b,
            None => Vec::new(),
        };
        let ghost old_b = b@;
        assert(old_buckets.contains_key(h) ==> old_b == old_buckets[h]@);
        assert(!old_buckets.contains_key(h) ==> old_b.len() == 0);
        b.push(p);
        self.keys.push(k);
        assert(self.keys() =~= old_keys.push(k@));
        self.buckets.insert(h, b);
        assert forall|g: u64| #[trigger]
            self.buckets@.contains_key(g) implies bucket_ok(self.keys(), self.buckets@[g]@, g) by {
            let bb = self.buckets@[g]@;
            assert forall|j: int| 0 <= j < bb.len() implies (#[trigger] bb[j]) < self.keys().len()
                && key_hash(self.keys()[bb[j] as int]) == g by {
                if g == h && j == bb.len() - 1 {
                } else {
                    if g == h {
                        assert(bb[j] == old_b[j]);
                    }
                    assert(self.keys()[bb[j] as int] == old_keys[bb[j] as int]);
                }
            }
        }
        assert forall|q: int| 0 <= q < self.keys@.len() implies in_bucket(
            self.buckets@,
            key_hash(#[trigger] self.keys@[q]@),
            q,
        ) by {
            if q < p {
                assert(self.keys@[q]@ == old_keys[q]);
                let g = key_hash(old_keys[q]);
                assert(in_bucket(old_buckets, g, q));
                if g == h {
                    let j = choose|j: int| 0 <= j < old_b.len() && old_b[j] as int == q;
                    assert(self.buckets@[g]@[j] as int == q);
                } else {
                    let j = choose|j: int| 0 <= j < old_buckets[g]@.len() && old_buckets[g]@[j] as int == q;
                    assert(self.buckets@[g]@[j] as int == q);
                }
            } else {
                assert(self.buckets@[h]@[old_b.len() as int] == p);
            }
        }
    }

    /// Last position of `k` among the keys.
    pub fn find_last(&self, k: &String) -> (r: Option<usize>)
        requires
            self.wf(),
        ensures
            r matches Some(p) ==> last_pos(self.keys(), k@) == Some(p as int),
            r is None <==> last_pos(self.keys(), k@) is None,
    {
        let ghost keys = self.keys();
        proof {
            lemma_last_pos(keys, k@);
        }
        let h = hash_key(k.as_str());
        match self.buckets.get(&h) {
            None => {
                assert forall|q: int| 0 <= q < keys.len() implies keys[q] != k@ by {
                    assert(keys[q] == self.keys@[q]@);
                    assert(in_bucket(self.buckets@, key_hash(self.keys@[q]@), q));
                }
                None
            },
            Some(b) => {
                let mut j: usize = b.len();
                while j > 0
                    invariant
                        j <= b@.len(),
                        bucket_ok(keys, b@, h),
                        keys == self.keys(),
                        self.wf(),
                        h == key_hash(k@),
                        self.buckets@.contains_key(h),
                        self.buckets@[h] == *b,
                        forall|i: int| j <= i < b@.len() ==> keys[#[trigger] b@[i] as int] != k@,
                    decreases j,
                {
                    let p = b[j - 1];
                    assert(keys[p as int] == self.keys@[p as int]@);
                    if self.keys[p] == *k {
                        assert forall|q: int| p < q < keys.len() implies keys[q] != k@ by {
                            if keys[q] == k@ {
                                assert(keys[q] == self.keys@[q]@);
                                assert(in_bucket(self.buckets@, key_hash(self.keys@[q]@), q));
                                let i = choose|i: int| 0 <= i < b@.len() && b@[i] as int == q;
                                if i < j - 1 {
                                    assert(b@[i] < b@[j - 1]);
                                }
                            }
                        }
                        proof {
                            lemma_last_pos(keys, k@);
                            let lp = last_pos(keys, k@);
                            assert(lp is Some);
                            let p2 = lp->Some_0;
                            if p2 < p {
                                assert(keys[p as int] != k@);
                            }
                        }
                        return Some(p);
                    }
                    j = j - 1;
                }
                assert forall|q: int| 0 <= q < keys.len() implies keys[q] != k@ by {
                    if keys[q] == k@ {
                        assert(keys[q] == self.keys@[q]@);
                        assert(in_bucket(self.buckets@, key_hash(self.keys@[q]@), q));
                        let i = choose|i: int| 0 <= i < b@.len() && b@[i] as int == q;
                        assert(keys[b@[i] as int] != k@);
                    }
                }
                None
            },
        }
    }
}

} // verus!
