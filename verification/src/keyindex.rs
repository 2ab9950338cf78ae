//! An index from face keys (sorted node lists) to the positions at which they
//! were added, bucketed by the smallest node.

use vstd::prelude::*;

verus! {

/// Whether `s` is sorted in nondecreasing order.
pub open spec fn sorted_u32(s: Seq<u32>) -> bool {
    forall|i: int, j: int| 0 <= i < j < s.len() ==> s[i] <= s[j]
}

/// The bucket of a key among `nb` buckets: by its first value, 0 for the empty key.
pub open spec fn bucket_of(k: Seq<u32>, nb: nat) -> int {
    if k.len() == 0 {
        0
    } else {
        (k[0] as int) % (nb as int)
    }
}

fn bucket_index(key: &Vec<u32>, nb: usize) -> (b: usize)
    requires
        nb > 0,
    ensures
        b == bucket_of(key@, nb as nat),
        b < nb,
{
    if key.len() == 0 {
        0
    } else {
        (key[0] as usize) % nb
    }
}

/// Keys added in order, and for each bucket the positions of its keys in
/// increasing order.
pub struct KeyIndex {
    pub keys: Vec<Vec<u32>>,
    pub buckets: Vec<Vec<usize>>,
}

impl KeyIndex {
    pub open spec fn key_views(&self) -> Seq<Seq<u32>> {
        self.keys@.map_values(|k: Vec<u32>| k@)
    }

    pub open spec fn wf(&self) -> bool {
        &&& self.buckets.len() > 0
        &&& forall|p: int|
            0 <= p < self.keys.len() ==> self.buckets@[bucket_of(
                #[trigger] self.keys@[p]@,
                self.buckets.len() as nat,
            )]@.contains(p as usize)
        &&& forall|b: int, t: int|
            0 <= b < self.buckets.len() && 0 <= t < self.buckets@[b].len() ==> {
                let p = #[trigger] self.buckets@[b]@[t];
                &&& p < self.keys.len()
                &&& bucket_of(self.keys@[p as int]@, self.buckets.len() as nat) == b
            }
        &&& forall|b: int, t1: int, t2: int|
            0 <= b < self.buckets.len() && 0 <= t1 < t2 < self.buckets@[b].len()
                ==> #[trigger] self.buckets@[b]@[t1] < #[trigger] self.buckets@[b]@[t2]
    }

    /// An empty index with `nb` buckets (at least one).
    pub fn new(nb: usize) -> (r: KeyIndex)
        ensures
            r.wf(),
            r.keys@.len() == 0,
    {
        let n = if nb == 0 {
            1
        } else {
            nb
        };
        let mut buckets: Vec<Vec<usize>> = Vec::new();
        let mut i: usize = 0;
        while i < n
            invariant
                i <= n,
                buckets.len() == i,
                forall|b: int| 0 <= b < i ==> (#[trigger] buckets@[b]).len() == 0,
            decreases n - i,
        {
            buckets.push(Vec::new());
            i += 1;
        }
        KeyIndex { keys: Vec::new(), buckets }
    }

    /// Adds a non-empty key at the next position.
    pub fn push(&mut self, key: Vec<u32>)
        requires
            old(self).wf(),
        ensures
            final(self).wf(),
            final(self).key_views() == old(self).key_views().push(key@),
            final(self).keys@.len() == old(self).keys@.len() + 1,
            final(self).buckets.len() == old(self).buckets.len(),
    {
        let nb = self.buckets.len();
        let p = self.keys.len();
        let b = bucket_index(&key, nb);
        let ghost kv = key@;
        let ghost old_keys = self.keys@;
        let ghost old_buckets = self.buckets@;
        self.keys.push(key);
        let mut inner: Vec<usize> = Vec::new();
        self.buckets.set_and_swap(b, &mut inner);
        let ghost old_inner = inner@;
        inner.push(p);
        self.buckets.set_and_swap(b, &mut inner);
        proof {
            assert(self.keys@[p as int]@ == kv);
            assert(self.key_views() =~= old(self).key_views().push(kv));
            assert(self.buckets@[b as int]@ == old_inner.push(p));
            assert(self.buckets.len() == nb);
            assert forall|q: int| 0 <= q < self.keys.len() implies self.buckets@[bucket_of(
                #[trigger] self.keys@[q]@,
                self.buckets.len() as nat,
            )]@.contains(q as usize) by {
                if q == p {
                    assert(bucket_of(kv, nb as nat) == b);
                    assert(self.buckets@[b as int]@[old_inner.len() as int] == q);
                } else {
                    assert(self.keys@[q] == old_keys[q]);
                    let bq = bucket_of(old_keys[q]@, nb as nat);
                    assert(old_buckets[bq]@.contains(q as usize));
                    let t = choose|t: int|
                        0 <= t < old_buckets[bq]@.len() && old_buckets[bq]@[t] == q as usize;
                    if bq == b {
                        assert(self.buckets@[bq]@[t] == q);
                    } else {
                        assert(self.buckets@[bq] == old_buckets[bq]);
                    }
                }
            }
            assert forall|bb: int, t: int|
                0 <= bb < self.buckets.len() && 0 <= t < self.buckets@[bb].len() implies {
                let q = #[trigger] self.buckets@[bb]@[t];
                &&& q < self.keys.len()
                &&& bucket_of(self.keys@[q as int]@, nb as nat) == bb
            } by {
                let q = self.buckets@[bb]@[t];
                if bb == b && t == old_inner.len() {
                    assert(q == p);
                } else if bb == b {
                    assert(q == old_buckets[bb]@[t]);
                    assert(self.keys@[q as int] == old_keys[q as int]);
                } else {
                    assert(self.buckets@[bb] == old_buckets[bb]);
                    assert(self.keys@[q as int] == old_keys[q as int]);
                }
            }
            assert forall|bb: int, t1: int, t2: int|
                0 <= bb < self.buckets.len() && 0 <= t1 < t2 < self.buckets@[bb].len()
                    implies #[trigger] self.buckets@[bb]@[t1] < #[trigger] self.buckets@[bb]@[t2] by {
                if bb == b {
                    if t2 == old_inner.len() {
                        assert(self.buckets@[bb]@[t1] == old_inner[t1]);
                        assert(old_inner[t1] < p);
                    } else {
                        assert(self.buckets@[bb]@[t1] == old_inner[t1]);
                        assert(self.buckets@[bb]@[t2] == old_inner[t2]);
                    }
                } else {
                    assert(self.buckets@[bb] == old_buckets[bb]);
                }
            }
        }
    }

    /// The last position whose key equals `key`.
    pub fn last_match(&self, key: &Vec<u32>) -> (r: Option<usize>)
        requires
            self.wf(),
        ensures
            match r {
                Some(p) => {
                    &&& p < self.keys.len()
                    &&& self.keys@[p as int]@ == key@
                    &&& forall|q: int| p < q < self.keys.len() ==> self.keys@[q]@ != key@
                },
                None => forall|q: int| 0 <= q < self.keys.len() ==> self.keys@[q]@ != key@,
            },
    {
        let nb = self.buckets.len();
        let b = bucket_index(key, nb);
        let bucket = &self.buckets[b];
        let mut t = bucket.len();
        while t > 0
            invariant
                t <= bucket.len(),
                bucket == self.buckets@[b as int],
                b == bucket_of(key@, nb as nat),
                nb == self.buckets.len(),
                self.wf(),
                forall|s: int| t <= s < bucket.len() ==> self.keys@[bucket@[s] as int]@ != key@,
            decreases t,
        {
            let p = bucket[t - 1];
            if eq_u32s(&self.keys[p], key) {
                proof {
                    assert forall|q: int| p < q < self.keys.len() implies self.keys@[q]@ != key@ by {
                        if self.keys@[q]@ == key@ {
                            let bq = bucket_of(self.keys@[q]@, nb as nat);
                            assert(bq == b);
                            assert(self.buckets@[bq]@.contains(q as usize));
                            let s = choose|s: int|
                                0 <= s < self.buckets@[bq]@.len() && self.buckets@[bq]@[s]
                                    == q as usize;
                            if s < t - 1 {
                                assert(bucket@[s] < bucket@[t - 1]);
                            }
                        }
                    }
                }
                return Some(p);
            }
            t -= 1;
        }
        proof {
            assert forall|q: int| 0 <= q < self.keys.len() implies self.keys@[q]@ != key@ by {
                if self.keys@[q]@ == key@ {
                    let bq = bucket_of(self.keys@[q]@, nb as nat);
                    assert(self.buckets@[bq]@.contains(q as usize));
                    let s = choose|s: int|
                        0 <= s < self.buckets@[bq]@.len() && self.buckets@[bq]@[s] == q as usize;
                }
            }
        }
        None
    }
}

/// Whether two lists of `u32` are equal.
pub fn eq_u32s(a: &Vec<u32>, b: &Vec<u32>) -> (r: bool)
    ensures
        r == (a@ == b@),
{
    if a.len() != b.len() {
        return false;
    }
    let mut i: usize = 0;
    while i < a.len()
        invariant
            i <= a.len() == b.len(),
            forall|j: int| 0 <= j < i ==> a@[j] == b@[j],
        decreases a.len() - i,
    {
        if a[i] != b[i] {
            return false;
        }
        i += 1;
    }
    proof {
        assert(a@ =~= b@);
    }
    true
}

/// The values `s` in nondecreasing order.
pub fn sorted_copy(s: &Vec<u32>) -> (r: Vec<u32>)
    ensures
        sorted_u32(r@),
        r@.to_multiset() == s@.to_multiset(),
        r@.len() == s@.len(),
{
    broadcast use vstd::seq_lib::group_to_multiset_ensures;

    let mut r: Vec<u32> = Vec::new();
    let mut i: usize = 0;
    while i < s.len()
        invariant
            i <= s.len(),
            sorted_u32(r@),
            r@.to_multiset() == s@.take(i as int).to_multiset(),
            r@.len() == i,
        decreases s.len() - i,
    {
        let x = s[i];
        let mut pos: usize = 0;
        while pos < r.len() && r[pos] <= x
            invariant
                pos <= r.len(),
                forall|j: int| 0 <= j < pos ==> r@[j] <= x,
            decreases r.len() - pos,
        {
            pos += 1;
        }
        let ghost old_r = r@;
        r.insert(pos, x);
        proof {
            assert(s@.take(i + 1) =~= s@.take(i as int).push(x));
            assert(s@.take(i as int).push(x) =~= s@.take(i as int).insert(i as int, x));
            vstd::seq_lib::to_multiset_insert(s@.take(i as int), i as int, x);
            assert(r@ == old_r.insert(pos as int, x));
            vstd::seq_lib::to_multiset_insert(old_r, pos as int, x);
            assert forall|a: int, b: int| 0 <= a < b < r@.len() implies r@[a] <= r@[b] by {
                if b < pos {
                } else if b == pos {
                    assert(r@[a] == old_r[a]);
                } else if a == pos {
                    assert(r@[b] == old_r[b - 1]);
                    assert(old_r[pos as int] > x);
                } else if a < pos {
                    assert(r@[a] == old_r[a]);
                    assert(r@[b] == old_r[b - 1]);
                } else {
                    assert(r@[a] == old_r[a - 1]);
                    assert(r@[b] == old_r[b - 1]);
                }
            }
        }
        i += 1;
    }
    proof {
        assert(s@.take(s.len() as int) =~= s@);
    }
    r
}

} // verus!
