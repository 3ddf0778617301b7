//! The two staged indices: file paths grouped by size, then by digest.
//!
//! Both stages are the same multimap shape: an insertion-ordered sequence of
//! buckets, each holding a key and the paths seen under that key. The spec
//! functions `mm_insert`, `mm_prune`, `mm_has_key` and `mm_bucket` give the
//! mathematical account that every contract below is stated over.

use vstd::prelude::*;

verus! {

/// Inserting a path under a key: the first bucket with that key gets the path
/// appended; if no bucket has the key, a fresh bucket is appended at the end.
pub open spec fn mm_insert<K>(
    m: Seq<(K, Seq<Seq<char>>)>,
    k: K,
    p: Seq<char>,
) -> Seq<(K, Seq<Seq<char>>)>
    decreases m.len(),
{
    if m.len() == 0 {
        seq![(k, seq![p])]
    } else if m[0].0 == k {
        seq![(m[0].0, m[0].1.push(p))] + m.drop_first()
    } else {
        seq![m[0]] + mm_insert(m.drop_first(), k, p)
    }
}

/// Pruning keeps exactly the buckets that hold at least two paths.
pub open spec fn mm_prune<K>(m: Seq<(K, Seq<Seq<char>>)>) -> Seq<(K, Seq<Seq<char>>)> {
    m.filter(|b: (K, Seq<Seq<char>>)| b.1.len() >= 2)
}

/// Whether some bucket carries the key `k`.
pub open spec fn mm_has_key<K>(m: Seq<(K, Seq<Seq<char>>)>, k: K) -> bool
    decreases m.len(),
{
    if m.len() == 0 {
        false
    } else {
        m[0].0 == k || mm_has_key(m.drop_first(), k)
    }
}

/// The paths stored under key `k`; empty if no bucket carries it.
pub open spec fn mm_bucket<K>(m: Seq<(K, Seq<Seq<char>>)>, k: K) -> Seq<Seq<char>>
    decreases m.len(),
{
    if m.len() == 0 {
        Seq::empty()
    } else if m[0].0 == k {
        m[0].1
    } else {
        mm_bucket(m.drop_first(), k)
    }
}

/// No two buckets share a key.
pub open spec fn mm_keys_unique<K>(m: Seq<(K, Seq<Seq<char>>)>) -> bool {
    forall|i: int, j: int| 0 <= i < j < m.len() ==> m[i].0 != m[j].0
}

/// Every bucket holds at least one path.
pub open spec fn mm_nonempty<K>(m: Seq<(K, Seq<Seq<char>>)>) -> bool {
    forall|i: int| 0 <= i < m.len() ==> #[trigger] m[i].1.len() >= 1
}

/// The invariant both indices keep: unique keys, no empty bucket.
pub open spec fn mm_wf<K>(m: Seq<(K, Seq<Seq<char>>)>) -> bool {
    mm_keys_unique(m) && mm_nonempty(m)
}

pub proof fn lemma_mm_has_key_index<K>(m: Seq<(K, Seq<Seq<char>>)>, k: K)
    ensures
        mm_has_key(m, k) <==> exists|i: int| 0 <= i < m.len() && m[i].0 == k,
    decreases m.len(),
{
    if m.len() > 0 {
        lemma_mm_has_key_index(m.drop_first(), k);
        if m[0].0 == k {
            assert(m[0].0 == k && 0 <= 0 < m.len());
        } else if mm_has_key(m.drop_first(), k) {
            let i = choose|i: int| 0 <= i < m.drop_first().len() && m.drop_first()[i].0 == k;
            assert(m[i + 1].0 == k);
        } else if exists|i: int| 0 <= i < m.len() && m[i].0 == k {
            let i = choose|i: int| 0 <= i < m.len() && m[i].0 == k;
            assert(m.drop_first()[i - 1].0 == k);
        }
    }
}

/// What one insertion does to the bucket and presence of a single key `k2`.
pub proof fn lemma_mm_insert_key<K>(m: Seq<(K, Seq<Seq<char>>)>, k: K, p: Seq<char>, k2: K)
    ensures
        mm_has_key(mm_insert(m, k, p), k2) <==> (k2 == k || mm_has_key(m, k2)),
        mm_bucket(mm_insert(m, k, p), k2) == if k2 == k {
            mm_bucket(m, k).push(p)
        } else {
            mm_bucket(m, k2)
        },
    decreases m.len(),
{
    let r = mm_insert(m, k, p);
    if m.len() == 0 {
        let tail = r.drop_first();
        assert(tail =~= Seq::<(K, Seq<Seq<char>>)>::empty());
        assert(!mm_has_key(tail, k2));
        assert(mm_bucket(tail, k2) =~= Seq::<Seq<char>>::empty());
        assert(r[0].0 == k);
        if k2 == k {
            assert(mm_bucket(m, k).push(p) =~= seq![p]);
        }
    } else if m[0].0 == k {
        assert(r == seq![(m[0].0, m[0].1.push(p))] + m.drop_first());
        assert(r.drop_first() =~= m.drop_first());
        assert(r[0].0 == k);
        if k2 == k {
            assert(mm_bucket(r, k2) == m[0].1.push(p));
        }
    } else {
        lemma_mm_insert_key(m.drop_first(), k, p, k2);
        assert(r == seq![m[0]] + mm_insert(m.drop_first(), k, p));
        assert(r.drop_first() =~= mm_insert(m.drop_first(), k, p));
        assert(r[0] == m[0]);
    }
}

/// Insertion keeps the index well formed.
pub proof fn lemma_mm_insert_wf<K>(m: Seq<(K, Seq<Seq<char>>)>, k: K, p: Seq<char>)
    requires
        mm_wf(m),
    ensures
        mm_wf(mm_insert(m, k, p)),
    decreases m.len(),
{
    let r = mm_insert(m, k, p);
    if m.len() == 0 {
        assert(r == seq![(k, seq![p])]);
        assert(mm_keys_unique(r));
        assert(r[0].1.len() == 1);
        assert(mm_nonempty(r));
    } else if m[0].0 == k {
        assert(r == seq![(m[0].0, m[0].1.push(p))] + m.drop_first());
        assert forall|i: int, j: int| 0 <= i < j < r.len() implies r[i].0 != r[j].0 by {
            assert(r[i].0 == m[i].0);
            assert(r[j].0 == m[j].0);
        }
        assert forall|i: int| 0 <= i < r.len() implies #[trigger] r[i].1.len() >= 1 by {
            if i == 0 {
                assert(r[0].1 == m[0].1.push(p));
            } else {
                assert(r[i] == m[i]);
            }
        }
    } else {
        let tail = m.drop_first();
        assert(mm_wf(tail)) by {
            assert(forall|i: int, j: int|
                0 <= i < j < tail.len() ==> tail[i].0 != tail[j].0) by {
                assert(forall|i: int, j: int|
                    0 <= i < j < tail.len() ==> (m[i + 1].0 != m[j + 1].0 && tail[i] == m[i + 1]
                        && tail[j] == m[j + 1]));
            }
            assert(forall|i: int| 0 <= i < tail.len() ==> #[trigger] tail[i].1.len() >= 1) by {
                assert(forall|i: int|
                    0 <= i < tail.len() ==> tail[i] == m[i + 1] && m[i + 1].1.len() >= 1);
            }
        }
        lemma_mm_insert_wf(tail, k, p);
        let rt = mm_insert(tail, k, p);
        assert(r == seq![m[0]] + rt);
        // the head key occurs nowhere in the inserted tail
        assert(!mm_has_key(tail, m[0].0)) by {
            lemma_mm_has_key_index(tail, m[0].0);
            if exists|i: int| 0 <= i < tail.len() && tail[i].0 == m[0].0 {
                let i = choose|i: int| 0 <= i < tail.len() && tail[i].0 == m[0].0;
                assert(m[i + 1].0 == m[0].0);
                assert(false);
            }
        }
        lemma_mm_insert_key(tail, k, p, m[0].0);
        assert(!mm_has_key(rt, m[0].0));
        lemma_mm_has_key_index(rt, m[0].0);
        assert forall|i: int, j: int| 0 <= i < j < r.len() implies r[i].0 != r[j].0 by {
            if i == 0 {
                assert(r[j] == rt[j - 1]);
                if r[j].0 == m[0].0 {
                    assert(0 <= j - 1 < rt.len() && rt[j - 1].0 == m[0].0);
                    assert(false);
                }
            } else {
                assert(r[i] == rt[i - 1]);
                assert(r[j] == rt[j - 1]);
            }
        }
        assert forall|i: int| 0 <= i < r.len() implies #[trigger] r[i].1.len() >= 1 by {
            if i == 0 {
                assert(r[0] == m[0]);
            } else {
                assert(r[i] == rt[i - 1]);
            }
        }
    }
}

/// Splitting off the last bucket, for one key `k`.
proof fn lemma_mm_split_last_key<K>(m: Seq<(K, Seq<Seq<char>>)>, k: K)
    requires
        m.len() >= 1,
        mm_keys_unique(m),
    ensures
        mm_has_key(m, k) <==> (mm_has_key(m.drop_last(), k) || m.last().0 == k),
        k != m.last().0 ==> mm_bucket(m, k) == mm_bucket(m.drop_last(), k),
        k == m.last().0 ==> mm_bucket(m, k) == m.last().1,
    decreases m.len(),
{
    let front = m.drop_last();
    let last = m.last();
    if m.len() == 1 {
        assert(front =~= Seq::<(K, Seq<Seq<char>>)>::empty());
        assert(m[0] == last);
        let tail = m.drop_first();
        assert(tail =~= Seq::<(K, Seq<Seq<char>>)>::empty());
        assert(!mm_has_key(tail, k));
        assert(mm_bucket(tail, k) =~= Seq::<Seq<char>>::empty());
        assert(!mm_has_key(front, k));
        assert(mm_bucket(front, k) =~= Seq::<Seq<char>>::empty());
    } else {
        let tail = m.drop_first();
        assert(mm_keys_unique(tail)) by {
            assert(forall|i: int, j: int|
                0 <= i < j < tail.len() ==> (tail[i] == m[i + 1] && tail[j] == m[j + 1] && m[i
                    + 1].0 != m[j + 1].0));
        }
        lemma_mm_split_last_key(tail, k);
        assert(tail.drop_last() =~= front.drop_first());
        assert(tail.last() == last) by {
            assert(tail[tail.len() - 1] == m[m.len() - 1]);
        }
        assert(front[0] == m[0]);
        assert(front.len() >= 1);
        assert(mm_has_key(m, k) == (m[0].0 == k || mm_has_key(tail, k)));
        assert(mm_has_key(front, k) == (front[0].0 == k || mm_has_key(front.drop_first(), k)));
        assert(mm_bucket(m, k) == if m[0].0 == k {
            m[0].1
        } else {
            mm_bucket(tail, k)
        });
        assert(mm_bucket(front, k) == if front[0].0 == k {
            front[0].1
        } else {
            mm_bucket(front.drop_first(), k)
        });
        if m[0].0 == k && k == last.0 {
            assert(m[0].0 == m[m.len() - 1].0);
            assert(false);
        }
    }
}

/// Pruning keeps the well-formedness invariant, keeps exactly the keys whose
/// bucket held two or more paths, and does not touch a surviving bucket.
pub proof fn lemma_mm_prune_props<K>(m: Seq<(K, Seq<Seq<char>>)>)
    requires
        mm_wf(m),
    ensures
        mm_wf(mm_prune(m)),
        forall|i: int| 0 <= i < mm_prune(m).len() ==> #[trigger] mm_prune(m)[i].1.len() >= 2,
        forall|k: K|
            mm_has_key(mm_prune(m), k) <==> (mm_has_key(m, k) && mm_bucket(m, k).len() >= 2),
        forall|k: K|
            mm_has_key(mm_prune(m), k) ==> mm_bucket(mm_prune(m), k) == mm_bucket(m, k),
    decreases m.len(),
{
    let pred = |b: (K, Seq<Seq<char>>)| b.1.len() >= 2;
    reveal(Seq::filter);
    if m.len() == 0 {
        assert(m.filter(pred) =~= Seq::<(K, Seq<Seq<char>>)>::empty());
        assert forall|k: K| !mm_has_key(mm_prune(m), k) by {
            assert(mm_prune(m).len() == 0);
        }
    } else {
        let last = m.last();
        let front = m.drop_last();
        assert(mm_wf(front)) by {
            assert(forall|i: int, j: int|
                0 <= i < j < front.len() ==> (front[i] == m[i] && front[j] == m[j] && m[i].0
                    != m[j].0));
            assert(forall|i: int|
                0 <= i < front.len() ==> (front[i] == m[i] && m[i].1.len() >= 1));
        }
        lemma_mm_prune_props(front);
        assert(m == front.push(last));
        Seq::lemma_filter_push(front, last, pred);
        let pf = mm_prune(front);
        if pred(last) {
            let r = pf.push(last);
            assert(mm_prune(m) == r);
            // the pushed key is new to the pruned front
            assert(!mm_has_key(pf, last.0)) by {
                if mm_has_key(pf, last.0) {
                    assert(mm_has_key(front, last.0));
                    lemma_mm_has_key_index(front, last.0);
                    let i = choose|i: int| 0 <= i < front.len() && front[i].0 == last.0;
                    assert(m[i].0 == m[m.len() - 1].0);
                    assert(false);
                }
            }
            assert(mm_keys_unique(r)) by {
                lemma_mm_has_key_index(pf, last.0);
                assert forall|i: int, j: int| 0 <= i < j < r.len() implies r[i].0 != r[j].0 by {
                    if j < r.len() - 1 {
                        assert(r[i] == pf[i] && r[j] == pf[j]);
                    } else {
                        assert(r[i] == pf[i] && r[j] == last);
                        if pf[i].0 == last.0 {
                            assert(0 <= i < pf.len() && pf[i].0 == last.0);
                            assert(false);
                        }
                    }
                }
            }
            assert(mm_nonempty(r)) by {
                assert(forall|i: int| 0 <= i < r.len() - 1 ==> r[i] == pf[i]);
                assert(r[r.len() - 1] == last);
            }
            assert forall|i: int| 0 <= i < r.len() implies #[trigger] r[i].1.len() >= 2 by {
                if i < r.len() - 1 {
                    assert(r[i] == pf[i]);
                } else {
                    assert(r[i] == last);
                }
            }
            assert(r.drop_last() =~= pf);
            assert(r.last() == last);
            assert forall|k: K| mm_has_key(r, k) <==> (mm_has_key(m, k) && mm_bucket(m, k).len()
                >= 2) by {
                lemma_mm_split_last_key(r, k);
                lemma_mm_split_last_key(m, k);
            }
            assert forall|k: K| mm_has_key(r, k) implies mm_bucket(r, k) == mm_bucket(m, k) by {
                lemma_mm_split_last_key(r, k);
                lemma_mm_split_last_key(m, k);
            }
        } else {
            assert(mm_prune(m) == pf);
            assert forall|k: K| mm_has_key(pf, k) <==> (mm_has_key(m, k) && mm_bucket(m, k).len()
                >= 2) by {
                lemma_mm_split_last_key(m, k);
                if k == last.0 {
                    assert(!mm_has_key(front, k)) by {
                        lemma_mm_has_key_index(front, k);
                        if exists|i: int| 0 <= i < front.len() && front[i].0 == k {
                            let i = choose|i: int| 0 <= i < front.len() && front[i].0 == k;
                            assert(m[i].0 == m[m.len() - 1].0);
                            assert(false);
                        }
                    }
                }
            }
            assert forall|k: K| mm_has_key(pf, k) implies mm_bucket(pf, k) == mm_bucket(m, k) by {
                lemma_mm_split_last_key(m, k);
                if k == last.0 {
                    assert(!mm_has_key(front, k)) by {
                        lemma_mm_has_key_index(front, k);
                        if exists|i: int| 0 <= i < front.len() && front[i].0 == k {
                            let i = choose|i: int| 0 <= i < front.len() && front[i].0 == k;
                            assert(m[i].0 == m[m.len() - 1].0);
                            assert(false);
                        }
                    }
                }
            }
        }
    }
}

/// First-match insertion seen positionally: when the first bucket carrying
/// the key stands at `i`, inserting updates exactly that bucket.
pub proof fn lemma_mm_insert_at<K>(m: Seq<(K, Seq<Seq<char>>)>, k: K, p: Seq<char>, i: int)
    requires
        0 <= i < m.len(),
        m[i].0 == k,
        forall|l: int| 0 <= l < i ==> m[l].0 != k,
    ensures
        mm_insert(m, k, p) == m.update(i, (k, m[i].1.push(p))),
    decreases i,
{
    if i == 0 {
        assert(mm_insert(m, k, p) == seq![(m[0].0, m[0].1.push(p))] + m.drop_first());
        assert(seq![(m[0].0, m[0].1.push(p))] + m.drop_first() =~= m.update(
            0,
            (k, m[0].1.push(p)),
        ));
    } else {
        let tail = m.drop_first();
        assert(forall|l: int| 0 <= l < i - 1 ==> tail[l].0 != k) by {
            assert(forall|l: int| 0 <= l < i - 1 ==> tail[l] == m[l + 1]);
        }
        assert(tail[i - 1] == m[i]);
        lemma_mm_insert_at(tail, k, p, i - 1);
        assert(mm_insert(m, k, p) == seq![m[0]] + tail.update(i - 1, (k, tail[i - 1].1.push(p))));
        assert(seq![m[0]] + tail.update(i - 1, (k, tail[i - 1].1.push(p))) =~= m.update(
            i,
            (k, m[i].1.push(p)),
        ));
    }
}

/// When no bucket carries the key, inserting appends a fresh bucket.
pub proof fn lemma_mm_insert_append<K>(m: Seq<(K, Seq<Seq<char>>)>, k: K, p: Seq<char>)
    requires
        forall|l: int| 0 <= l < m.len() ==> m[l].0 != k,
    ensures
        mm_insert(m, k, p) == m.push((k, seq![p])),
    decreases m.len(),
{
    if m.len() == 0 {
        assert(mm_insert(m, k, p) =~= m.push((k, seq![p])));
    } else {
        let tail = m.drop_first();
        assert(forall|l: int| 0 <= l < tail.len() ==> tail[l].0 != k) by {
            assert(forall|l: int| 0 <= l < tail.len() ==> tail[l] == m[l + 1]);
        }
        lemma_mm_insert_append(tail, k, p);
        assert(mm_insert(m, k, p) == seq![m[0]] + tail.push((k, seq![p])));
        assert(seq![m[0]] + tail.push((k, seq![p])) =~= m.push((k, seq![p])));
    }
}

/// One size bucket: a file size and the paths seen with that size,
/// in insertion order.
pub struct SizeBucket {
    pub size: u64,
    pub paths: Vec<String>,
}

impl View for SizeBucket {
    type V = (u64, Seq<Seq<char>>);

    open spec fn view(&self) -> Self::V {
        (self.size, self.paths.deep_view())
    }
}

/// The size index: paths grouped by file size.
pub struct SizeIndex {
    pub buckets: Vec<SizeBucket>,
}

impl View for SizeIndex {
    type V = Seq<(u64, Seq<Seq<char>>)>;

    open spec fn view(&self) -> Self::V {
        self.buckets@.map_values(|b: SizeBucket| b@)
    }
}

/// One hash bucket: a digest rendered as 128 upper-case hex characters and
/// the paths whose content hashed to it, in insertion order.
pub struct HashBucket {
    pub digest: String,
    pub paths: Vec<String>,
}

impl View for HashBucket {
    type V = (Seq<char>, Seq<Seq<char>>);

    open spec fn view(&self) -> Self::V {
        (self.digest@, self.paths.deep_view())
    }
}

/// The hash index: paths grouped by content digest.
pub struct HashIndex {
    pub buckets: Vec<HashBucket>,
}

impl View for HashIndex {
    type V = Seq<(Seq<char>, Seq<Seq<char>>)>;

    open spec fn view(&self) -> Self::V {
        self.buckets@.map_values(|b: HashBucket| b@)
    }
}

impl SizeIndex {
    pub open spec fn wf(&self) -> bool {
        mm_wf(self@)
    }

    pub fn new() -> (r: SizeIndex)
        ensures
            r@ == Seq::<(u64, Seq<Seq<char>>)>::empty(),
            r.wf(),
    {
        let r = SizeIndex { buckets: Vec::new() };
        proof {
            assert(r@ =~= Seq::<(u64, Seq<Seq<char>>)>::empty());
        }
        r
    }

    /// Whether some bucket already carries this size.
    #[verifier::loop_isolation(false)]
    pub fn contains_size(&self, size: u64) -> (r: bool)
        ensures
            r == mm_has_key(self@, size),
    {
        proof {
            lemma_mm_has_key_index(self@, size);
        }
        let n = self.buckets.len();
        let mut i: usize = 0;
        while i < n
            invariant
                i <= n,
                n == self.buckets.len(),
                forall|l: int| 0 <= l < i ==> self@[l].0 != size,
            decreases n - i,
        {
            if self.buckets[i].size == size {
                proof {
                    assert(self@[i as int].0 == size);
                }
                return true;
            }
            i += 1;
        }
        false
    }
}

impl HashIndex {
    pub open spec fn wf(&self) -> bool {
        mm_wf(self@)
    }

    pub fn new() -> (r: HashIndex)
        ensures
            r@ == Seq::<(Seq<char>, Seq<Seq<char>>)>::empty(),
            r.wf(),
    {
        let r = HashIndex { buckets: Vec::new() };
        proof {
            assert(r@ =~= Seq::<(Seq<char>, Seq<Seq<char>>)>::empty());
        }
        r
    }

    /// Append `path` to the bucket keyed by `digest`, creating the bucket at
    /// the end if the digest is new.
    #[verifier::loop_isolation(false)]
    pub fn add_path(&mut self, digest: String, path: String)
        requires
            old(self).wf(),
        ensures
            final(self).wf(),
            final(self)@ == mm_insert(old(self)@, digest@, path@),
    {
        proof {
            lemma_mm_insert_wf(old(self)@, digest@, path@);
        }
        let n = self.buckets.len();
        let mut i: usize = 0;
        while i < n
            invariant
                i <= n,
                n == self.buckets.len(),
                *self == *old(self),
                forall|l: int| 0 <= l < i ==> old(self)@[l].0 != digest@,
            decreases n - i,
        {
            if self.buckets[i].digest == digest {
                proof {
                    assert(old(self)@[i as int].0 == digest@);
                    lemma_mm_insert_at(old(self)@, digest@, path@, i as int);
                }
                let mut b = self.buckets.remove(i);
                b.paths.push(path);
                self.buckets.insert(i, b);
                proof {
                    assert(self@ =~~= old(self)@.update(
                        i as int,
                        (digest@, old(self)@[i as int].1.push(path@)),
                    ));
                }
                return ;
            }
            i += 1;
        }
        proof {
            lemma_mm_insert_append(old(self)@, digest@, path@);
        }
        self.buckets.push(HashBucket { digest, paths: vec![path] });
        proof {
            assert(self@ =~~= old(self)@.push((digest@, seq![path@])));
        }
    }
}

/// Append `path` to the size bucket keyed by `size`, creating the bucket at
/// the end if the size is new.
#[verifier::loop_isolation(false)]
pub fn add_to_dict(dict: &mut SizeIndex, size: u64, path: String)
    requires
        old(dict).wf(),
    ensures
        final(dict).wf(),
        final(dict)@ == mm_insert(old(dict)@, size, path@),
{
    proof {
        lemma_mm_insert_wf(old(dict)@, size, path@);
    }
    let n = dict.buckets.len();
    let mut i: usize = 0;
    while i < n
        invariant
            i <= n,
            n == dict.buckets.len(),
            *dict == *old(dict),
            forall|l: int| 0 <= l < i ==> old(dict)@[l].0 != size,
        decreases n - i,
    {
        if dict.buckets[i].size == size {
            proof {
                assert(old(dict)@[i as int].0 == size);
                lemma_mm_insert_at(old(dict)@, size, path@, i as int);
            }
            let mut b = dict.buckets.remove(i);
            b.paths.push(path);
            dict.buckets.insert(i, b);
            proof {
                assert(dict@ =~~= old(dict)@.update(
                    i as int,
                    (size, old(dict)@[i as int].1.push(path@)),
                ));
            }
            return ;
        }
        i += 1;
    }
    proof {
        lemma_mm_insert_append(old(dict)@, size, path@);
    }
    dict.buckets.push(SizeBucket { size, paths: vec![path] });
    proof {
        assert(dict@ =~~= old(dict)@.push((size, seq![path@])));
    }
}

/// Drop every size bucket holding exactly one path; what survives keeps its
/// order, and every survivor holds at least two paths.
#[verifier::loop_isolation(false)]
pub fn remove_uniques(dict: &mut SizeIndex)
    requires
        old(dict).wf(),
    ensures
        final(dict).wf(),
        final(dict)@ == mm_prune(old(dict)@),
        forall|i: int| 0 <= i < final(dict)@.len() ==> #[trigger] final(dict)@[i].1.len() >= 2,
{
    proof {
        lemma_mm_prune_props(old(dict)@);
    }
    let ghost m = old(dict)@;
    let ghost pred = |b: (u64, Seq<Seq<char>>)| b.1.len() >= 2;
    let mut kept: Vec<SizeBucket> = Vec::new();
    let ghost mut consumed: int = 0;
    proof {
        assert(m.take(0) =~= Seq::<(u64, Seq<Seq<char>>)>::empty());
        reveal(Seq::filter);
    }
    while dict.buckets.len() > 0
        invariant
            0 <= consumed <= m.len(),
            dict@ =~~= m.skip(consumed),
            kept@.map_values(|b: SizeBucket| b@) =~~= m.take(consumed).filter(pred),
            pred == (|b: (u64, Seq<Seq<char>>)| b.1.len() >= 2),
        decreases dict.buckets.len(),
    {
        proof {
            assert(dict@.len() == dict.buckets@.len());
            assert(consumed < m.len());
        }
        let ghost prev = dict.buckets@;
        let b = dict.buckets.remove(0);
        proof {
            assert(b == prev[0]);
            assert(b@ == prev[0]@);
            assert(prev[0]@ == m.skip(consumed)[0]);
            assert(b@ == m[consumed]);
            assert(m.take(consumed + 1) =~= m.take(consumed).push(m[consumed]));
            Seq::lemma_filter_push(m.take(consumed), m[consumed], pred);
            assert(b@.1.len() == b.paths@.len());
        }
        if b.paths.len() >= 2 {
            kept.push(b);
        }
        proof {
            assert(kept@.map_values(|bb: SizeBucket| bb@) =~~= m.take(consumed + 1).filter(pred));
        }
        proof {
            consumed = consumed + 1;
            assert(dict.buckets@ =~= prev.remove(0));
            assert forall|l: int| 0 <= l < dict@.len() implies dict@[l] == m.skip(consumed)[l] by {
                assert(dict.buckets@[l] == prev[l + 1]);
                assert(dict@[l] == dict.buckets@[l]@);
                assert(prev[l + 1]@ == m.skip(consumed - 1)[l + 1]);
                assert(m.skip(consumed)[l] == m[consumed + l]);
            }
            assert(dict@ =~~= m.skip(consumed));
        }
    }
    dict.buckets = kept;
    proof {
        assert(m.take(consumed) =~= m);
        assert(dict@ =~~= mm_prune(m));
    }
}

/// Drop every hash bucket holding exactly one path; what survives keeps its
/// order, and every survivor holds at least two paths.
#[verifier::loop_isolation(false)]
pub fn remove_uniques_(dict: &mut HashIndex)
    requires
        old(dict).wf(),
    ensures
        final(dict).wf(),
        final(dict)@ == mm_prune(old(dict)@),
        forall|i: int| 0 <= i < final(dict)@.len() ==> #[trigger] final(dict)@[i].1.len() >= 2,
{
    proof {
        lemma_mm_prune_props(old(dict)@);
    }
    let ghost m = old(dict)@;
    let ghost pred = |b: (Seq<char>, Seq<Seq<char>>)| b.1.len() >= 2;
    let mut kept: Vec<HashBucket> = Vec::new();
    let ghost mut consumed: int = 0;
    proof {
        assert(m.take(0) =~= Seq::<(Seq<char>, Seq<Seq<char>>)>::empty());
        reveal(Seq::filter);
    }
    while dict.buckets.len() > 0
        invariant
            0 <= consumed <= m.len(),
            dict@ =~~= m.skip(consumed),
            kept@.map_values(|b: HashBucket| b@) =~~= m.take(consumed).filter(pred),
            pred == (|b: (Seq<char>, Seq<Seq<char>>)| b.1.len() >= 2),
        decreases dict.buckets.len(),
    {
        proof {
            assert(dict@.len() == dict.buckets@.len());
            assert(consumed < m.len());
        }
        let ghost prev = dict.buckets@;
        let b = dict.buckets.remove(0);
        proof {
            assert(b@ == prev[0]@);
            assert(prev[0]@ == m.skip(consumed)[0]);
            assert(b@ == m[consumed]);
            assert(m.take(consumed + 1) =~= m.take(consumed).push(m[consumed]));
            Seq::lemma_filter_push(m.take(consumed), m[consumed], pred);
            assert(b@.1.len() == b.paths@.len());
        }
        if b.paths.len() >= 2 {
            kept.push(b);
        }
        proof {
            assert(kept@.map_values(|bb: HashBucket| bb@) =~~= m.take(consumed + 1).filter(pred));
        }
        proof {
            consumed = consumed + 1;
            assert(dict.buckets@ =~= prev.remove(0));
            assert forall|l: int| 0 <= l < dict@.len() implies dict@[l] == m.skip(consumed)[l] by {
                assert(dict.buckets@[l] == prev[l + 1]);
                assert(dict@[l] == dict.buckets@[l]@);
                assert(prev[l + 1]@ == m.skip(consumed - 1)[l + 1]);
                assert(m.skip(consumed)[l] == m[consumed + l]);
            }
            assert(dict@ =~~= m.skip(consumed));
        }
    }
    dict.buckets = kept;
    proof {
        assert(m.take(consumed) =~= m);
        assert(dict@ =~~= mm_prune(m));
    }
}

} // verus!
