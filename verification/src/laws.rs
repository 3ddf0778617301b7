//! The model of one run and the laws proved over it.
//!
//! A run is modelled by the sequence of records the walk produced, each a
//! pair of path and content bytes. `spec_pipeline` (in `pipeline`) gives the
//! reported groups as a pure function of that sequence; the lemmas here
//! characterise membership in those groups by counting records, and derive
//! the library's laws from that characterisation.

use vstd::prelude::*;
use vstd::multiset::Multiset;
use crate::digest::blake2b_of;
use crate::hex::lemma_hex_of_injective;
use crate::index::{
    lemma_mm_insert_key, lemma_mm_insert_wf, lemma_mm_prune_props, mm_bucket, mm_has_key,
    mm_insert, mm_prune, mm_wf,
};
use crate::pipeline::{
    hash_fold, rec_digest, rec_size, size_fold, spec_pipeline, spec_size_index,
};

verus! {

/// The path component of a record, as a function value.
pub open spec fn path_fn() -> spec_fn((Seq<char>, Seq<u8>)) -> Seq<char> {
    |r: (Seq<char>, Seq<u8>)| r.0
}

/// Records of one size.
pub open spec fn size_pred(s: u64) -> spec_fn((Seq<char>, Seq<u8>)) -> bool {
    |r: (Seq<char>, Seq<u8>)| rec_size(r) == s
}

/// Records hashed in the second stage (their size survived pruning) whose
/// digest is `d`.
pub open spec fn hash_pred(sizes: Seq<(u64, Seq<Seq<char>>)>, d: Seq<char>) -> spec_fn(
    (Seq<char>, Seq<u8>),
) -> bool {
    |r: (Seq<char>, Seq<u8>)| mm_has_key(sizes, rec_size(r)) && rec_digest(r) == d
}

/// A predicate narrowed to one path.
pub open spec fn with_path(
    pred: spec_fn((Seq<char>, Seq<u8>)) -> bool,
    p: Seq<char>,
) -> spec_fn((Seq<char>, Seq<u8>)) -> bool {
    |r: (Seq<char>, Seq<u8>)| pred(r) && r.0 == p
}

/// How many records of `files` have size `s`.
pub open spec fn size_count(files: Seq<(Seq<char>, Seq<u8>)>, s: u64) -> int {
    files.filter(size_pred(s)).len() as int
}

/// How many records of `files` the run would hash into the group keyed `d`.
pub open spec fn group_count(files: Seq<(Seq<char>, Seq<u8>)>, d: Seq<char>) -> int {
    files.filter(hash_pred(spec_size_index(files), d)).len() as int
}

/// How many of those records carry the path `p`.
pub open spec fn member_count(files: Seq<(Seq<char>, Seq<u8>)>, d: Seq<char>, p: Seq<char>) -> int {
    files.filter(with_path(hash_pred(spec_size_index(files), d), p)).len() as int
}

/// The counting account of one run: path `p` stands in the group keyed `d`
/// exactly when some hashed record carries that path and digest, and at
/// least two hashed records carry that digest.
pub open spec fn reported(files: Seq<(Seq<char>, Seq<u8>)>, d: Seq<char>, p: Seq<char>) -> bool {
    member_count(files, d, p) >= 1 && group_count(files, d) >= 2
}

/// Membership of a path in a grouping: some bucket is keyed `d` and holds `p`.
pub open spec fn in_groups(
    m: Seq<(Seq<char>, Seq<Seq<char>>)>,
    d: Seq<char>,
    p: Seq<char>,
) -> bool {
    mm_has_key(m, d) && mm_bucket(m, d).contains(p)
}

/// Folding one more record over the size index is one more insertion.
proof fn lemma_size_fold_snoc(
    m: Seq<(u64, Seq<Seq<char>>)>,
    files: Seq<(Seq<char>, Seq<u8>)>,
    r: (Seq<char>, Seq<u8>),
)
    ensures
        size_fold(m, files.push(r)) == mm_insert(size_fold(m, files), rec_size(r), r.0),
    decreases files.len(),
{
    if files.len() == 0 {
        assert(files.push(r)[0] == r);
        assert(files.push(r).drop_first() =~= Seq::<(Seq<char>, Seq<u8>)>::empty());
        assert(size_fold(mm_insert(m, rec_size(r), r.0), files.push(r).drop_first())
            == mm_insert(m, rec_size(r), r.0));
        assert(size_fold(m, files) == m);
    } else {
        assert(files.push(r)[0] == files[0]);
        assert(files.push(r).drop_first() =~= files.drop_first().push(r));
        lemma_size_fold_snoc(mm_insert(m, rec_size(files[0]), files[0].0), files.drop_first(), r);
    }
}

/// Folding one more record over the hash index is one more insertion when
/// its size survived, and nothing otherwise.
proof fn lemma_hash_fold_snoc(
    h: Seq<(Seq<char>, Seq<Seq<char>>)>,
    files: Seq<(Seq<char>, Seq<u8>)>,
    sizes: Seq<(u64, Seq<Seq<char>>)>,
    r: (Seq<char>, Seq<u8>),
)
    ensures
        hash_fold(h, files.push(r), sizes) == if mm_has_key(sizes, rec_size(r)) {
            mm_insert(hash_fold(h, files, sizes), rec_digest(r), r.0)
        } else {
            hash_fold(h, files, sizes)
        },
    decreases files.len(),
{
    if files.len() == 0 {
        assert(files.push(r)[0] == r);
        let tail = files.push(r).drop_first();
        assert(tail =~= Seq::<(Seq<char>, Seq<u8>)>::empty());
        if mm_has_key(sizes, rec_size(r)) {
            assert(hash_fold(h, files.push(r), sizes) == hash_fold(
                mm_insert(h, rec_digest(r), r.0),
                tail,
                sizes,
            ));
            assert(hash_fold(mm_insert(h, rec_digest(r), r.0), tail, sizes) == mm_insert(
                h,
                rec_digest(r),
                r.0,
            ));
        } else {
            assert(hash_fold(h, files.push(r), sizes) == hash_fold(h, tail, sizes));
            assert(hash_fold(h, tail, sizes) == h);
        }
        assert(hash_fold(h, files, sizes) == h);
    } else {
        assert(files.push(r)[0] == files[0]);
        assert(files.push(r).drop_first() =~= files.drop_first().push(r));
        let h2 = if mm_has_key(sizes, rec_size(files[0])) {
            mm_insert(h, rec_digest(files[0]), files[0].0)
        } else {
            h
        };
        lemma_hash_fold_snoc(h2, files.drop_first(), sizes, r);
    }
}

/// The size index a walk builds holds, under each size, exactly the paths of
/// the records of that size, in walk order.
proof fn lemma_size_fold_props(files: Seq<(Seq<char>, Seq<u8>)>)
    ensures
        mm_wf(size_fold(Seq::empty(), files)),
        forall|s: u64| #[trigger] mm_bucket(size_fold(Seq::empty(), files), s) == files.filter(
            size_pred(s),
        ).map_values(path_fn()),
        forall|s: u64| #[trigger] mm_has_key(size_fold(Seq::empty(), files), s) <==> files.filter(
            size_pred(s),
        ).len() >= 1,
    decreases files.len(),
{
    reveal(Seq::filter);
    if files.len() == 0 {
        let e = Seq::<(u64, Seq<Seq<char>>)>::empty();
        assert(size_fold(e, files) == e);
        assert forall|s: u64| #[trigger] mm_bucket(e, s) == files.filter(size_pred(s)).map_values(
            path_fn(),
        ) by {
            assert(files.filter(size_pred(s)) =~= Seq::<(Seq<char>, Seq<u8>)>::empty());
            assert(mm_bucket(e, s) =~= Seq::<Seq<char>>::empty());
            assert(files.filter(size_pred(s)).map_values(path_fn()) =~= Seq::<Seq<char>>::empty());
        }
        assert forall|s: u64| !(#[trigger] mm_has_key(e, s)) && files.filter(size_pred(s)).len()
            == 0 by {
            assert(files.filter(size_pred(s)) =~= Seq::<(Seq<char>, Seq<u8>)>::empty());
        }
    } else {
        let fr = files.drop_last();
        let l = files.last();
        assert(files == fr.push(l));
        lemma_size_fold_props(fr);
        lemma_size_fold_snoc(Seq::empty(), fr, l);
        let sf = size_fold(Seq::<(u64, Seq<Seq<char>>)>::empty(), fr);
        let sfl = size_fold(Seq::<(u64, Seq<Seq<char>>)>::empty(), files);
        assert(sfl == mm_insert(sf, rec_size(l), l.0));
        lemma_mm_insert_wf(sf, rec_size(l), l.0);
        assert forall|s: u64| #[trigger] mm_bucket(sfl, s) == files.filter(size_pred(s)).map_values(
            path_fn(),
        ) by {
            lemma_mm_insert_key(sf, rec_size(l), l.0, s);
            Seq::lemma_filter_push(fr, l, size_pred(s));
            if size_pred(s)(l) {
                assert(files.filter(size_pred(s)) == fr.filter(size_pred(s)).push(l));
                assert(fr.filter(size_pred(s)).push(l).map_values(path_fn()) =~= fr.filter(
                    size_pred(s),
                ).map_values(path_fn()).push(l.0));
                assert(mm_bucket(sfl, s) == mm_bucket(sf, s).push(l.0));
            } else {
                assert(files.filter(size_pred(s)) == fr.filter(size_pred(s)));
                assert(mm_bucket(sfl, s) == mm_bucket(sf, s));
            }
        }
        assert forall|s: u64| #[trigger] mm_has_key(sfl, s) <==> files.filter(size_pred(s)).len()
            >= 1 by {
            lemma_mm_insert_key(sf, rec_size(l), l.0, s);
            Seq::lemma_filter_push(fr, l, size_pred(s));
        }
    }
}

/// The hash index the second stage builds holds, under each digest, exactly
/// the paths of the hashed records of that digest, in walk order.
proof fn lemma_hash_fold_props(files: Seq<(Seq<char>, Seq<u8>)>, sizes: Seq<(u64, Seq<Seq<char>>)>)
    ensures
        mm_wf(hash_fold(Seq::empty(), files, sizes)),
        forall|d: Seq<char>| #[trigger] mm_bucket(hash_fold(Seq::empty(), files, sizes), d)
            == files.filter(hash_pred(sizes, d)).map_values(path_fn()),
        forall|d: Seq<char>| #[trigger] mm_has_key(hash_fold(Seq::empty(), files, sizes), d)
            <==> files.filter(hash_pred(sizes, d)).len() >= 1,
    decreases files.len(),
{
    reveal(Seq::filter);
    if files.len() == 0 {
        let e = Seq::<(Seq<char>, Seq<Seq<char>>)>::empty();
        assert(hash_fold(e, files, sizes) == e);
        assert forall|d: Seq<char>| #[trigger] mm_bucket(e, d) == files.filter(
            hash_pred(sizes, d),
        ).map_values(path_fn()) by {
            assert(files.filter(hash_pred(sizes, d)) =~= Seq::<(Seq<char>, Seq<u8>)>::empty());
            assert(mm_bucket(e, d) =~= Seq::<Seq<char>>::empty());
            assert(files.filter(hash_pred(sizes, d)).map_values(path_fn()) =~= Seq::<
                Seq<char>,
            >::empty());
        }
        assert forall|d: Seq<char>| !(#[trigger] mm_has_key(e, d)) && files.filter(
            hash_pred(sizes, d),
        ).len() == 0 by {
            assert(files.filter(hash_pred(sizes, d)) =~= Seq::<(Seq<char>, Seq<u8>)>::empty());
        }
    } else {
        let fr = files.drop_last();
        let l = files.last();
        assert(files == fr.push(l));
        lemma_hash_fold_props(fr, sizes);
        lemma_hash_fold_snoc(Seq::empty(), fr, sizes, l);
        let hf = hash_fold(Seq::<(Seq<char>, Seq<Seq<char>>)>::empty(), fr, sizes);
        let hfl = hash_fold(Seq::<(Seq<char>, Seq<Seq<char>>)>::empty(), files, sizes);
        if mm_has_key(sizes, rec_size(l)) {
            assert(hfl == mm_insert(hf, rec_digest(l), l.0));
            lemma_mm_insert_wf(hf, rec_digest(l), l.0);
            assert forall|d: Seq<char>| #[trigger] mm_bucket(hfl, d) == files.filter(
                hash_pred(sizes, d),
            ).map_values(path_fn()) by {
                lemma_mm_insert_key(hf, rec_digest(l), l.0, d);
                Seq::lemma_filter_push(fr, l, hash_pred(sizes, d));
                if hash_pred(sizes, d)(l) {
                    assert(rec_digest(l) == d);
                    assert(files.filter(hash_pred(sizes, d)) == fr.filter(
                        hash_pred(sizes, d),
                    ).push(l));
                    assert(fr.filter(hash_pred(sizes, d)).push(l).map_values(path_fn())
                        =~= fr.filter(hash_pred(sizes, d)).map_values(path_fn()).push(l.0));
                } else {
                    assert(rec_digest(l) != d);
                    assert(files.filter(hash_pred(sizes, d)) == fr.filter(hash_pred(sizes, d)));
                    assert(mm_bucket(hfl, d) == mm_bucket(hf, d));
                }
            }
            assert forall|d: Seq<char>| #[trigger] mm_has_key(hfl, d) <==> files.filter(
                hash_pred(sizes, d),
            ).len() >= 1 by {
                lemma_mm_insert_key(hf, rec_digest(l), l.0, d);
                Seq::lemma_filter_push(fr, l, hash_pred(sizes, d));
            }
        } else {
            assert(hfl == hf);
            assert forall|d: Seq<char>| #[trigger] mm_bucket(hfl, d) == files.filter(
                hash_pred(sizes, d),
            ).map_values(path_fn()) by {
                Seq::lemma_filter_push(fr, l, hash_pred(sizes, d));
                assert(!hash_pred(sizes, d)(l));
                assert(files.filter(hash_pred(sizes, d)) == fr.filter(hash_pred(sizes, d)));
            }
            assert forall|d: Seq<char>| #[trigger] mm_has_key(hfl, d) <==> files.filter(
                hash_pred(sizes, d),
            ).len() >= 1 by {
                Seq::lemma_filter_push(fr, l, hash_pred(sizes, d));
                assert(!hash_pred(sizes, d)(l));
            }
        }
    }
}

/// A filtered-and-mapped sequence holds the path `p` exactly when the filter
/// narrowed to that path keeps at least one record.
proof fn lemma_member_filter(
    s: Seq<(Seq<char>, Seq<u8>)>,
    pred: spec_fn((Seq<char>, Seq<u8>)) -> bool,
    p: Seq<char>,
)
    ensures
        s.filter(pred).map_values(path_fn()).contains(p) <==> s.filter(with_path(pred, p)).len()
            >= 1,
    decreases s.len(),
{
    reveal(Seq::filter);
    if s.len() == 0 {
        assert(s.filter(pred) =~= Seq::<(Seq<char>, Seq<u8>)>::empty());
        assert(s.filter(with_path(pred, p)) =~= Seq::<(Seq<char>, Seq<u8>)>::empty());
        assert(s.filter(pred).map_values(path_fn()) =~= Seq::<Seq<char>>::empty());
    } else {
        let fr = s.drop_last();
        let l = s.last();
        assert(s == fr.push(l));
        lemma_member_filter(fr, pred, p);
        Seq::lemma_filter_push(fr, l, pred);
        Seq::lemma_filter_push(fr, l, with_path(pred, p));
        let mp = fr.filter(pred).map_values(path_fn());
        if pred(l) {
            assert(s.filter(pred).map_values(path_fn()) =~= mp.push(l.0));
            assert forall|q: Seq<char>| mp.push(l.0).contains(q) <==> (mp.contains(q) || l.0
                == q) by {
                if mp.push(l.0).contains(q) {
                    let idx = choose|idx: int| 0 <= idx < mp.push(l.0).len() && mp.push(l.0)[idx]
                        == q;
                    if idx < mp.len() {
                        assert(mp[idx] == q);
                    }
                } else {
                    if mp.contains(q) {
                        let idx = choose|idx: int| 0 <= idx < mp.len() && mp[idx] == q;
                        assert(mp.push(l.0)[idx] == q);
                    }
                    if l.0 == q {
                        assert(mp.push(l.0)[mp.len() as int] == q);
                    }
                }
            }
        } else {
            assert(s.filter(pred) == fr.filter(pred));
            assert(!with_path(pred, p)(l));
            assert(s.filter(with_path(pred, p)) == fr.filter(with_path(pred, p)));
        }
    }
}

/// The central characterisation: a path stands in a reported group exactly
/// when the counting account says so; group keys never repeat, and every
/// reported group holds at least two paths.
pub proof fn lemma_pipeline_reported(files: Seq<(Seq<char>, Seq<u8>)>)
    ensures
        mm_wf(spec_pipeline(files)),
        forall|i: int| 0 <= i < spec_pipeline(files).len() ==> #[trigger] spec_pipeline(
            files,
        )[i].1.len() >= 2,
        forall|d: Seq<char>, p: Seq<char>| #[trigger] in_groups(spec_pipeline(files), d, p) <==>
            reported(files, d, p),
{
    let sidx = spec_size_index(files);
    let h = hash_fold(Seq::<(Seq<char>, Seq<Seq<char>>)>::empty(), files, sidx);
    lemma_size_fold_props(files);
    lemma_mm_prune_props(size_fold(Seq::<(u64, Seq<Seq<char>>)>::empty(), files));
    lemma_hash_fold_props(files, sidx);
    lemma_mm_prune_props(h);
    assert forall|d: Seq<char>, p: Seq<char>| #[trigger] in_groups(spec_pipeline(files), d, p)
        <==> reported(files, d, p) by {
        lemma_member_filter(files, hash_pred(sidx, d), p);
        assert(mm_bucket(h, d) == files.filter(hash_pred(sidx, d)).map_values(path_fn()));
        assert(mm_has_key(h, d) <==> files.filter(hash_pred(sidx, d)).len() >= 1);
        assert(files.filter(hash_pred(sidx, d)).map_values(path_fn()).len() == files.filter(
            hash_pred(sidx, d),
        ).len());
        if in_groups(spec_pipeline(files), d, p) {
            assert(mm_has_key(h, d) && mm_bucket(h, d).len() >= 2);
            assert(mm_bucket(spec_pipeline(files), d) == mm_bucket(h, d));
        }
        if reported(files, d, p) {
            assert(files.filter(with_path(hash_pred(sidx, d), p)).len() >= 1);
            assert(mm_bucket(h, d).contains(p));
            assert(mm_bucket(h, d).len() >= 2);
            assert(mm_has_key(h, d)) by {
                assert(files.filter(hash_pred(sidx, d)).len() >= 2);
            }
        }
    }
}

/// Two distinct positions satisfying a predicate put two records in the
/// filtered sequence.
proof fn lemma_filter_two<A>(s: Seq<A>, pred: spec_fn(A) -> bool, i: int, j: int)
    requires
        0 <= i < j < s.len(),
        pred(s[i]),
        pred(s[j]),
    ensures
        s.filter(pred).len() >= 2,
    decreases s.len(),
{
    reveal(Seq::filter);
    let fr = s.drop_last();
    let l = s.last();
    assert(s == fr.push(l));
    Seq::lemma_filter_push(fr, l, pred);
    if j == s.len() - 1 {
        assert(fr[i] == s[i]);
        fr.lemma_filter_contains(pred, i);
        assert(fr.filter(pred).len() >= 1);
        assert(s.filter(pred) == fr.filter(pred).push(l));
    } else {
        assert(fr[i] == s[i] && fr[j] == s[j]);
        lemma_filter_two(fr, pred, i, j);
    }
}

/// One position satisfying a predicate puts one record in the filter.
proof fn lemma_filter_one<A>(s: Seq<A>, pred: spec_fn(A) -> bool, i: int)
    requires
        0 <= i < s.len(),
        pred(s[i]),
    ensures
        s.filter(pred).len() >= 1,
{
    s.lemma_filter_contains(pred, i);
}

/// The pruned size index keeps a size exactly when at least two walked
/// records have it.
pub proof fn lemma_size_index_key(files: Seq<(Seq<char>, Seq<u8>)>, s: u64)
    ensures
        mm_has_key(spec_size_index(files), s) <==> size_count(files, s) >= 2,
{
    let sf = size_fold(Seq::<(u64, Seq<Seq<char>>)>::empty(), files);
    lemma_size_fold_props(files);
    lemma_mm_prune_props(sf);
    assert(spec_size_index(files) == mm_prune(sf));
    assert(mm_has_key(mm_prune(sf), s) <==> (mm_has_key(sf, s) && mm_bucket(sf, s).len() >= 2));
    assert(mm_has_key(sf, s) <==> files.filter(size_pred(s)).len() >= 1);
    assert(mm_bucket(sf, s) == files.filter(size_pred(s)).map_values(path_fn()));
    assert(mm_bucket(sf, s).len() == files.filter(size_pred(s)).len());
}

/// LAW: two records with the same content are always reported, in the group
/// keyed by their common digest. (Same content means same size, so the size
/// stage cannot separate them, and same digest, so the hash stage joins them.)
pub proof fn lemma_duplicate_content_reported(files: Seq<(Seq<char>, Seq<u8>)>, i: int, j: int)
    requires
        0 <= i < files.len(),
        0 <= j < files.len(),
        i != j,
        files[i].1 == files[j].1,
    ensures
        in_groups(spec_pipeline(files), rec_digest(files[i]), files[i].0),
{
    lemma_pipeline_reported(files);
    let d = rec_digest(files[i]);
    let p = files[i].0;
    let sz = rec_size(files[i]);
    let sidx = spec_size_index(files);
    assert(rec_size(files[j]) == sz);
    assert(rec_digest(files[j]) == d);
    assert(size_pred(sz)(files[i]) && size_pred(sz)(files[j]));
    if i < j {
        lemma_filter_two(files, size_pred(sz), i, j);
    } else {
        lemma_filter_two(files, size_pred(sz), j, i);
    }
    lemma_size_index_key(files, sz);
    assert(mm_has_key(sidx, sz));
    assert(hash_pred(sidx, d)(files[i]) && hash_pred(sidx, d)(files[j]));
    if i < j {
        lemma_filter_two(files, hash_pred(sidx, d), i, j);
    } else {
        lemma_filter_two(files, hash_pred(sidx, d), j, i);
    }
    assert(with_path(hash_pred(sidx, d), p)(files[i]));
    lemma_filter_one(files, with_path(hash_pred(sidx, d), p), i);
    assert(reported(files, d, p));
}

/// LAW: two paths in one reported group come from walked records whose
/// contents have the same digest. (That the contents themselves agree is the
/// hash's collision resistance, which no proof can supply.)
pub proof fn lemma_same_group_same_digest(
    files: Seq<(Seq<char>, Seq<u8>)>,
    d: Seq<char>,
    p: Seq<char>,
    q: Seq<char>,
) -> (w: (int, int))
    requires
        in_groups(spec_pipeline(files), d, p),
        in_groups(spec_pipeline(files), d, q),
    ensures
        0 <= w.0 < files.len() && files[w.0].0 == p && rec_digest(files[w.0]) == d,
        0 <= w.1 < files.len() && files[w.1].0 == q && rec_digest(files[w.1]) == d,
        blake2b_of(files[w.0].1) == blake2b_of(files[w.1].1),
{
    lemma_pipeline_reported(files);
    let sidx = spec_size_index(files);
    let k = lemma_member_witness(files, with_path(hash_pred(sidx, d), p));
    let l = lemma_member_witness(files, with_path(hash_pred(sidx, d), q));
    assert(rec_digest(files[k]) == d && rec_digest(files[l]) == d);
    lemma_hex_of_injective(blake2b_of(files[k].1), blake2b_of(files[l].1));
    (k, l)
}

/// A nonempty filter yields a position in the original sequence satisfying
/// the predicate.
proof fn lemma_member_witness(
    s: Seq<(Seq<char>, Seq<u8>)>,
    pred: spec_fn((Seq<char>, Seq<u8>)) -> bool,
) -> (k: int)
    requires
        s.filter(pred).len() >= 1,
    ensures
        0 <= k < s.len(),
        pred(s[k]),
{
    let f = s.filter(pred);
    s.lemma_filter_pred(pred, 0);
    assert(f.contains(f[0]));
    s.lemma_filter_contains_rev(pred, f[0]);
    let k = s.lemma_contains_to_index(f[0]);
    k
}

/// Filtering commutes with forgetting order.
proof fn lemma_filter_to_multiset<A>(s: Seq<A>, pred: spec_fn(A) -> bool)
    ensures
        s.filter(pred).to_multiset() == s.to_multiset().filter(pred),
    decreases s.len(),
{
    broadcast use vstd::seq_lib::group_to_multiset_ensures;
    broadcast use vstd::multiset::group_multiset_axioms;

    reveal(Seq::filter);
    if s.len() == 0 {
        assert(s.filter(pred) =~= Seq::<A>::empty());
        assert(s.filter(pred).to_multiset() =~= Multiset::<A>::empty()) by {
            assert(s.filter(pred).to_multiset().len() == 0);
        }
        assert(s.to_multiset() =~= Multiset::<A>::empty()) by {
            assert(s.to_multiset().len() == 0);
        }
        assert(Multiset::<A>::empty().filter(pred) =~= Multiset::<A>::empty());
    } else {
        let fr = s.drop_last();
        let l = s.last();
        assert(s == fr.push(l));
        lemma_filter_to_multiset(fr, pred);
        Seq::lemma_filter_push(fr, l, pred);
        assert(s.to_multiset() =~= fr.to_multiset().insert(l));
        if pred(l) {
            assert(s.filter(pred).to_multiset() =~= fr.filter(pred).to_multiset().insert(l));
            assert(fr.to_multiset().insert(l).filter(pred) =~= fr.to_multiset().filter(
                pred,
            ).insert(l));
        } else {
            assert(fr.to_multiset().insert(l).filter(pred) =~= fr.to_multiset().filter(pred));
        }
    }
}

/// Two predicates that agree everywhere filter alike.
proof fn lemma_filter_congruent<A>(s: Seq<A>, p1: spec_fn(A) -> bool, p2: spec_fn(A) -> bool)
    requires
        forall|x: A| #[trigger] p1(x) == p2(x),
    ensures
        s.filter(p1) == s.filter(p2),
    decreases s.len(),
{
    reveal(Seq::filter);
    if s.len() == 0 {
        assert(s.filter(p1) =~= s.filter(p2));
    } else {
        let fr = s.drop_last();
        let l = s.last();
        assert(s == fr.push(l));
        lemma_filter_congruent(fr, p1, p2);
        Seq::lemma_filter_push(fr, l, p1);
        Seq::lemma_filter_push(fr, l, p2);
        assert(p1(l) == p2(l));
    }
}

/// LAW: the order in which the walk hands records over does not change which
/// path stands in which group; only the order inside a bucket can move.
pub proof fn lemma_permutation_same_groups(
    s1: Seq<(Seq<char>, Seq<u8>)>,
    s2: Seq<(Seq<char>, Seq<u8>)>,
)
    requires
        s1.to_multiset() == s2.to_multiset(),
    ensures
        forall|d: Seq<char>, p: Seq<char>| #[trigger] in_groups(spec_pipeline(s1), d, p) <==>
            in_groups(spec_pipeline(s2), d, p),
{
    broadcast use vstd::seq_lib::group_to_multiset_ensures;
    broadcast use vstd::multiset::group_multiset_axioms;

    lemma_pipeline_reported(s1);
    lemma_pipeline_reported(s2);
    assert forall|d: Seq<char>, p: Seq<char>| #[trigger] in_groups(spec_pipeline(s1), d, p) <==>
        in_groups(spec_pipeline(s2), d, p) by {
        let pr1 = hash_pred(spec_size_index(s1), d);
        let pr2 = hash_pred(spec_size_index(s2), d);
        assert forall|r: (Seq<char>, Seq<u8>)| #[trigger] pr1(r) == pr2(r) by {
            let sz = rec_size(r);
            lemma_size_index_key(s1, sz);
            lemma_size_index_key(s2, sz);
            lemma_filter_to_multiset(s1, size_pred(sz));
            lemma_filter_to_multiset(s2, size_pred(sz));
            assert(s1.filter(size_pred(sz)).to_multiset() == s2.filter(size_pred(sz)).to_multiset());
            assert(s1.filter(size_pred(sz)).len() == s1.filter(size_pred(sz)).to_multiset().len());
            assert(s2.filter(size_pred(sz)).len() == s2.filter(size_pred(sz)).to_multiset().len());
            assert(size_count(s1, sz) == size_count(s2, sz));
        }
        lemma_filter_congruent(s2, pr1, pr2);
        lemma_filter_to_multiset(s1, pr1);
        lemma_filter_to_multiset(s2, pr1);
        assert(s1.filter(pr1).to_multiset() == s2.filter(pr1).to_multiset());
        assert(s1.filter(pr1).len() == s1.filter(pr1).to_multiset().len());
        assert(s2.filter(pr1).len() == s2.filter(pr1).to_multiset().len());
        assert(group_count(s1, d) == group_count(s2, d));
        let wp1 = with_path(pr1, p);
        let wp2 = with_path(pr2, p);
        assert forall|r: (Seq<char>, Seq<u8>)| #[trigger] wp1(r) == wp2(r) by {
            assert(pr1(r) == pr2(r));
        }
        lemma_filter_congruent(s2, wp1, wp2);
        lemma_filter_to_multiset(s1, wp1);
        lemma_filter_to_multiset(s2, wp1);
        assert(s1.filter(wp1).to_multiset() == s2.filter(wp1).to_multiset());
        assert(s1.filter(wp1).len() == s1.filter(wp1).to_multiset().len());
        assert(s2.filter(wp1).len() == s2.filter(wp1).to_multiset().len());
        assert(member_count(s1, d, p) == member_count(s2, d, p));
    }
}

/// The groups of a run whose hashing pass only reached the records `kept`
/// (a file removed between walk and hash is simply not among them); the size
/// pruning still comes from the full walk.
pub open spec fn spec_pipeline_partial(
    files: Seq<(Seq<char>, Seq<u8>)>,
    kept: Seq<(Seq<char>, Seq<u8>)>,
) -> Seq<(Seq<char>, Seq<Seq<char>>)> {
    mm_prune(hash_fold(Seq::empty(), kept, spec_size_index(files)))
}

/// A multiset within another has no greater size.
proof fn lemma_multiset_subset_len<A>(m1: Multiset<A>, m2: Multiset<A>)
    requires
        m1.subset_of(m2),
    ensures
        m1.len() <= m2.len(),
{
    broadcast use vstd::multiset::group_multiset_axioms;

    let diff = m2.sub(m1);
    assert(m2 =~= m1.add(diff));
    assert(m2.len() == m1.len() + diff.len());
}

/// LAW: when files vanish between the walk and the hash, groups can only
/// shrink or disappear; no path is reported that the full run would not
/// have reported.
pub proof fn lemma_partial_run_no_spurious(
    files: Seq<(Seq<char>, Seq<u8>)>,
    kept: Seq<(Seq<char>, Seq<u8>)>,
    d: Seq<char>,
    p: Seq<char>,
)
    requires
        kept.to_multiset().subset_of(files.to_multiset()),
        in_groups(spec_pipeline_partial(files, kept), d, p),
    ensures
        in_groups(spec_pipeline(files), d, p),
{
    broadcast use vstd::seq_lib::group_to_multiset_ensures;
    broadcast use vstd::multiset::group_multiset_axioms;

    lemma_pipeline_reported(files);
    let sidx = spec_size_index(files);
    let h = hash_fold(Seq::<(Seq<char>, Seq<Seq<char>>)>::empty(), kept, sidx);
    lemma_hash_fold_props(kept, sidx);
    lemma_mm_prune_props(h);
    lemma_member_filter(kept, hash_pred(sidx, d), p);
    assert(mm_bucket(h, d) == kept.filter(hash_pred(sidx, d)).map_values(path_fn()));
    assert(mm_has_key(mm_prune(h), d) <==> (mm_has_key(h, d) && mm_bucket(h, d).len() >= 2));
    assert(mm_bucket(h, d).len() == kept.filter(hash_pred(sidx, d)).len());
    assert(mm_bucket(spec_pipeline_partial(files, kept), d) == mm_bucket(h, d));
    assert(kept.filter(hash_pred(sidx, d)).len() >= 2);
    assert(mm_bucket(h, d).contains(p));
    assert(kept.filter(with_path(hash_pred(sidx, d), p)).len() >= 1);
    lemma_filter_to_multiset(kept, hash_pred(sidx, d));
    lemma_filter_to_multiset(files, hash_pred(sidx, d));
    assert(kept.to_multiset().filter(hash_pred(sidx, d)).subset_of(
        files.to_multiset().filter(hash_pred(sidx, d)),
    ));
    lemma_multiset_subset_len(
        kept.to_multiset().filter(hash_pred(sidx, d)),
        files.to_multiset().filter(hash_pred(sidx, d)),
    );
    assert(kept.filter(hash_pred(sidx, d)).len() == kept.filter(
        hash_pred(sidx, d),
    ).to_multiset().len());
    assert(files.filter(hash_pred(sidx, d)).len() == files.filter(
        hash_pred(sidx, d),
    ).to_multiset().len());
    assert(group_count(files, d) >= 2);
    lemma_filter_to_multiset(kept, with_path(hash_pred(sidx, d), p));
    lemma_filter_to_multiset(files, with_path(hash_pred(sidx, d), p));
    assert(kept.to_multiset().filter(with_path(hash_pred(sidx, d), p)).subset_of(
        files.to_multiset().filter(with_path(hash_pred(sidx, d), p)),
    ));
    lemma_multiset_subset_len(
        kept.to_multiset().filter(with_path(hash_pred(sidx, d), p)),
        files.to_multiset().filter(with_path(hash_pred(sidx, d), p)),
    );
    assert(kept.filter(with_path(hash_pred(sidx, d), p)).len() == kept.filter(
        with_path(hash_pred(sidx, d), p),
    ).to_multiset().len());
    assert(files.filter(with_path(hash_pred(sidx, d), p)).len() == files.filter(
        with_path(hash_pred(sidx, d), p),
    ).to_multiset().len());
    assert(member_count(files, d, p) >= 1);
}

} // verus!

