//! The two-stage duplicate pipeline over in-memory file records: bucket by
//! size, prune singletons, hash the survivors, bucket by digest, prune again.

use vstd::prelude::*;
use crate::digest::{blake2_hash, digest_hex_of};
use crate::index::{
    add_to_dict, mm_has_key, mm_insert, mm_prune, mm_wf, remove_uniques, remove_uniques_,
    HashIndex, SizeIndex,
};

verus! {

/// One file handed to the pipeline: its path and its content bytes.
pub struct FileContent {
    pub path: String,
    pub bytes: Vec<u8>,
}

impl View for FileContent {
    type V = (Seq<char>, Seq<u8>);

    open spec fn view(&self) -> Self::V {
        (self.path@, self.bytes@)
    }
}

impl DeepView for FileContent {
    type V = (Seq<char>, Seq<u8>);

    open spec fn deep_view(&self) -> Self::V {
        (self.path@, self.bytes@)
    }
}

/// The size key of a record.
pub open spec fn rec_size(r: (Seq<char>, Seq<u8>)) -> u64 {
    r.1.len() as u64
}

/// The digest key of a record: the hex rendering of its content digest.
pub open spec fn rec_digest(r: (Seq<char>, Seq<u8>)) -> Seq<char> {
    digest_hex_of(r.1)
}

/// Folding the walk over the size index: every record's path is inserted
/// under its size, in walk order.
pub open spec fn size_fold(
    m: Seq<(u64, Seq<Seq<char>>)>,
    files: Seq<(Seq<char>, Seq<u8>)>,
) -> Seq<(u64, Seq<Seq<char>>)>
    decreases files.len(),
{
    if files.len() == 0 {
        m
    } else {
        size_fold(mm_insert(m, rec_size(files[0]), files[0].0), files.drop_first())
    }
}

/// Folding the hashing pass over the hash index: every record whose size
/// survived the size pruning is inserted under its digest, in walk order.
pub open spec fn hash_fold(
    h: Seq<(Seq<char>, Seq<Seq<char>>)>,
    files: Seq<(Seq<char>, Seq<u8>)>,
    sizes: Seq<(u64, Seq<Seq<char>>)>,
) -> Seq<(Seq<char>, Seq<Seq<char>>)>
    decreases files.len(),
{
    if files.len() == 0 {
        h
    } else {
        let h2 = if mm_has_key(sizes, rec_size(files[0])) {
            mm_insert(h, rec_digest(files[0]), files[0].0)
        } else {
            h
        };
        hash_fold(h2, files.drop_first(), sizes)
    }
}

/// The pruned size index a walk over `files` produces.
pub open spec fn spec_size_index(files: Seq<(Seq<char>, Seq<u8>)>) -> Seq<(u64, Seq<Seq<char>>)> {
    mm_prune(size_fold(Seq::empty(), files))
}

/// The whole run: the reported groups, a pure function of the walked records.
pub open spec fn spec_pipeline(files: Seq<(Seq<char>, Seq<u8>)>) -> Seq<
    (Seq<char>, Seq<Seq<char>>),
> {
    mm_prune(hash_fold(Seq::empty(), files, spec_size_index(files)))
}

/// Hash one file's bytes and record its path under the digest.
pub fn add_file_hash(duplicates: &mut HashIndex, path: String, data: &[u8])
    requires
        old(duplicates).wf(),
    ensures
        final(duplicates).wf(),
        final(duplicates)@ == mm_insert(old(duplicates)@, digest_hex_of(data@), path@),
{
    let h = blake2_hash(data);
    duplicates.add_path(h, path);
}

/// Build the size index of a walk handed over as records, in walk order.
#[verifier::loop_isolation(false)]
pub fn build_size_index(files: &Vec<FileContent>) -> (sizes: SizeIndex)
    ensures
        sizes.wf(),
        sizes@ == size_fold(Seq::empty(), files.deep_view()),
{
    let ghost dv = files.deep_view();
    let mut sizes = SizeIndex::new();
    let n = files.len();
    let mut i: usize = 0;
    proof {
        assert(dv.skip(0) =~= dv);
        assert(dv.len() == files@.len());
    }
    while i < n
        invariant
            i <= n,
            sizes.wf(),
            size_fold(Seq::empty(), dv) == size_fold(sizes@, dv.skip(i as int)),
        decreases n - i,
    {
        proof {
            assert(dv.skip(i as int)[0] == dv[i as int]);
            assert(dv.skip(i as int).drop_first() =~= dv.skip(i + 1));
            assert(dv[i as int] == files@[i as int].deep_view());
            assert(rec_size(dv[i as int]) == files@[i as int].bytes@.len() as u64);
        }
        let sz = files[i].bytes.len() as u64;
        let p = files[i].path.clone();
        add_to_dict(&mut sizes, sz, p);
        i += 1;
    }
    proof {
        assert(dv.skip(n as int) =~= Seq::<(Seq<char>, Seq<u8>)>::empty());
    }
    sizes
}

/// Hash every record whose size survived, grouping paths by digest.
#[verifier::loop_isolation(false)]
pub fn find_duplicates(files: &Vec<FileContent>, sizes: &SizeIndex, duplicates: &mut HashIndex)
    requires
        old(duplicates).wf(),
    ensures
        final(duplicates).wf(),
        final(duplicates)@ == hash_fold(old(duplicates)@, files.deep_view(), sizes@),
{
    let ghost dv = files.deep_view();
    let n = files.len();
    let mut i: usize = 0;
    proof {
        assert(dv.skip(0) =~= dv);
        assert(dv.len() == files@.len());
    }
    while i < n
        invariant
            i <= n,
            duplicates.wf(),
            hash_fold(old(duplicates)@, dv, sizes@) == hash_fold(
                duplicates@,
                dv.skip(i as int),
                sizes@,
            ),
        decreases n - i,
    {
        proof {
            assert(dv.skip(i as int)[0] == dv[i as int]);
            assert(dv.skip(i as int).drop_first() =~= dv.skip(i + 1));
            assert(dv[i as int] == files@[i as int].deep_view());
            assert(rec_size(dv[i as int]) == files@[i as int].bytes@.len() as u64);
            assert(rec_digest(dv[i as int]) == digest_hex_of(files@[i as int].bytes@));
        }
        let sz = files[i].bytes.len() as u64;
        if sizes.contains_size(sz) {
            let p = files[i].path.clone();
            add_file_hash(duplicates, p, files[i].bytes.as_slice());
        }
        i += 1;
    }
    proof {
        assert(dv.skip(n as int) =~= Seq::<(Seq<char>, Seq<u8>)>::empty());
    }
}

/// The whole run on in-memory records: exactly the groups that
/// `spec_pipeline` names, every group holding at least two paths.
pub fn duplicate_groups(files: &Vec<FileContent>) -> (groups: HashIndex)
    ensures
        groups.wf(),
        groups@ == spec_pipeline(files.deep_view()),
        forall|i: int| 0 <= i < groups@.len() ==> #[trigger] groups@[i].1.len() >= 2,
{
    let mut sizes = build_size_index(files);
    remove_uniques(&mut sizes);
    let mut duplicates = HashIndex::new();
    find_duplicates(files, &sizes, &mut duplicates);
    remove_uniques_(&mut duplicates);
    duplicates
}

} // verus!
