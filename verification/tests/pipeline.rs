use dupfinder::index::{add_to_dict, remove_uniques, remove_uniques_, HashIndex, SizeIndex};
use dupfinder::pipeline::{add_file_hash, duplicate_groups, FileContent};

fn rec(path: &str, bytes: &[u8]) -> FileContent {
    FileContent { path: String::from(path), bytes: bytes.to_vec() }
}

fn group_paths(groups: &HashIndex) -> Vec<(String, Vec<String>)> {
    groups
        .buckets
        .iter()
        .map(|b| (b.digest.clone(), b.paths.clone()))
        .collect()
}

#[test]
fn empty_root_yields_no_groups() {
    let groups = duplicate_groups(&Vec::new());
    assert_eq!(groups.buckets.len(), 0);
}

#[test]
fn single_file_yields_no_groups() {
    let files = vec![rec("only", b"alone")];
    let groups = duplicate_groups(&files);
    assert_eq!(groups.buckets.len(), 0);
}

#[test]
fn two_same_size_distinct_files_yield_no_groups() {
    let files = vec![rec("a", b"AB"), rec("b", b"CD")];
    let groups = duplicate_groups(&files);
    assert_eq!(groups.buckets.len(), 0);
}

#[test]
fn hello_hello_world_yields_one_group() {
    let files = vec![rec("a", b"hello"), rec("b", b"hello"), rec("c", b"world")];
    let groups = duplicate_groups(&files);
    let gs = group_paths(&groups);
    assert_eq!(gs.len(), 1);
    assert_eq!(gs[0].0, dupfinder::digest::blake2_hash(b"hello"));
    assert_eq!(gs[0].1, vec![String::from("a"), String::from("b")]);
}

#[test]
fn two_pairs_yield_two_groups() {
    let files = vec![rec("a", b""), rec("b", b""), rec("c", b"x"), rec("d", b"x")];
    let groups = duplicate_groups(&files);
    let gs = group_paths(&groups);
    assert_eq!(gs.len(), 2);
    let empty_digest = dupfinder::digest::blake2_hash(b"");
    let x_digest = dupfinder::digest::blake2_hash(b"x");
    let mut found_empty = false;
    let mut found_x = false;
    for (d, paths) in &gs {
        if *d == empty_digest {
            assert_eq!(*paths, vec![String::from("a"), String::from("b")]);
            found_empty = true;
        }
        if *d == x_digest {
            assert_eq!(*paths, vec![String::from("c"), String::from("d")]);
            found_x = true;
        }
    }
    assert!(found_empty && found_x);
}

#[test]
fn two_empty_files_group_on_empty_digest() {
    let files = vec![rec("a", b""), rec("b", b"")];
    let groups = duplicate_groups(&files);
    let gs = group_paths(&groups);
    assert_eq!(gs.len(), 1);
    assert_eq!(gs[0].0, dupfinder::digest::blake2_hash(b""));
    assert_eq!(gs[0].1, vec![String::from("a"), String::from("b")]);
}

#[test]
fn three_identical_files_form_one_group() {
    let files = vec![rec("s", b"z"), rec("t", b"z"), rec("u", b"z")];
    let groups = duplicate_groups(&files);
    let gs = group_paths(&groups);
    assert_eq!(gs.len(), 1);
    assert_eq!(gs[0].1, vec![String::from("s"), String::from("t"), String::from("u")]);
}

#[test]
fn rerun_gives_identical_membership() {
    let files = vec![
        rec("a", b"hello"),
        rec("b", b"hello"),
        rec("c", b"world"),
        rec("d", b"world"),
        rec("e", b"solo"),
    ];
    let g1 = group_paths(&duplicate_groups(&files));
    let g2 = group_paths(&duplicate_groups(&files));
    assert_eq!(g1, g2);
}

#[test]
fn permuted_walk_keeps_membership() {
    let files = vec![
        rec("a", b"hello"),
        rec("b", b"hello"),
        rec("c", b"world"),
        rec("d", b"world"),
        rec("e", b"solo"),
    ];
    let permuted = vec![
        rec("d", b"world"),
        rec("e", b"solo"),
        rec("b", b"hello"),
        rec("a", b"hello"),
        rec("c", b"world"),
    ];
    let mut g1: Vec<(String, Vec<String>)> = group_paths(&duplicate_groups(&files))
        .into_iter()
        .map(|(d, mut ps)| {
            ps.sort();
            (d, ps)
        })
        .collect();
    let mut g2: Vec<(String, Vec<String>)> = group_paths(&duplicate_groups(&permuted))
        .into_iter()
        .map(|(d, mut ps)| {
            ps.sort();
            (d, ps)
        })
        .collect();
    g1.sort();
    g2.sort();
    assert_eq!(g1, g2);
}

#[test]
fn unreadable_file_is_skipped_not_fatal() {
    // three one-byte files walk past the size stage; the unreadable one is
    // never handed to the hash stage, as when its open fails mid-run
    let mut sizes = SizeIndex::new();
    add_to_dict(&mut sizes, 1, String::from("a"));
    add_to_dict(&mut sizes, 1, String::from("b"));
    add_to_dict(&mut sizes, 1, String::from("c"));
    remove_uniques(&mut sizes);
    assert_eq!(sizes.buckets.len(), 1);
    let mut duplicates = HashIndex::new();
    add_file_hash(&mut duplicates, String::from("b"), b"z");
    add_file_hash(&mut duplicates, String::from("c"), b"z");
    remove_uniques_(&mut duplicates);
    assert_eq!(duplicates.buckets.len(), 1);
    assert_eq!(
        duplicates.buckets[0].paths,
        vec![String::from("b"), String::from("c")]
    );
}

#[test]
fn size_index_groups_and_prunes() {
    let mut sizes = SizeIndex::new();
    add_to_dict(&mut sizes, 5, String::from("p"));
    add_to_dict(&mut sizes, 7, String::from("q"));
    add_to_dict(&mut sizes, 5, String::from("r"));
    assert_eq!(sizes.buckets.len(), 2);
    assert_eq!(sizes.buckets[0].size, 5);
    assert_eq!(sizes.buckets[0].paths, vec![String::from("p"), String::from("r")]);
    remove_uniques(&mut sizes);
    assert_eq!(sizes.buckets.len(), 1);
    assert_eq!(sizes.buckets[0].size, 5);
}

#[test]
fn hash_index_prunes_singletons() {
    let mut duplicates = HashIndex::new();
    add_file_hash(&mut duplicates, String::from("a"), b"same");
    add_file_hash(&mut duplicates, String::from("b"), b"same");
    add_file_hash(&mut duplicates, String::from("c"), b"other");
    assert_eq!(duplicates.buckets.len(), 2);
    remove_uniques_(&mut duplicates);
    assert_eq!(duplicates.buckets.len(), 1);
    assert_eq!(
        duplicates.buckets[0].paths,
        vec![String::from("a"), String::from("b")]
    );
}
