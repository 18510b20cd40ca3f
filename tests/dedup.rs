use distinct_hash::algorithm::HashAlgorithm;
use distinct_hash::classify::{classify, SeenTable};
use distinct_hash::hasher::Hasher;
use distinct_hash::prefilter::hash_candidates;

fn sha256(content: &[u8]) -> Vec<u8> {
    let mut h = Hasher::new(HashAlgorithm::Sha256);
    h.update(content);
    h.finish().unwrap()
}

/// Runs the decisions over in-memory files (`None`: the file is missing) and
/// returns which to delete, and how many were hashed.
fn plan(files: &[Option<&[u8]>]) -> (Vec<usize>, usize) {
    let sizes: Vec<Option<u64>> = files.iter().map(|f| f.map(|c| c.len() as u64)).collect();
    let candidates = hash_candidates(&sizes);
    let mut hashed = 0;
    let mut digests = Vec::new();
    for (i, f) in files.iter().enumerate() {
        if candidates[i] {
            hashed += 1;
            digests.push(Some(sha256(f.unwrap())));
        } else {
            digests.push(None);
        }
    }
    (classify(&digests), hashed)
}

#[test]
fn two_equal_one_different() {
    let (to_delete, _) = plan(&[Some(b"x"), Some(b"x"), Some(b"y")]);
    assert_eq!(to_delete, vec![1]);
    assert_eq!(to_delete.len(), 1);
}

#[test]
fn first_seen_copy_survives() {
    let (to_delete, _) = plan(&[
        Some(b"dup"),
        Some(b"abc"),
        Some(b"dup"),
        Some(b"other"),
        Some(b"dup"),
    ]);
    assert_eq!(to_delete, vec![2, 4]);
}

#[test]
fn exactly_the_copies_are_deleted() {
    // Five files; three are copies of a kept one.
    let (to_delete, _) = plan(&[
        Some(b"aa"),
        Some(b"aa"),
        Some(b"bb"),
        Some(b"aa"),
        Some(b"bb"),
    ]);
    assert_eq!(to_delete.len(), 3);
    assert_eq!(5 - to_delete.len(), 2);
    assert_eq!(to_delete, vec![1, 3, 4]);
}

#[test]
fn uniquely_sized_files_are_not_hashed() {
    let (to_delete, hashed) = plan(&[Some(b"a"), Some(b"bb"), Some(b"ccc"), Some(b"cc")]);
    assert!(to_delete.is_empty());
    assert_eq!(hashed, 2);
    assert_eq!(
        hash_candidates(&vec![Some(1), Some(2), Some(3), Some(2)]),
        vec![false, true, false, true]
    );
}

#[test]
fn missing_target_is_skipped_and_the_rest_processed() {
    let (to_delete, hashed) = plan(&[None, Some(b"x"), Some(b"x"), None]);
    assert_eq!(to_delete, vec![2]);
    assert_eq!(hashed, 2);
    assert_eq!(
        hash_candidates(&vec![None, None, Some(7)]),
        vec![false, false, false]
    );
}

#[test]
fn no_targets_no_work() {
    assert!(hash_candidates(&vec![]).is_empty());
    assert!(classify(&vec![]).is_empty());
}

#[test]
fn repeated_path_entries_are_processed_independently() {
    // The same file named twice reads the same bytes twice.
    let (to_delete, _) = plan(&[Some(b"same"), Some(b"same")]);
    assert_eq!(to_delete, vec![1]);
}

#[test]
fn unknown_digests_are_neither_kept_nor_deleted() {
    let d = vec![1u8, 2, 3];
    let digests = vec![None, Some(d.clone()), None, Some(d.clone()), Some(vec![9]), Some(d)];
    assert_eq!(classify(&digests), vec![3, 5]);
}

#[test]
fn equal_sizes_different_content_are_kept() {
    let (to_delete, hashed) = plan(&[Some(b"ab"), Some(b"cd"), Some(b"ef")]);
    assert!(to_delete.is_empty());
    assert_eq!(hashed, 3);
}

#[test]
fn seen_table_keeps_the_first_target() {
    let mut t = SeenTable::new();
    assert_eq!(t.first_seen(&[1, 2]), None);
    assert_eq!(t.record(vec![1, 2], 0), None);
    assert_eq!(t.record(vec![3], 1), None);
    assert_eq!(t.record(vec![1, 2], 4), Some(0));
    assert_eq!(t.first_seen(&[1, 2]), Some(0));
    assert_eq!(t.first_seen(&[3]), Some(1));
    assert_eq!(t.first_seen(&[1]), None);
}
