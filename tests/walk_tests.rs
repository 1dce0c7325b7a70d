use dirdedup::digest::{children_digest_input, file_digest_input, fold_fingerprints, to_be_bytes};
use dirdedup::order::{bytes_less_eq, sort_keys};
use dirdedup::registry::{DuplicateRegistry, Verdict};
use dirdedup::walk::{is_well_formed, Entry, EntryKind, ErrorKind, Walk, WalkError};

/// A 128-bit FNV-1a digest, standing in for the production hash.
fn fnv128(bytes: &[u8]) -> u128 {
    let mut h: u128 = 0x6c62272e07bb014262b821756295c58d;
    for &b in bytes {
        h ^= b as u128;
        h = h.wrapping_mul(0x0000000001000000000000000000013B);
    }
    h
}

fn file(path: &str, content: &[u8]) -> Entry {
    Entry { path: path.to_string(), kind: EntryKind::File { content: content.to_vec() } }
}

fn dir(path: &str, children: Vec<usize>) -> Entry {
    Entry { path: path.to_string(), kind: EntryKind::Directory { children } }
}

fn failed(path: &str, error: ErrorKind) -> Entry {
    Entry { path: path.to_string(), kind: EntryKind::Failed { error } }
}

struct Outcome {
    fingerprints: Vec<u128>,
    duplicates: Vec<(String, String)>,
    digests_taken: usize,
}

fn run(entries: Vec<Entry>) -> Result<Outcome, WalkError> {
    assert!(is_well_formed(&entries));
    let mut walk = Walk::start(entries)?;
    let mut digests_taken = 0;
    while !walk.is_complete() {
        let input = walk.next_input();
        digests_taken += 1;
        walk.record(fnv128(&input));
    }
    Ok(Outcome {
        fingerprints: walk.fingerprints_so_far().clone(),
        duplicates: walk
            .duplicates()
            .iter()
            .map(|n| (n.path.clone(), n.canonical.clone()))
            .collect(),
        digests_taken,
    })
}

/// root/a/f.txt and root/b/f.txt, both holding "X", in post-order.
fn twin_tree() -> Vec<Entry> {
    vec![
        file("root/a/f.txt", b"X"),
        dir("root/a", vec![0]),
        file("root/b/f.txt", b"X"),
        dir("root/b", vec![2]),
        dir("root", vec![1, 3]),
    ]
}

#[test]
fn be_bytes_most_significant_first() {
    let x: u128 = 0x0102030405060708090a0b0c0d0e0f10;
    assert_eq!(to_be_bytes(x), (1u8..=16).collect::<Vec<u8>>());
    assert_eq!(to_be_bytes(0), vec![0u8; 16]);
}

#[test]
fn fold_concatenates_big_endian() {
    let bytes = fold_fingerprints(&[1u128, 0x100]);
    let mut expected = vec![0u8; 32];
    expected[15] = 1;
    expected[30] = 1;
    assert_eq!(bytes, expected);
    assert!(fold_fingerprints(&[]).is_empty());
}

#[test]
fn file_input_ignores_chunk_boundaries() {
    let a = file_digest_input(&vec![vec![1, 2], vec![3]]);
    let b = file_digest_input(&vec![vec![1], vec![], vec![2, 3]]);
    assert_eq!(a, vec![1, 2, 3]);
    assert_eq!(a, b);
    assert!(file_digest_input(&vec![]).is_empty());
}

#[test]
fn byte_order_is_lexicographic() {
    assert!(bytes_less_eq(b"a", b"b"));
    assert!(!bytes_less_eq(b"b", b"a"));
    assert!(bytes_less_eq(b"a", b"ab"));
    assert!(!bytes_less_eq(b"ab", b"a"));
    assert!(bytes_less_eq(b"abc", b"abc"));
    assert!(bytes_less_eq(b"", b""));
}

#[test]
fn keys_sort_by_path_then_fingerprint() {
    let keys = vec![(b"c".to_vec(), 1u128), (b"a".to_vec(), 9), (b"b".to_vec(), 5), (b"a".to_vec(), 2)];
    let sorted = sort_keys(keys);
    let expected = vec![(b"a".to_vec(), 2u128), (b"a".to_vec(), 9), (b"b".to_vec(), 5), (b"c".to_vec(), 1)];
    assert_eq!(sorted, expected);
}

#[test]
fn children_input_is_in_path_order() {
    let one = children_digest_input(vec![(b"d/y".to_vec(), 2u128), (b"d/x".to_vec(), 1)]);
    let two = children_digest_input(vec![(b"d/x".to_vec(), 1u128), (b"d/y".to_vec(), 2)]);
    assert_eq!(one, two);
    assert_eq!(one, fold_fingerprints(&[1, 2]));
    assert!(children_digest_input(vec![]).is_empty());
}

#[test]
fn registry_first_seen_wins() {
    let mut registry = DuplicateRegistry::new();
    assert!(registry.canonical_path(7).is_none());
    assert!(matches!(registry.register_if_absent(7, "root/a".to_string()), Verdict::Canonical));
    match registry.register_if_absent(7, "root/b".to_string()) {
        Verdict::Duplicate { canonical } => assert_eq!(canonical, "root/a"),
        Verdict::Canonical => panic!("second registration must be a duplicate"),
    }
    assert_eq!(registry.canonical_path(7), Some("root/a".to_string()));
    assert!(matches!(registry.register_if_absent(8, "root/c".to_string()), Verdict::Canonical));
    assert_eq!(registry.canonical_path(8), Some("root/c".to_string()));
}

#[test]
fn twin_directories_one_canonical_one_duplicate() {
    let out = run(twin_tree()).unwrap();
    assert_eq!(out.fingerprints[0], fnv128(b"X"));
    assert_eq!(out.fingerprints[1], out.fingerprints[3]);
    assert_eq!(out.fingerprints[1], fnv128(&to_be_bytes(fnv128(b"X"))));
    assert_eq!(out.duplicates, vec![("root/b".to_string(), "root/a".to_string())]);
}

#[test]
fn fingerprints_repeat_across_runs() {
    let first = run(twin_tree()).unwrap();
    let second = run(twin_tree()).unwrap();
    assert_eq!(first.fingerprints, second.fingerprints);
}

#[test]
fn listing_order_does_not_change_fingerprints() {
    let listed = vec![
        file("r/x", b"one"),
        file("r/y", b"two"),
        dir("r", vec![0, 1]),
    ];
    let reversed = vec![
        file("r/x", b"one"),
        file("r/y", b"two"),
        dir("r", vec![1, 0]),
    ];
    let a = run(listed).unwrap();
    let b = run(reversed).unwrap();
    assert_eq!(a.fingerprints, b.fingerprints);
    let mut expected = to_be_bytes(fnv128(b"one"));
    expected.extend(to_be_bytes(fnv128(b"two")));
    assert_eq!(a.fingerprints[2], fnv128(&expected));
}

#[test]
fn renaming_keeps_fingerprints() {
    let before_rename = run(vec![file("p/old.txt", b"data"), dir("p", vec![0])]).unwrap();
    let renamed = run(vec![file("q/new.txt", b"data"), dir("q", vec![0])]).unwrap();
    assert_eq!(before_rename.fingerprints, renamed.fingerprints);
    let moved = run(vec![
        file("z/deep/q/new.txt", b"data"),
        dir("z/deep/q", vec![0]),
        dir("z/deep", vec![1]),
        dir("z", vec![2]),
    ])
    .unwrap();
    assert_eq!(moved.fingerprints[1], before_rename.fingerprints[1]);
}

#[test]
fn one_changed_byte_reaches_the_root() {
    let before = run(twin_tree()).unwrap();
    let mut changed = twin_tree();
    changed[0] = file("root/a/f.txt", b"Y");
    let after = run(changed).unwrap();
    assert_ne!(before.fingerprints[0], after.fingerprints[0]);
    assert_ne!(before.fingerprints[1], after.fingerprints[1]);
    assert_ne!(before.fingerprints[4], after.fingerprints[4]);
    assert_eq!(before.fingerprints[3], after.fingerprints[3]);
    assert!(after.duplicates.is_empty());
}

#[test]
fn empty_directories_are_duplicates() {
    let out = run(vec![
        dir("t/e1", vec![]),
        dir("t/sub/e2", vec![]),
        dir("t/sub", vec![1]),
        dir("t", vec![0, 2]),
    ])
    .unwrap();
    assert_eq!(out.fingerprints[0], fnv128(&[]));
    assert_eq!(out.fingerprints[0], out.fingerprints[1]);
    assert_eq!(out.duplicates, vec![("t/sub/e2".to_string(), "t/e1".to_string())]);
}

#[test]
fn each_entry_digested_once() {
    let out = run(twin_tree()).unwrap();
    assert_eq!(out.digests_taken, 5);
    assert_eq!(out.fingerprints.len(), 5);
}

#[test]
fn unreadable_file_fails_the_whole_walk() {
    let entries = vec![
        file("r/a/ok.txt", b"fine"),
        dir("r/a", vec![0]),
        failed("r/b/deep/locked.txt", ErrorKind::FileReadError),
        dir("r/b/deep", vec![2]),
        dir("r/b", vec![3]),
        dir("r", vec![1, 4]),
    ];
    match run(entries) {
        Err(e) => {
            assert_eq!(e.path, "r/b/deep/locked.txt");
            assert_eq!(e.kind, ErrorKind::FileReadError);
        }
        Ok(_) => panic!("walk must fail"),
    }
}

#[test]
fn first_failure_is_reported() {
    let kinds = [
        ErrorKind::MetadataError,
        ErrorKind::DirectoryReadError,
        ErrorKind::FileReadError,
        ErrorKind::UnsupportedItemKind,
        ErrorKind::InvalidPathEncoding,
    ];
    for kind in kinds {
        let entries = vec![
            file("r/a", b"a"),
            failed("r/b", kind),
            failed("r/c", ErrorKind::MetadataError),
            dir("r", vec![0, 1, 2]),
        ];
        match Walk::start(entries) {
            Err(e) => {
                assert_eq!(e.path, "r/b");
                assert_eq!(e.kind, kind);
            }
            Ok(_) => panic!("walk must fail"),
        }
    }
}

#[test]
fn children_must_precede_their_directory() {
    assert!(is_well_formed(&twin_tree()));
    assert!(!is_well_formed(&vec![dir("r", vec![1]), file("r/a", b"a")]));
    assert!(!is_well_formed(&vec![dir("r", vec![0])]));
    assert!(is_well_formed(&vec![]));
}

#[test]
fn canonical_path_visible_during_walk() {
    let mut walk = Walk::start(twin_tree()).unwrap();
    while !walk.is_complete() {
        let input = walk.next_input();
        walk.record(fnv128(&input));
    }
    let dir_fp = walk.fingerprints_so_far()[1];
    assert_eq!(walk.canonical_path(dir_fp), Some("root/a".to_string()));
    assert_eq!(walk.canonical_path(fnv128(b"X")), None);
}
