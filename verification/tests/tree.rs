use std::collections::BTreeMap;

use treediff::change::{Change, EntryMode};
use treediff::error::Error;
use treediff::hash::ObjectId;
use treediff::platform::emit_changes;
use treediff::similarity::Algorithm;
use treediff::source::{find_blob, MemoryStore, ObjectKind, ObjectSource};
use treediff::frame::is_framed;
use treediff::tree::{
    decode_failure, decode_id, decode_mode, decode_record, diff_trees, load_tree, Failure, Loader, PathChange,
    Record, Refusal, Tracking,
};

fn id(n: u8) -> ObjectId {
    ObjectId::from_bytes(&[n; 20]).unwrap()
}

fn tree(entries: &[(&str, &str, ObjectId)]) -> Vec<u8> {
    let mut out = Vec::new();
    for (mode, name, id) in entries {
        out.extend_from_slice(mode.as_bytes());
        out.push(b' ');
        out.extend_from_slice(name.as_bytes());
        out.push(0);
        out.extend_from_slice(&id.to_vec());
    }
    out
}

fn mode_of(text: &[u8]) -> EntryMode {
    match text {
        b"40000" => EntryMode::Tree,
        b"100644" => EntryMode::Blob,
        b"100755" => EntryMode::BlobExecutable,
        b"120000" => EntryMode::Symlink,
        b"160000" => EntryMode::Commit,
        _ => unreachable!("the trees of these tests hold the five modes only"),
    }
}

type Leaves = BTreeMap<Vec<u8>, (EntryMode, ObjectId)>;

fn leaves_into(store: &mut MemoryStore, tree: &ObjectId, prefix: &[u8], out: &mut Leaves) {
    let data = store.find(tree).unwrap().data;
    let mut rest = &data[..];
    while !rest.is_empty() {
        let space = rest.iter().position(|b| *b == b' ').unwrap();
        let nul = rest.iter().position(|b| *b == 0).unwrap();
        let mode = mode_of(&rest[..space]);
        let mut path = prefix.to_vec();
        if !path.is_empty() {
            path.push(b'/');
        }
        path.extend_from_slice(&rest[space + 1..nul]);
        let child = ObjectId::from_bytes(&rest[nul + 1..nul + 21]).unwrap();
        if mode == EntryMode::Tree {
            leaves_into(store, &child, &path, out);
        } else {
            out.insert(path, (mode, child));
        }
        rest = &rest[nul + 21..];
    }
}

fn leaves(store: &mut MemoryStore, tree: &ObjectId) -> Leaves {
    let mut out = Leaves::new();
    leaves_into(store, tree, b"", &mut out);
    out
}

fn apply(changes: &[PathChange], to: &mut Leaves) {
    for change in changes {
        match change.change {
            Change::Addition { mode, id } => {
                if mode != EntryMode::Tree {
                    assert_eq!(to.insert(change.location.clone(), (mode, id)), None);
                }
            }
            Change::Deletion { mode, id } => {
                if mode != EntryMode::Tree {
                    assert_eq!(to.remove(&change.location), Some((mode, id)));
                }
            }
            Change::Modification { previous_mode, previous_id, mode, id } => {
                if mode != EntryMode::Tree {
                    assert_eq!(to.insert(change.location.clone(), (mode, id)), Some((previous_mode, previous_id)));
                }
            }
        }
    }
}

fn two_trees() -> (MemoryStore, ObjectId, ObjectId) {
    let mut store = MemoryStore::new();
    for n in 1..=6u8 {
        assert!(store.insert(id(n), ObjectKind::Blob, vec![b'0' + n, b'\n']));
    }
    let put = |store: &mut MemoryStore, n: u8, entries: &[(&str, &str, ObjectId)]| {
        assert!(store.insert(id(n), ObjectKind::Tree, tree(entries)));
        id(n)
    };
    let deep_a = put(&mut store, 20, &[("100644", "x", id(1)), ("100644", "y", id(2))]);
    let deep_b = put(&mut store, 21, &[("100644", "x", id(3)), ("100644", "z", id(2))]);
    let gone = put(&mut store, 22, &[("100644", "only", id(4))]);
    let sub_a = put(&mut store, 23, &[("40000", "deep", deep_a), ("40000", "gone", gone), ("100644", "same", id(5))]);
    let sub_b = put(&mut store, 24, &[("40000", "deep", deep_b), ("100644", "same", id(5))]);
    let fresh = put(&mut store, 25, &[("120000", "link", id(6))]);
    let a = put(
        &mut store,
        26,
        &[("100644", "a", id(1)), ("100644", "file", id(2)), ("40000", "sub", sub_a), ("100755", "tool", id(3))],
    );
    let b = put(
        &mut store,
        27,
        &[("100644", "a", id(1)), ("40000", "file", fresh), ("40000", "sub", sub_b), ("100755", "tool", id(4))],
    );
    (store, a, b)
}

#[test]
fn applying_the_changes_turns_one_tree_into_the_other() {
    let (mut store, a, b) = two_trees();
    for (from, to) in [(a, b), (b, a), (a, a)] {
        let changes = diff_trees(&from, &to, &mut store, Tracking::FullPath, usize::MAX).unwrap();
        let mut result = leaves(&mut store, &from);
        apply(&changes, &mut result);
        assert_eq!(result, leaves(&mut store, &to));
    }
}

#[test]
fn no_path_is_reported_twice_for_the_same_kind_of_entry() {
    let (mut store, a, b) = two_trees();
    let changes = diff_trees(&a, &b, &mut store, Tracking::FullPath, usize::MAX).unwrap();
    let mut seen = Vec::new();
    for change in &changes {
        let key = (change.location.clone(), change.change.is_addition(), change.change.is_deletion());
        assert!(!seen.contains(&key));
        seen.push(key);
    }
    let files: Vec<&PathChange> = changes.iter().filter(|c| c.change.mode() != EntryMode::Tree).collect();
    let mut paths: Vec<Vec<u8>> = files
        .iter()
        .filter(|c| !c.change.is_deletion() || !files.iter().any(|o| o.location == c.location && o.change.is_addition()))
        .map(|c| c.location.clone())
        .collect();
    let total = paths.len();
    paths.sort();
    paths.dedup();
    assert_eq!(paths.len(), total);
}

#[test]
fn the_walk_is_repeatable() {
    let (mut store, a, b) = two_trees();
    let first = diff_trees(&a, &b, &mut store, Tracking::FullPath, usize::MAX);
    let second = diff_trees(&a, &b, &mut store, Tracking::FullPath, usize::MAX);
    assert_eq!(first, second);
    assert_eq!(first.unwrap().len(), 11);
}

#[test]
fn modes_are_the_numbers_that_trees_store() {
    assert_eq!(decode_mode(0o040000), Some(EntryMode::Tree));
    assert_eq!(decode_mode(0o100644), Some(EntryMode::Blob));
    assert_eq!(decode_mode(0o100755), Some(EntryMode::BlobExecutable));
    assert_eq!(decode_mode(0o120000), Some(EntryMode::Symlink));
    assert_eq!(decode_mode(0o160000), Some(EntryMode::Commit));
    assert_eq!(decode_mode(0), None);
    assert_eq!(decode_mode(0o100664), None);
    assert!(EntryMode::Symlink.is_blob());
    assert!(EntryMode::Blob.is_blob());
    assert!(EntryMode::BlobExecutable.is_blob());
    assert!(!EntryMode::Tree.is_blob());
    assert!(!EntryMode::Commit.is_blob());
    assert!(EntryMode::Symlink.is_symlink());
    assert!(!EntryMode::Blob.is_symlink());
}

#[test]
fn records_are_decoded_field_by_field() {
    assert_eq!(decode_id(&[3u8; 20]), Some(id(3)));
    assert_eq!(decode_id(&[3u8; 32]), None);
    let record = Record::Modification {
        previous_mode: 0o100644,
        previous_id: vec![1u8; 20],
        mode: 0o100755,
        id: vec![2u8; 20],
        path: b"dir/file".to_vec(),
    };
    assert_eq!(
        decode_record(record),
        Some(PathChange {
            location: b"dir/file".to_vec(),
            change: Change::Modification {
                previous_mode: EntryMode::Blob,
                previous_id: id(1),
                mode: EntryMode::BlobExecutable,
                id: id(2)
            }
        })
    );
    assert_eq!(
        decode_record(Record::Addition { mode: 0o040000, id: vec![9u8; 20], path: vec![] }),
        Some(PathChange { location: vec![], change: Change::Addition { mode: EntryMode::Tree, id: id(9) } })
    );
    assert_eq!(
        decode_record(Record::Deletion { mode: 0o120000, id: vec![9u8; 20], path: b"l".to_vec() }),
        Some(PathChange { location: b"l".to_vec(), change: Change::Deletion { mode: EntryMode::Symlink, id: id(9) } })
    );
    assert_eq!(decode_record(Record::Deletion { mode: 7, id: vec![9u8; 20], path: vec![] }), None);
    assert_eq!(decode_record(Record::Addition { mode: 0o100644, id: vec![9u8; 3], path: vec![] }), None);
}

#[test]
fn failures_of_the_walk_are_errors_of_the_diff() {
    let at = id(9);
    assert_eq!(decode_failure(Failure::Missing(vec![4u8; 20]), None, at), Error::ObjectMissing(id(4)));
    assert_eq!(
        decode_failure(Failure::Missing(vec![4u8; 20]), Some(Refusal::Spent), at),
        Error::BudgetSpent(id(4))
    );
    assert_eq!(
        decode_failure(Failure::Missing(vec![4u8; 20]), Some(Refusal::Malformed), at),
        Error::Decode(id(4))
    );
    assert_eq!(decode_failure(Failure::Missing(vec![4u8; 2]), None, at), Error::Decode(at));
    assert_eq!(decode_failure(Failure::Decode, None, at), Error::Decode(at));
    assert_eq!(decode_failure(Failure::Cancelled, Some(Refusal::Spent), at), Error::Decode(at));
}

#[test]
fn loading_a_tree_uses_up_the_budget() {
    let (mut store, a, _) = two_trees();
    let mut loader = Loader::new(2);
    assert_eq!(loader, Loader { left: 2, refused: None });
    assert_eq!(load_tree(&mut store, &mut loader, &a.to_vec()), store.find(&a).map(|o| o.data));
    assert_eq!(loader, Loader { left: 1, refused: None });
    assert_eq!(load_tree(&mut store, &mut loader, &id(1).to_vec()), None);
    assert_eq!(loader, Loader { left: 0, refused: None });
    assert_eq!(load_tree(&mut store, &mut loader, &a.to_vec()), None);
    assert_eq!(loader, Loader { left: 0, refused: Some(Refusal::Spent) });
    let mut loader = Loader::new(5);
    assert_eq!(load_tree(&mut store, &mut loader, b"short"), None);
    assert_eq!(loader, Loader { left: 4, refused: None });
    assert!(store.insert(id(70), ObjectKind::Tree, b"100644".to_vec()));
    assert_eq!(load_tree(&mut store, &mut loader, &id(70).to_vec()), None);
    assert_eq!(loader, Loader { left: 3, refused: Some(Refusal::Malformed) });
}

#[test]
fn trees_are_whole_entries_and_nothing_else() {
    let entry = tree(&[("100644", "a", id(1))]);
    assert!(is_framed(b""));
    assert!(is_framed(&entry));
    assert!(is_framed(&tree(&[("40000", "", id(1)), ("160000", "x y", id(2)), ("120000", "l", id(3))])));
    assert!(is_framed(&tree(&[("000000000000000040000", "d", id(1))])));
    assert!(is_framed(&tree(&[("40000040000", "wrapped", id(1))])));
    assert!(!is_framed(&tree(&[("4000", "d", id(1))])));
    assert!(!is_framed(&tree(&[("", "d", id(1))])));
    assert!(!is_framed(&tree(&[("100648", "d", id(1))])));
    assert!(!is_framed(b"1"));
    assert!(!is_framed(b"100644"));
    assert!(!is_framed(b"100644 name"));
    assert!(!is_framed(&entry[..entry.len() - 1]));
    let mut longer = entry.clone();
    longer.push(b'7');
    assert!(!is_framed(&longer));
    longer.push(b' ');
    assert!(!is_framed(&longer));
}

#[test]
fn blobs_are_found_as_blobs_only() {
    let (mut store, a, _) = two_trees();
    assert_eq!(find_blob(&mut store, &id(1)), Some(b"1\n".to_vec()));
    assert_eq!(find_blob(&mut store, &a), None);
    assert_eq!(find_blob(&mut store, &id(99)), None);
}

#[test]
fn changes_are_emitted_in_the_order_of_the_walk() {
    let mut store = MemoryStore::new();
    let changes = vec![
        PathChange { location: b"b".to_vec(), change: Change::Addition { mode: EntryMode::Blob, id: id(1) } },
        PathChange { location: b"dir".to_vec(), change: Change::Deletion { mode: EntryMode::Tree, id: id(2) } },
        PathChange { location: b"a".to_vec(), change: Change::Deletion { mode: EntryMode::Blob, id: id(1) } },
        PathChange { location: b"sub".to_vec(), change: Change::Addition { mode: EntryMode::Commit, id: id(3) } },
    ];
    let plain = emit_changes(changes.clone(), None, &mut store, Algorithm::Myers).unwrap();
    let paths: Vec<&[u8]> = plain.iter().map(|e| &e.destination.location[..]).collect();
    assert_eq!(paths, vec![&b"b"[..], b"dir", b"a", b"sub"]);
    assert!(plain.iter().all(|e| e.source.is_none()));
    let rewritten = emit_changes(changes, Some(Default::default()), &mut store, Algorithm::Myers).unwrap();
    let paths: Vec<&[u8]> = rewritten.iter().map(|e| &e.destination.location[..]).collect();
    assert_eq!(paths, vec![&b"dir"[..], b"sub", b"b"]);
    assert_eq!(rewritten[2].source.as_ref().unwrap().location, b"a".to_vec());
}
