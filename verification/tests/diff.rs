use treediff::change::{Change, EntryMode};
use treediff::error::Error;
use treediff::hash::ObjectId;
use treediff::callback::{hand_on, Action, Handed};
use treediff::platform::{diff_with_rewrites, tell_into};
use treediff::rewrites::{Copies, CopySource, Percentage, Rewrites};
use treediff::similarity::{count_lines, Algorithm};
use treediff::source::{MemoryStore, ObjectKind, ObjectSource};
use treediff::tree::{diff_trees, diff_trees_into, diff_trees_until, PathChange, Tracking};
use treediff::visit::{Event, Kind};

const TREE: &str = "40000";
const BLOB: &str = "100644";
const EXE: &str = "100755";
const LINK: &str = "120000";

fn id(n: u8) -> ObjectId {
    ObjectId::from_bytes(&[n; 20]).unwrap()
}

fn tree(entries: &[(&str, &str, ObjectId)]) -> Vec<u8> {
    let mut out = Vec::new();
    for (mode, name, id) in entries {
        out.extend_from_slice(mode.as_bytes());
        out.push(b' ');
        out.extend_from_slice(name.as_bytes());
        out.push(0);
        out.extend_from_slice(&id.to_vec());
    }
    out
}

fn blob(store: &mut MemoryStore, n: u8, data: &str) -> ObjectId {
    assert!(store.insert(id(n), ObjectKind::Blob, data.as_bytes().to_vec()));
    id(n)
}

fn put_tree(store: &mut MemoryStore, n: u8, entries: &[(&str, &str, ObjectId)]) -> ObjectId {
    assert!(store.insert(id(n), ObjectKind::Tree, tree(entries)));
    id(n)
}

fn text(bytes: &[u8]) -> String {
    String::from_utf8(bytes.to_vec()).unwrap()
}

fn locations(changes: &[PathChange]) -> Vec<String> {
    changes.iter().map(|c| text(&c.location)).collect()
}

fn rewrites_of(events: &[Event]) -> Vec<String> {
    let mut out = Vec::new();
    for event in events {
        if let Some(source) = &event.source {
            out.push(text(&source.location));
            out.push(text(&event.destination.location));
        }
    }
    out
}

fn half() -> Option<Percentage> {
    Percentage::new(1, 2)
}

#[test]
fn changes_against_tree_modified() {
    let mut store = MemoryStore::new();
    let before = blob(&mut store, 1, "a\n");
    let after = blob(&mut store, 2, "a\na1\n");
    let from = put_tree(&mut store, 10, &[(BLOB, "a", before)]);
    let to = put_tree(&mut store, 11, &[(BLOB, "a", after)]);
    let changes = diff_trees(&from, &to, &mut store, Tracking::NoTracking, usize::MAX).unwrap();
    assert_eq!(changes.len(), 1);
    for change in &changes {
        assert_eq!(text(&change.location), "", "without configuration the location field is empty");
        match change.change {
            Change::Modification { previous_mode, previous_id, mode, id } => {
                assert_eq!(previous_mode, EntryMode::Blob);
                assert_eq!(mode, EntryMode::Blob);
                let old = store.find(&previous_id).unwrap().data;
                let new = store.find(&id).unwrap().data;
                assert_eq!(text(&old), "a\n");
                assert_eq!(text(&new), "a\na1\n");
                let count = count_lines(&old, &new, Algorithm::Histogram).expect("objects available");
                assert_eq!(count.insertions, 1);
                assert_eq!(count.removals, 0);
            }
            Change::Deletion { .. } | Change::Addition { .. } => {
                unreachable!("only modification is expected")
            }
        }
    }
}

fn first_commit(store: &mut MemoryStore) -> (ObjectId, ObjectId) {
    let a = blob(store, 1, "a\n");
    let b = blob(store, 2, "b\n");
    let c = blob(store, 3, "c\n");
    let d = blob(store, 4, "d\n");
    let dir = put_tree(store, 20, &[(BLOB, "c", c)]);
    let empty = put_tree(store, 21, &[]);
    let to = put_tree(store, 22, &[(BLOB, "a", a), (BLOB, "b", b), (BLOB, "d", d), (TREE, "dir", dir)]);
    (empty, to)
}

#[test]
fn changes_against_tree_with_filename_tracking() {
    let mut store = MemoryStore::new();
    let (from, to) = first_commit(&mut store);

    let mut expected = vec!["a", "b", "c", "d"];
    for location in locations(&diff_trees(&from, &to, &mut store, Tracking::FilenameOnly, usize::MAX).unwrap()) {
        expected.retain(|name| *name != location);
    }
    assert_eq!(expected, Vec::<&str>::new(), "all paths should have been seen");

    let mut expected = vec!["a", "b", "dir/c", "d"];
    for location in locations(&diff_trees(&from, &to, &mut store, Tracking::FullPath, usize::MAX).unwrap()) {
        expected.retain(|name| *name != location);
    }
    assert_eq!(expected, Vec::<&str>::new(), "all paths should have been seen");

    let mut events = Vec::new();
    tell_into(&from, &to, &mut store, Tracking::FullPath, None, Algorithm::Histogram, usize::MAX, &mut events)
        .unwrap();
    let err = hand_on(&events, |_change| -> Result<Action, std::io::Error> {
        Err(std::io::Error::new(std::io::ErrorKind::Other, "custom error"))
    })
    .unwrap_err();
    assert_eq!(err.to_string(), "custom error", "custom errors made visible and not squelched");
}

#[test]
fn tracking_modes_report_exact_locations() {
    let mut store = MemoryStore::new();
    let (from, to) = first_commit(&mut store);
    let none = diff_trees(&from, &to, &mut store, Tracking::NoTracking, usize::MAX).unwrap();
    assert_eq!(locations(&none), vec!["", "", "", "", ""]);
    let names = diff_trees(&from, &to, &mut store, Tracking::FilenameOnly, usize::MAX).unwrap();
    assert_eq!(locations(&names), vec!["a", "b", "d", "dir", "c"]);
    let paths = diff_trees(&from, &to, &mut store, Tracking::FullPath, usize::MAX).unwrap();
    assert_eq!(locations(&paths), vec!["a", "b", "d", "dir", "dir/c"]);
    assert_eq!(paths[3].change, Change::Addition { mode: EntryMode::Tree, id: id(20) });
    assert_eq!(paths[4].change, Change::Addition { mode: EntryMode::Blob, id: id(3) });
}

fn identity_rename(store: &mut MemoryStore) -> (ObjectId, ObjectId) {
    let x = blob(store, 1, "a\n");
    let from = put_tree(store, 10, &[(BLOB, "a", x)]);
    let dir = put_tree(store, 11, &[(BLOB, "a-moved", x)]);
    let to = put_tree(store, 12, &[(TREE, "dir", dir)]);
    (from, to)
}

fn ambiguous_rename(store: &mut MemoryStore) -> (ObjectId, ObjectId) {
    let y = blob(store, 1, "same\n");
    let from = put_tree(store, 10, &[(BLOB, "s1", y), (BLOB, "s2", y), (BLOB, "s3", y)]);
    let to = put_tree(store, 11, &[(BLOB, "b1", y), (BLOB, "b2", y), (BLOB, "z", y)]);
    (from, to)
}

fn identical_additions(store: &mut MemoryStore) -> (ObjectId, ObjectId) {
    let x = blob(store, 1, "a\n");
    let z = blob(store, 2, "same\n");
    let from = put_tree(store, 10, &[(BLOB, "a", x)]);
    let to = put_tree(store, 11, &[(BLOB, "a", x), (BLOB, "p", z), (BLOB, "q", z)]);
    (from, to)
}

#[test]
fn rename_identity() {
    let cases: Vec<(fn(&mut MemoryStore) -> (ObjectId, ObjectId), Vec<&str>, &str)> = vec![
        (identity_rename, vec!["a", "dir/a-moved"], "one rename and nothing else"),
        (
            ambiguous_rename,
            vec!["s1", "b1", "s2", "b2", "s3", "z"],
            "multiple possible sources decide by ordering everything lexicographically",
        ),
        (identical_additions, vec![], "not having any renames is OK as well"),
    ];
    for (make, expected, assert_msg) in cases {
        for percentage in [None, half()] {
            let mut store = MemoryStore::new();
            let (from, to) = make(&mut store);
            let rewrites = Rewrites { percentage, ..Default::default() };
            let events = diff_with_rewrites(
                &from,
                &to,
                &mut store,
                Tracking::FullPath,
                Some(rewrites),
                Algorithm::Histogram,
                usize::MAX,
            )
            .unwrap();
            let mut actual = Vec::new();
            for event in &events {
                if !event.destination.change.mode().is_tree() {
                    if let Some(source) = &event.source {
                        actual.push(text(&source.location));
                        actual.push(text(&event.destination.location));
                    }
                }
            }
            assert_eq!(actual, expected, "{assert_msg}");
        }
    }
}

#[test]
fn identity_rename_emits_one_rewrite_and_the_directory() {
    let mut store = MemoryStore::new();
    let (from, to) = identity_rename(&mut store);
    let events = diff_with_rewrites(
        &from,
        &to,
        &mut store,
        Tracking::FullPath,
        Some(Rewrites::default()),
        Algorithm::Histogram,
        usize::MAX,
    )
    .unwrap();
    assert_eq!(events.len(), 2);
    assert_eq!(text(&events[0].destination.location), "dir");
    assert!(events[0].source.is_none());
    let source = events[1].source.clone().unwrap();
    assert_eq!(source.kind, Kind::RenameTarget);
    assert_eq!(source.mode, EntryMode::Blob);
    assert_eq!(source.id, id(1));
    assert_eq!(text(&source.location), "a");
    assert_eq!(events[1].destination.change, Change::Addition { mode: EntryMode::Blob, id: id(1) });
    assert_eq!(text(&events[1].destination.location), "dir/a-moved");
}

#[test]
fn unchanged_files_are_not_reported() {
    let mut store = MemoryStore::new();
    let same = blob(&mut store, 1, "same\n");
    let other = blob(&mut store, 2, "other\n");
    let from = put_tree(&mut store, 10, &[(BLOB, "p", same), (BLOB, "q", same)]);
    let to = put_tree(&mut store, 11, &[(BLOB, "p", same), (BLOB, "q", same), (BLOB, "r", other)]);
    let events = diff_with_rewrites(
        &from,
        &to,
        &mut store,
        Tracking::FullPath,
        Some(Rewrites::default()),
        Algorithm::Histogram,
        usize::MAX,
    )
    .unwrap();
    assert_eq!(events.len(), 1);
    assert_eq!(text(&events[0].destination.location), "r");
    assert!(events[0].source.is_none());
}

#[test]
fn a_tree_does_not_differ_from_itself() {
    let mut store = MemoryStore::new();
    let (_, to) = first_commit(&mut store);
    for tracking in [Tracking::NoTracking, Tracking::FilenameOnly, Tracking::FullPath] {
        assert_eq!(diff_trees(&to, &to, &mut store, tracking, usize::MAX), Ok(vec![]));
        assert_eq!(diff_trees(&to, &to, &mut store, tracking, 0), Ok(vec![]));
    }
}

#[test]
fn reversing_the_direction_reverses_the_changes() {
    let mut store = MemoryStore::new();
    let one = blob(&mut store, 1, "one\n");
    let two = blob(&mut store, 2, "two\n");
    let three = blob(&mut store, 3, "three\n");
    let from = put_tree(&mut store, 10, &[(BLOB, "gone", one), (BLOB, "kept", two)]);
    let to = put_tree(&mut store, 11, &[(BLOB, "kept", three), (EXE, "new", one)]);
    let forward = diff_trees(&from, &to, &mut store, Tracking::FullPath, usize::MAX).unwrap();
    let backward = diff_trees(&to, &from, &mut store, Tracking::FullPath, usize::MAX).unwrap();
    assert_eq!(
        forward,
        vec![
            PathChange { location: b"gone".to_vec(), change: Change::Deletion { mode: EntryMode::Blob, id: one } },
            PathChange {
                location: b"kept".to_vec(),
                change: Change::Modification {
                    previous_mode: EntryMode::Blob,
                    previous_id: two,
                    mode: EntryMode::Blob,
                    id: three
                }
            },
            PathChange {
                location: b"new".to_vec(),
                change: Change::Addition { mode: EntryMode::BlobExecutable, id: one }
            },
        ]
    );
    assert_eq!(
        backward,
        vec![
            PathChange { location: b"gone".to_vec(), change: Change::Addition { mode: EntryMode::Blob, id: one } },
            PathChange {
                location: b"kept".to_vec(),
                change: Change::Modification {
                    previous_mode: EntryMode::Blob,
                    previous_id: three,
                    mode: EntryMode::Blob,
                    id: two
                }
            },
            PathChange {
                location: b"new".to_vec(),
                change: Change::Deletion { mode: EntryMode::BlobExecutable, id: one }
            },
        ]
    );
}

#[test]
fn modifications_have_new_content_and_paths_occur_once() {
    let mut store = MemoryStore::new();
    let one = blob(&mut store, 1, "one\n");
    let two = blob(&mut store, 2, "two\n");
    let inner_a = put_tree(&mut store, 10, &[(BLOB, "x", one), (BLOB, "y", one), (BLOB, "z", one)]);
    let inner_b = put_tree(&mut store, 11, &[(BLOB, "x", two), (EXE, "y", one), (EXE, "z", two)]);
    let from = put_tree(&mut store, 12, &[(BLOB, "f", one), (TREE, "sub", inner_a)]);
    let to = put_tree(&mut store, 13, &[(BLOB, "f", one), (TREE, "sub", inner_b)]);
    let changes = diff_trees(&from, &to, &mut store, Tracking::FullPath, usize::MAX).unwrap();
    let paths = locations(&changes);
    assert_eq!(paths, vec!["sub", "sub/x", "sub/z"]);
    for change in &changes {
        match change.change {
            Change::Modification { previous_id, id, .. } => assert_ne!(previous_id, id),
            _ => unreachable!("only modifications are expected"),
        }
    }
    assert_eq!(
        changes[2].change,
        Change::Modification {
            previous_mode: EntryMode::Blob,
            previous_id: one,
            mode: EntryMode::BlobExecutable,
            id: two
        }
    );
    let mut sorted = paths.clone();
    sorted.sort();
    sorted.dedup();
    assert_eq!(sorted.len(), paths.len());
}

#[test]
fn a_file_replaced_by_a_directory_is_deleted_and_added() {
    let mut store = MemoryStore::new();
    let one = blob(&mut store, 1, "one\n");
    let inner = put_tree(&mut store, 10, &[(BLOB, "x", one)]);
    let from = put_tree(&mut store, 11, &[(BLOB, "name", one)]);
    let to = put_tree(&mut store, 12, &[(TREE, "name", inner)]);
    let changes = diff_trees(&from, &to, &mut store, Tracking::FullPath, usize::MAX).unwrap();
    assert_eq!(locations(&changes), vec!["name", "name", "name/x"]);
    assert_eq!(changes[0].change, Change::Deletion { mode: EntryMode::Blob, id: one });
    assert_eq!(changes[1].change, Change::Addition { mode: EntryMode::Tree, id: inner });
    assert_eq!(changes[2].change, Change::Addition { mode: EntryMode::Blob, id: one });
}

#[test]
fn missing_and_broken_trees_are_errors() {
    let mut store = MemoryStore::new();
    let one = blob(&mut store, 1, "one\n");
    let from = put_tree(&mut store, 10, &[]);
    let dangling = put_tree(&mut store, 11, &[(TREE, "sub", id(99))]);
    assert_eq!(
        diff_trees(&id(50), &from, &mut store, Tracking::FullPath, usize::MAX),
        Err(Error::ObjectMissing(id(50)))
    );
    assert_eq!(
        diff_trees(&from, &id(51), &mut store, Tracking::FullPath, usize::MAX),
        Err(Error::ObjectMissing(id(51)))
    );
    assert_eq!(
        diff_trees(&from, &one, &mut store, Tracking::FullPath, usize::MAX),
        Err(Error::ObjectMissing(one))
    );
    assert_eq!(
        diff_trees(&from, &dangling, &mut store, Tracking::FullPath, usize::MAX),
        Err(Error::ObjectMissing(id(99)))
    );
    assert!(store.insert(id(12), ObjectKind::Tree, b"100644 broken".to_vec()));
    assert_eq!(
        diff_trees(&from, &id(12), &mut store, Tracking::FullPath, usize::MAX),
        Err(Error::Decode(id(12)))
    );
}

#[test]
fn the_budget_bounds_the_subtrees_that_are_loaded() {
    let mut store = MemoryStore::new();
    let (from, to) = first_commit(&mut store);
    assert_eq!(
        diff_trees(&from, &to, &mut store, Tracking::FullPath, 0),
        Err(Error::BudgetSpent(id(20)))
    );
    assert_eq!(diff_trees(&from, &to, &mut store, Tracking::FullPath, 1).unwrap().len(), 5);
    assert!(store.insert(id(30), ObjectKind::Tree, tree(&[(TREE, "again", id(30))])));
    assert_eq!(
        diff_trees(&from, &id(30), &mut store, Tracking::FullPath, 7),
        Err(Error::BudgetSpent(id(30)))
    );
}

#[test]
fn without_settings_every_change_is_emitted_as_it_is() {
    let mut store = MemoryStore::new();
    let (from, to) = identity_rename(&mut store);
    let events =
        diff_with_rewrites(&from, &to, &mut store, Tracking::FullPath, None, Algorithm::Histogram, usize::MAX)
            .unwrap();
    let paths: Vec<String> = events.iter().map(|e| text(&e.destination.location)).collect();
    assert_eq!(paths, vec!["a", "dir", "dir/a-moved"]);
    assert!(events.iter().all(|e| e.source.is_none()));
    assert_eq!(rewrites_of(&events), Vec::<String>::new());
}

fn edited_rename(store: &mut MemoryStore) -> (ObjectId, ObjectId) {
    let before = blob(store, 1, "one\ntwo\nthree\nfour\n");
    let after = blob(store, 2, "one\ntwo\nthree\nFOUR\n");
    let from = put_tree(store, 10, &[(BLOB, "old", before)]);
    let to = put_tree(store, 11, &[(BLOB, "new", after)]);
    (from, to)
}

fn rewrites_at(numerator: u64, denominator: u64) -> Rewrites {
    Rewrites { percentage: Percentage::new(numerator, denominator), ..Default::default() }
}

#[test]
fn similar_files_are_renames_up_to_the_threshold() {
    for (numerator, denominator, expected) in [
        (1, 2, vec!["old", "new"]),
        (3, 4, vec!["old", "new"]),
        (76, 100, vec![]),
        (1, 1, vec![]),
        (3, 2, vec![]),
    ] {
        let mut store = MemoryStore::new();
        let (from, to) = edited_rename(&mut store);
        let events = diff_with_rewrites(
            &from,
            &to,
            &mut store,
            Tracking::FullPath,
            Some(rewrites_at(numerator, denominator)),
            Algorithm::Histogram,
            usize::MAX,
        )
        .unwrap();
        assert_eq!(rewrites_of(&events), expected, "{numerator}/{denominator}");
        if expected.is_empty() {
            let paths: Vec<String> = events.iter().map(|e| text(&e.destination.location)).collect();
            assert_eq!(paths, vec!["new", "old"]);
        } else {
            assert_eq!(events.len(), 1);
        }
    }
}

#[test]
fn without_a_threshold_only_identical_files_are_renames() {
    let mut store = MemoryStore::new();
    let (from, to) = edited_rename(&mut store);
    let rewrites = Rewrites { percentage: None, ..Default::default() };
    let events = diff_with_rewrites(
        &from,
        &to,
        &mut store,
        Tracking::FullPath,
        Some(rewrites),
        Algorithm::Histogram,
        usize::MAX,
    )
    .unwrap();
    assert_eq!(rewrites_of(&events), Vec::<String>::new());
}

#[test]
fn above_the_limit_content_is_not_compared() {
    let mut store = MemoryStore::new();
    let (from, to) = edited_rename(&mut store);
    for (limit, expected) in [(1usize, vec!["old", "new"]), (0usize, vec![])] {
        let rewrites = Rewrites { limit, ..Default::default() };
        let events = diff_with_rewrites(
            &from,
            &to,
            &mut store,
            Tracking::FullPath,
            Some(rewrites),
            Algorithm::Histogram,
            usize::MAX,
        )
        .unwrap();
        assert_eq!(rewrites_of(&events), expected, "limit {limit}");
    }
}

#[test]
fn symbolic_links_match_by_identity_only() {
    let mut store = MemoryStore::new();
    let before = blob(&mut store, 1, "one\ntwo\nthree\nfour\n");
    let after = blob(&mut store, 2, "one\ntwo\nthree\nFOUR\n");
    let from = put_tree(&mut store, 10, &[(LINK, "old", before)]);
    let to = put_tree(&mut store, 11, &[(LINK, "new", after)]);
    let events = diff_with_rewrites(
        &from,
        &to,
        &mut store,
        Tracking::FullPath,
        Some(Rewrites::default()),
        Algorithm::Histogram,
        usize::MAX,
    )
    .unwrap();
    assert_eq!(rewrites_of(&events), Vec::<String>::new());
    let same = put_tree(&mut store, 12, &[(LINK, "new", before)]);
    let events = diff_with_rewrites(
        &from,
        &same,
        &mut store,
        Tracking::FullPath,
        Some(Rewrites::default()),
        Algorithm::Histogram,
        usize::MAX,
    )
    .unwrap();
    assert_eq!(rewrites_of(&events), vec!["old", "new"]);
}

#[test]
fn a_blob_that_cannot_be_fetched_fails_the_comparison() {
    let mut store = MemoryStore::new();
    let before = blob(&mut store, 1, "one\n");
    let from = put_tree(&mut store, 10, &[(BLOB, "old", before)]);
    let to = put_tree(&mut store, 11, &[(BLOB, "new", id(2))]);
    let result = diff_with_rewrites(
        &from,
        &to,
        &mut store,
        Tracking::FullPath,
        Some(Rewrites::default()),
        Algorithm::Histogram,
        usize::MAX,
    );
    assert_eq!(result, Err(Error::BlobFetch(id(2))));
    let gone = put_tree(&mut store, 12, &[(BLOB, "old", id(3))]);
    let to = put_tree(&mut store, 13, &[(BLOB, "new", before)]);
    let result = diff_with_rewrites(
        &gone,
        &to,
        &mut store,
        Tracking::FullPath,
        Some(Rewrites::default()),
        Algorithm::Histogram,
        usize::MAX,
    );
    assert_eq!(result, Err(Error::BlobFetch(id(3))));
}

#[test]
fn copies_leave_their_source_in_place() {
    let mut store = MemoryStore::new();
    let one = blob(&mut store, 1, "one\n");
    let two = blob(&mut store, 2, "two\n");
    let from = put_tree(&mut store, 10, &[(BLOB, "origin", one)]);
    let to = put_tree(&mut store, 11, &[(BLOB, "copy", two), (BLOB, "origin", two)]);
    let copies = Copies { source: CopySource::FromSetOfChangedFiles, percentage: None };
    let rewrites = Rewrites { copies: Some(copies), percentage: None, limit: 1000 };
    let events = diff_with_rewrites(
        &from,
        &to,
        &mut store,
        Tracking::FullPath,
        Some(rewrites),
        Algorithm::Histogram,
        usize::MAX,
    )
    .unwrap();
    assert_eq!(events.len(), 2);
    let source = events[0].source.clone().unwrap();
    assert_eq!(source.kind, Kind::Copy);
    assert_eq!(text(&source.location), "origin");
    assert_eq!(source.id, two);
    assert_eq!(text(&events[0].destination.location), "copy");
    assert!(events[1].source.is_none());
    assert_eq!(text(&events[1].destination.location), "origin");
    assert_eq!(
        events[1].destination.change,
        Change::Modification { previous_mode: EntryMode::Blob, previous_id: one, mode: EntryMode::Blob, id: two }
    );

    let renames_only = Rewrites { copies: None, percentage: None, limit: 1000 };
    let events = diff_with_rewrites(
        &from,
        &to,
        &mut store,
        Tracking::FullPath,
        Some(renames_only),
        Algorithm::Histogram,
        usize::MAX,
    )
    .unwrap();
    assert_eq!(rewrites_of(&events), Vec::<String>::new());
    assert_eq!(events.len(), 2);
}

#[test]
fn cancelling_at_the_second_change_shows_two_changes() {
    let mut store = MemoryStore::new();
    let (from, to) = first_commit(&mut store);
    let all = diff_trees(&from, &to, &mut store, Tracking::FullPath, usize::MAX).unwrap();
    assert_eq!(all.len(), 5);
    let seen = diff_trees_until(&from, &to, &mut store, Tracking::FullPath, usize::MAX, 2).unwrap();
    assert_eq!(seen.len(), 2);
    assert_eq!(seen, all[..2].to_vec());
    for cancel_at in [0usize, 5, 6, usize::MAX] {
        assert_eq!(
            diff_trees_until(&from, &to, &mut store, Tracking::FullPath, usize::MAX, cancel_at),
            Ok(all.clone()),
            "{cancel_at}"
        );
    }
    assert_eq!(diff_trees_until(&from, &to, &mut store, Tracking::FullPath, usize::MAX, 1).unwrap().len(), 1);
}

#[test]
fn cancelling_before_a_failure_is_a_success() {
    let mut store = MemoryStore::new();
    let one = blob(&mut store, 1, "one\n");
    let from = put_tree(&mut store, 10, &[]);
    let to = put_tree(&mut store, 11, &[(BLOB, "a", one), (TREE, "sub", id(99))]);
    assert_eq!(
        diff_trees(&from, &to, &mut store, Tracking::FullPath, usize::MAX),
        Err(Error::ObjectMissing(id(99)))
    );
    let mut told = vec![PathChange { location: b"kept".to_vec(), change: Change::Deletion { mode: EntryMode::Blob, id: one } }];
    assert_eq!(
        diff_trees_into(&from, &to, &mut store, Tracking::FullPath, usize::MAX, &mut told),
        Err(Error::ObjectMissing(id(99)))
    );
    assert_eq!(locations(&told), vec!["kept", "a", "sub"]);
    for cancel_at in [1usize, 2] {
        let seen = diff_trees_until(&from, &to, &mut store, Tracking::FullPath, usize::MAX, cancel_at).unwrap();
        assert_eq!(seen, told[1..1 + cancel_at].to_vec());
    }
    for cancel_at in [0usize, 3] {
        assert_eq!(
            diff_trees_until(&from, &to, &mut store, Tracking::FullPath, usize::MAX, cancel_at),
            Err(Error::ObjectMissing(id(99)))
        );
    }
    assert_eq!(
        diff_trees_until(&id(50), &to, &mut store, Tracking::FullPath, usize::MAX, 1),
        Err(Error::ObjectMissing(id(50)))
    );
}

#[test]
fn trees_that_end_within_an_entry_cannot_be_decoded() {
    let whole = tree(&[(BLOB, "a", id(1))]);
    let mut cut_in_mode = whole.clone();
    cut_in_mode.push(b'7');
    let mut cut_in_name = whole.clone();
    cut_in_name.extend_from_slice(b"100644 name");
    let mut cut_in_id = whole.clone();
    cut_in_id.extend_from_slice(b"100644 name\0short");
    let broken: Vec<Vec<u8>> = vec![
        b"1".to_vec(),
        b"100644".to_vec(),
        b"100644 ".to_vec(),
        b" ".to_vec(),
        b"100644x name\0aaaaaaaaaaaaaaaaaaaa".to_vec(),
        b"100645 name\0aaaaaaaaaaaaaaaaaaaa".to_vec(),
        b"8 name\0aaaaaaaaaaaaaaaaaaaa".to_vec(),
        cut_in_mode,
        cut_in_name,
        cut_in_id,
    ];
    for (n, data) in broken.into_iter().enumerate() {
        let mut store = MemoryStore::new();
        let empty = put_tree(&mut store, 10, &[]);
        assert!(store.insert(id(11), ObjectKind::Tree, data));
        let outer = put_tree(&mut store, 12, &[(TREE, "sub", id(11))]);
        for tracking in [Tracking::NoTracking, Tracking::FullPath] {
            assert_eq!(diff_trees(&empty, &id(11), &mut store, tracking, usize::MAX), Err(Error::Decode(id(11))), "{n}");
            assert_eq!(diff_trees(&id(11), &empty, &mut store, tracking, usize::MAX), Err(Error::Decode(id(11))), "{n}");
            assert_eq!(diff_trees(&empty, &outer, &mut store, tracking, usize::MAX), Err(Error::Decode(id(11))), "{n}");
            assert_eq!(diff_trees(&outer, &empty, &mut store, tracking, usize::MAX), Err(Error::Decode(id(11))), "{n}");
            assert_eq!(diff_trees(&id(11), &id(11), &mut store, tracking, usize::MAX), Ok(vec![]), "{n}");
        }
    }
}

#[test]
fn rare_modes_of_files_are_read() {
    let mut store = MemoryStore::new();
    let one = blob(&mut store, 1, "one\n");
    let empty = put_tree(&mut store, 10, &[]);
    let to = put_tree(&mut store, 11, &[("100640", "a", one), ("100664", "b", one), ("0000000000040000", "c", empty)]);
    let changes = diff_trees(&empty, &to, &mut store, Tracking::FullPath, usize::MAX).unwrap();
    assert_eq!(locations(&changes), vec!["a", "b", "c"]);
    assert_eq!(changes[0].change, Change::Addition { mode: EntryMode::Blob, id: one });
    assert_eq!(changes[1].change, Change::Addition { mode: EntryMode::Blob, id: one });
    assert_eq!(changes[2].change, Change::Addition { mode: EntryMode::Tree, id: empty });
}

#[test]
fn a_callback_sees_emissions_until_it_cancels_or_fails() {
    let mut store = MemoryStore::new();
    let (from, to) = first_commit(&mut store);
    let mut events = Vec::new();
    assert_eq!(
        tell_into(&from, &to, &mut store, Tracking::FullPath, None, Algorithm::Histogram, usize::MAX, &mut events),
        Ok(())
    );
    assert_eq!(events.len(), 5);
    let seen = std::cell::RefCell::new(Vec::new());
    let cancel_at_second = |event: &treediff::visit::Event| -> Result<Action, std::fmt::Error> {
        seen.borrow_mut().push(text(&event.destination.location));
        Ok(if seen.borrow().len() == 2 { Action::Cancel } else { Action::Continue })
    };
    assert_eq!(hand_on(&events, cancel_at_second), Ok(Handed { seen: 2, cancelled: true }));
    assert_eq!(*seen.borrow(), vec!["a", "b"]);
    let all = |_: &treediff::visit::Event| -> Result<Action, std::fmt::Error> { Ok(Action::Continue) };
    assert_eq!(hand_on(&events, all), Ok(Handed { seen: 5, cancelled: false }));
    let last = |event: &treediff::visit::Event| -> Result<Action, std::fmt::Error> {
        Ok(if event.destination.location == b"dir/c" { Action::Cancel } else { Action::Continue })
    };
    assert_eq!(hand_on(&events, last), Ok(Handed { seen: 5, cancelled: true }));
    let count = std::cell::Cell::new(0);
    let failing = |_: &treediff::visit::Event| -> Result<Action, std::fmt::Error> {
        count.set(count.get() + 1);
        if count.get() == 3 { Err(std::fmt::Error) } else { Ok(Action::Continue) }
    };
    assert_eq!(hand_on(&events, failing), Err(std::fmt::Error));
    assert_eq!(count.get(), 3);
    assert_eq!(hand_on(&Vec::new(), all), Ok(Handed { seen: 0, cancelled: false }));
}

#[test]
fn what_was_told_before_a_failure_is_kept() {
    let mut store = MemoryStore::new();
    let x = blob(&mut store, 1, "x\n");
    let from = put_tree(&mut store, 10, &[(BLOB, "old", x), (TREE, "tree", id(20))]);
    let _ = put_tree(&mut store, 20, &[]);
    let to = put_tree(&mut store, 11, &[(BLOB, "new", x), (TREE, "sub", id(99))]);
    for rewrites in [None, Some(Rewrites::default())] {
        let mut events = Vec::new();
        let told = tell_into(
            &from,
            &to,
            &mut store,
            Tracking::FullPath,
            rewrites,
            Algorithm::Histogram,
            usize::MAX,
            &mut events,
        );
        assert_eq!(told, Err(Error::ObjectMissing(id(99))));
        let paths: Vec<String> = events.iter().map(|e| text(&e.destination.location)).collect();
        if rewrites.is_some() {
            assert_eq!(paths, vec!["sub", "tree"]);
        } else {
            assert_eq!(paths, vec!["new", "old", "sub", "tree"]);
        }
        assert!(events.iter().all(|e| e.source.is_none()));
    }
    let whole = put_tree(&mut store, 12, &[(BLOB, "new", x)]);
    let mut events = Vec::new();
    let told = tell_into(
        &from,
        &whole,
        &mut store,
        Tracking::FullPath,
        Some(Rewrites::default()),
        Algorithm::Histogram,
        usize::MAX,
        &mut events,
    );
    assert_eq!(told, Ok(()));
    assert_eq!(rewrites_of(&events), vec!["old", "new"]);
    assert_eq!(events.len(), 2);
}
