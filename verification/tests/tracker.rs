use treediff::change::{Change, EntryMode};
use treediff::error::Error;
use treediff::hash::ObjectId;
use treediff::rewrites::{Copies, CopySource, Percentage, Rewrites};
use treediff::similarity::Algorithm;
use treediff::source::{MemoryStore, ObjectKind};
use treediff::tracker::State;
use treediff::visit::{Event, Kind};

fn id(n: u8) -> ObjectId {
    ObjectId::from_bytes(&[n; 20]).unwrap()
}

fn added(n: u8) -> Change {
    Change::Addition { mode: EntryMode::Blob, id: id(n) }
}

fn deleted(n: u8) -> Change {
    Change::Deletion { mode: EntryMode::Blob, id: id(n) }
}

fn modified(from: u8, to: u8) -> Change {
    Change::Modification { previous_mode: EntryMode::Blob, previous_id: id(from), mode: EntryMode::Blob, id: id(to) }
}

fn with_copies() -> Rewrites {
    Rewrites {
        copies: Some(Copies { source: CopySource::FromSetOfChangedFiles, percentage: None }),
        percentage: None,
        limit: 1000,
    }
}

fn identity_only() -> Rewrites {
    Rewrites { copies: None, percentage: None, limit: 1000 }
}

fn text(bytes: &[u8]) -> String {
    String::from_utf8(bytes.to_vec()).unwrap()
}

fn pairs(events: &[Event]) -> Vec<(String, Option<String>)> {
    events
        .iter()
        .map(|e| (text(&e.destination.location), e.source.as_ref().map(|s| text(&s.location))))
        .collect()
}

fn pair(destination: &str, source: Option<&str>) -> (String, Option<String>) {
    (destination.to_string(), source.map(|s| s.to_string()))
}

#[test]
fn changes_that_are_no_file_content_are_declined() {
    let mut state = State::new(with_copies());
    let tree = Change::Addition { mode: EntryMode::Tree, id: id(1) };
    let submodule = Change::Deletion { mode: EntryMode::Commit, id: id(2) };
    assert_eq!(state.try_push_change(tree, b"dir"), Some(tree));
    assert_eq!(state.try_push_change(submodule, b"sub"), Some(submodule));
    assert_eq!(state.len(), 0);
    for mode in [EntryMode::Blob, EntryMode::BlobExecutable, EntryMode::Symlink] {
        assert_eq!(state.try_push_change(Change::Addition { mode, id: id(3) }, b"file"), None);
    }
    assert_eq!(state.len(), 3);
}

#[test]
fn modifications_are_kept_only_for_copies() {
    let mut state = State::new(identity_only());
    assert_eq!(state.try_push_change(modified(1, 2), b"m"), Some(modified(1, 2)));
    assert_eq!(state.try_push_change(added(1), b"a"), None);
    assert_eq!(state.try_push_change(deleted(1), b"d"), None);
    assert_eq!(state.len(), 2);
    let mut state = State::new(with_copies());
    assert_eq!(state.try_push_change(modified(1, 2), b"m"), None);
    assert_eq!(state.len(), 1);
}

#[test]
fn every_item_is_emitted_once_and_emit_runs_once() {
    let mut store = MemoryStore::new();
    let mut state = State::new(identity_only());
    assert_eq!(state.try_push_change(added(1), b"new"), None);
    assert_eq!(state.try_push_change(deleted(1), b"old"), None);
    assert_eq!(state.try_push_change(deleted(2), b"gone"), None);
    assert_eq!(state.try_push_change(added(3), b"fresh"), None);
    let mut out = Vec::new();
    assert_eq!(state.emit(&mut out, &mut store, Algorithm::Histogram), Ok(()));
    assert_eq!(
        pairs(&out),
        vec![pair("new", Some("old")), pair("gone", None), pair("fresh", None)]
    );
    assert_eq!(state.len(), 0);
    assert_eq!(state.emit(&mut out, &mut store, Algorithm::Histogram), Ok(()));
    assert_eq!(out.len(), 3);
}

#[test]
fn emitting_appends_to_what_is_there() {
    let mut store = MemoryStore::new();
    let mut first = State::new(identity_only());
    assert_eq!(first.try_push_change(deleted(1), b"one"), None);
    let mut second = State::new(identity_only());
    assert_eq!(second.try_push_change(added(2), b"two"), None);
    let mut out = Vec::new();
    assert_eq!(first.emit(&mut out, &mut store, Algorithm::Histogram), Ok(()));
    assert_eq!(second.emit(&mut out, &mut store, Algorithm::Histogram), Ok(()));
    assert_eq!(pairs(&out), vec![pair("one", None), pair("two", None)]);
    assert_eq!(out[0].destination.change, deleted(1));
    assert_eq!(out[1].destination.change, added(2));
}

#[test]
fn identical_pairs_are_rewritten_whatever_the_threshold() {
    for percentage in [None, Percentage::new(1, 2), Percentage::new(1, 1), Percentage::new(1, 1000)] {
        let mut store = MemoryStore::new();
        assert!(store.insert(id(1), ObjectKind::Blob, b"x\n".to_vec()));
        let mut state = State::new(Rewrites { copies: None, percentage, limit: 1000 });
        assert_eq!(state.try_push_change(deleted(1), b"from"), None);
        assert_eq!(state.try_push_change(added(1), b"to"), None);
        let mut out = Vec::new();
        assert_eq!(state.emit(&mut out, &mut store, Algorithm::Histogram), Ok(()));
        assert_eq!(pairs(&out), vec![pair("to", Some("from"))]);
        let source = out[0].source.clone().unwrap();
        assert_eq!(source.kind, Kind::RenameTarget);
        assert_eq!(source.id, id(1));
        assert_eq!(source.mode, EntryMode::Blob);
    }
}

#[test]
fn the_first_pushed_source_is_chosen() {
    let mut store = MemoryStore::new();
    let mut state = State::new(identity_only());
    assert_eq!(state.try_push_change(deleted(1), b"b"), None);
    assert_eq!(state.try_push_change(deleted(1), b"a"), None);
    assert_eq!(state.try_push_change(added(1), b"c"), None);
    let mut out = Vec::new();
    assert_eq!(state.emit(&mut out, &mut store, Algorithm::Histogram), Ok(()));
    assert_eq!(pairs(&out), vec![pair("c", Some("b")), pair("a", None)]);

    let mut state = State::new(identity_only());
    assert_eq!(state.try_push_change(deleted(1), b"a"), None);
    assert_eq!(state.try_push_change(deleted(1), b"b"), None);
    assert_eq!(state.try_push_change(added(1), b"c"), None);
    let mut out = Vec::new();
    assert_eq!(state.emit(&mut out, &mut store, Algorithm::Histogram), Ok(()));
    assert_eq!(pairs(&out), vec![pair("c", Some("a")), pair("b", None)]);
}

#[test]
fn sources_of_renames_are_deletions_that_are_not_emitted_again() {
    let mut store = MemoryStore::new();
    let mut state = State::new(identity_only());
    assert_eq!(state.try_push_change(added(1), b"a1"), None);
    assert_eq!(state.try_push_change(added(1), b"a2"), None);
    assert_eq!(state.try_push_change(deleted(1), b"d1"), None);
    assert_eq!(state.try_push_change(added(2), b"a3"), None);
    let mut out = Vec::new();
    assert_eq!(state.emit(&mut out, &mut store, Algorithm::Histogram), Ok(()));
    assert_eq!(pairs(&out), vec![pair("a1", Some("d1")), pair("a2", None), pair("a3", None)]);
    for event in &out {
        if let Some(source) = &event.source {
            assert_eq!(source.kind, Kind::RenameTarget);
            assert!(out.iter().all(|e| e.destination.location != source.location));
        }
    }
}

#[test]
fn one_source_can_be_copied_many_times() {
    let mut store = MemoryStore::new();
    let mut state = State::new(with_copies());
    assert_eq!(state.try_push_change(modified(1, 2), b"origin"), None);
    assert_eq!(state.try_push_change(added(2), b"copy1"), None);
    assert_eq!(state.try_push_change(added(2), b"copy2"), None);
    let mut out = Vec::new();
    assert_eq!(state.emit(&mut out, &mut store, Algorithm::Histogram), Ok(()));
    assert_eq!(
        pairs(&out),
        vec![pair("copy1", Some("origin")), pair("copy2", Some("origin")), pair("origin", None)]
    );
    assert!(out[..2].iter().all(|e| e.source.as_ref().unwrap().kind == Kind::Copy));
}

#[test]
fn an_addition_can_be_the_source_of_a_copy_until_it_is_emitted() {
    let mut store = MemoryStore::new();
    let mut state = State::new(with_copies());
    assert_eq!(state.try_push_change(added(2), b"copy1"), None);
    assert_eq!(state.try_push_change(added(2), b"copy2"), None);
    assert_eq!(state.try_push_change(modified(1, 2), b"origin"), None);
    let mut out = Vec::new();
    assert_eq!(state.emit(&mut out, &mut store, Algorithm::Histogram), Ok(()));
    assert_eq!(
        pairs(&out),
        vec![pair("copy1", Some("copy2")), pair("copy2", Some("origin")), pair("origin", None)]
    );
}

#[test]
fn the_threshold_of_copies_falls_back_to_that_of_renames() {
    let mut store = MemoryStore::new();
    assert!(store.insert(id(1), ObjectKind::Blob, b"one\ntwo\nthree\nfour\n".to_vec()));
    assert!(store.insert(id(2), ObjectKind::Blob, b"one\ntwo\nthree\nFOUR\n".to_vec()));
    assert!(store.insert(id(3), ObjectKind::Blob, b"zero\n".to_vec()));
    for (renames, copies, expected) in [
        (Percentage::new(1, 2), None, Some("kept")),
        (None, None, None),
        (None, Percentage::new(1, 2), Some("kept")),
        (Percentage::new(1, 2), Percentage::new(1, 1), None),
    ] {
        let rewrites = Rewrites {
            copies: Some(Copies { source: CopySource::FromSetOfChangedFiles, percentage: copies }),
            percentage: renames,
            limit: 1000,
        };
        let mut state = State::new(rewrites);
        assert_eq!(state.try_push_change(added(2), b"copy"), None);
        assert_eq!(state.try_push_change(modified(3, 1), b"kept"), None);
        let mut out = Vec::new();
        assert_eq!(state.emit(&mut out, &mut store, Algorithm::Histogram), Ok(()));
        assert_eq!(pairs(&out), vec![pair("copy", expected), pair("kept", None)]);
    }
}

#[test]
fn a_failure_keeps_what_was_emitted_and_the_rest_can_follow() {
    let mut partial = MemoryStore::new();
    assert!(partial.insert(id(3), ObjectKind::Blob, b"three\n".to_vec()));
    let mut complete = MemoryStore::new();
    assert!(complete.insert(id(3), ObjectKind::Blob, b"three\n".to_vec()));
    assert!(complete.insert(id(4), ObjectKind::Blob, b"four\n".to_vec()));
    assert!(complete.insert(id(5), ObjectKind::Blob, b"three\n".to_vec()));
    let mut state = State::new(Rewrites::default());
    assert_eq!(state.try_push_change(added(1), b"to"), None);
    assert_eq!(state.try_push_change(deleted(1), b"from"), None);
    assert_eq!(state.try_push_change(added(3), b"similar"), None);
    assert_eq!(state.try_push_change(deleted(5), b"origin"), None);
    assert_eq!(state.try_push_change(deleted(4), b"other"), None);
    let mut out = Vec::new();
    assert_eq!(state.emit(&mut out, &mut partial, Algorithm::Histogram), Err(Error::BlobFetch(id(4))));
    assert_eq!(pairs(&out), vec![pair("to", Some("from"))]);
    assert_eq!(state.len(), 5);
    assert_eq!(state.emit(&mut out, &mut complete, Algorithm::Histogram), Ok(()));
    assert_eq!(
        pairs(&out),
        vec![pair("to", Some("from")), pair("similar", Some("origin")), pair("other", None)]
    );
    assert_eq!(state.len(), 0);
}

#[test]
fn candidates_for_similarity_are_tried_by_identifier() {
    let mut store = MemoryStore::new();
    assert!(store.insert(id(9), ObjectKind::Blob, b"one\ntwo\n".to_vec()));
    assert!(store.insert(id(7), ObjectKind::Blob, b"one\ntwo\n".to_vec()));
    assert!(store.insert(id(1), ObjectKind::Blob, b"one\ntwo\n".to_vec()));
    let mut state = State::new(Rewrites::default());
    assert_eq!(state.try_push_change(deleted(9), b"first"), None);
    assert_eq!(state.try_push_change(deleted(7), b"second"), None);
    assert_eq!(state.try_push_change(added(1), b"new"), None);
    let mut out = Vec::new();
    assert_eq!(state.emit(&mut out, &mut store, Algorithm::Histogram), Ok(()));
    assert_eq!(pairs(&out), vec![pair("new", Some("second")), pair("first", None)]);
}

#[test]
fn kinds_take_the_changes_that_suit_them() {
    assert!(Kind::RenameTarget.can_use_change(&deleted(1)));
    assert!(!Kind::RenameTarget.can_use_change(&added(1)));
    assert!(!Kind::RenameTarget.can_use_change(&modified(1, 2)));
    assert!(!Kind::Copy.can_use_change(&deleted(1)));
    assert!(Kind::Copy.can_use_change(&added(1)));
    assert!(Kind::Copy.can_use_change(&modified(1, 2)));
}

#[test]
fn cancelling_at_the_second_emission_shows_two_and_succeeds() {
    let mut store = MemoryStore::new();
    let mut state = State::new(identity_only());
    assert_eq!(state.try_push_change(added(1), b"a"), None);
    assert_eq!(state.try_push_change(added(2), b"b"), None);
    assert_eq!(state.try_push_change(added(3), b"c"), None);
    let mut out = Vec::new();
    assert_eq!(state.emit_until(&mut out, &mut store, Algorithm::Histogram, 2), Ok(()));
    assert_eq!(pairs(&out), vec![pair("a", None), pair("b", None)]);
    assert_eq!(state.len(), 0);
    assert_eq!(state.emit_until(&mut out, &mut store, Algorithm::Histogram, 1), Ok(()));
    assert_eq!(out.len(), 2);
}

#[test]
fn cancelling_among_the_renames_keeps_what_has_no_source_unseen() {
    for (cancel_at, expected) in [
        (1usize, vec![pair("to1", Some("from1"))]),
        (2, vec![pair("to1", Some("from1")), pair("to2", Some("from2"))]),
        (3, vec![pair("to1", Some("from1")), pair("to2", Some("from2")), pair("lonely", None)]),
        (0, vec![pair("to1", Some("from1")), pair("to2", Some("from2")), pair("lonely", None), pair("gone", None)]),
        (4, vec![pair("to1", Some("from1")), pair("to2", Some("from2")), pair("lonely", None), pair("gone", None)]),
        (9, vec![pair("to1", Some("from1")), pair("to2", Some("from2")), pair("lonely", None), pair("gone", None)]),
    ] {
        let mut store = MemoryStore::new();
        let mut state = State::new(identity_only());
        assert_eq!(state.try_push_change(added(7), b"lonely"), None);
        assert_eq!(state.try_push_change(added(1), b"to1"), None);
        assert_eq!(state.try_push_change(deleted(1), b"from1"), None);
        assert_eq!(state.try_push_change(deleted(8), b"gone"), None);
        assert_eq!(state.try_push_change(deleted(2), b"from2"), None);
        assert_eq!(state.try_push_change(added(2), b"to2"), None);
        let mut out = vec![];
        assert_eq!(state.emit_until(&mut out, &mut store, Algorithm::Histogram, cancel_at), Ok(()));
        assert_eq!(pairs(&out), expected, "{cancel_at}");
        assert_eq!(state.len(), 0);
    }
}

#[test]
fn cancelling_an_emission_before_its_failure_is_a_success() {
    for (cancel_at, expected) in [(1usize, Ok(())), (0, Err(Error::BlobFetch(id(4)))), (2, Err(Error::BlobFetch(id(4))))] {
        let mut store = MemoryStore::new();
        assert!(store.insert(id(3), ObjectKind::Blob, b"three\n".to_vec()));
        let mut state = State::new(Rewrites::default());
        assert_eq!(state.try_push_change(added(1), b"to"), None);
        assert_eq!(state.try_push_change(deleted(1), b"from"), None);
        assert_eq!(state.try_push_change(added(3), b"similar"), None);
        assert_eq!(state.try_push_change(deleted(4), b"other"), None);
        let mut out = Vec::new();
        assert_eq!(state.emit_until(&mut out, &mut store, Algorithm::Histogram, cancel_at), expected);
        assert_eq!(pairs(&out), vec![pair("to", Some("from"))]);
        assert_eq!(state.len(), if expected.is_ok() { 0 } else { 4 });
    }
}
