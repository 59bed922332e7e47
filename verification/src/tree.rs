//! The differences between two trees, as the tree walk of `gix_diff` reports them.
use vstd::prelude::*;
use crate::change::Change;
use crate::change::EntryMode;
use crate::error::Error;
use crate::frame::framed;
use crate::frame::is_framed;
use crate::hash::ObjectId;
use crate::source::ObjectKind;
use crate::source::ObjectModel;
use crate::source::ObjectSource;
use gix_diff::tree::Recorder;
use gix_diff::tree::changes::Error as WalkError;
use gix_diff::tree::recorder::Change as Recorded;
use gix_diff::tree::recorder::Location;
use gix_object::TreeRefIter;

verus! {

/// How much of a path is reported with each change.
#[derive(Clone, Copy, Debug, PartialEq, Eq, Hash)]
pub enum Tracking {
    /// Every location is empty.
    NoTracking,
    /// The location is the name of the entry within its directory.
    FilenameOnly,
    /// The location is the path from the top of the diff, with `/` between components.
    FullPath,
}

/// A change as the walk records it: modes as the numbers that trees store,
/// identifiers and paths as bytes.
#[derive(Clone, Debug, PartialEq, Eq)]
pub enum Record {
    Addition { mode: u16, id: Vec<u8>, path: Vec<u8> },
    Deletion { mode: u16, id: Vec<u8>, path: Vec<u8> },
    Modification { previous_mode: u16, previous_id: Vec<u8>, mode: u16, id: Vec<u8>, path: Vec<u8> },
}

/// A record as contracts speak of it.
pub enum RecordModel {
    Addition { mode: u16, id: Seq<u8>, path: Seq<u8> },
    Deletion { mode: u16, id: Seq<u8>, path: Seq<u8> },
    Modification { previous_mode: u16, previous_id: Seq<u8>, mode: u16, id: Seq<u8>, path: Seq<u8> },
}

impl View for Record {
    type V = RecordModel;

    open spec fn view(&self) -> RecordModel {
        match *self {
            Record::Addition { mode, id, path } => RecordModel::Addition {
                mode,
                id: id@,
                path: path@,
            },
            Record::Deletion { mode, id, path } => RecordModel::Deletion {
                mode,
                id: id@,
                path: path@,
            },
            Record::Modification {
                previous_mode,
                previous_id,
                mode,
                id,
                path,
            } => RecordModel::Modification {
                previous_mode,
                previous_id: previous_id@,
                mode,
                id: id@,
                path: path@,
            },
        }
    }
}

/// Why a walk ended early.
#[derive(Clone, Debug, PartialEq, Eq)]
pub enum Failure {
    /// The tree with these identifier bytes could not be loaded.
    Missing(Vec<u8>),
    /// The walk was told to stop.
    Cancelled,
    /// The bytes of a tree could not be decoded.
    Decode,
}

/// A failure as contracts speak of it.
pub enum FailureModel {
    Missing(Seq<u8>),
    Cancelled,
    Decode,
}

impl View for Failure {
    type V = FailureModel;

    open spec fn view(&self) -> FailureModel {
        match *self {
            Failure::Missing(id) => FailureModel::Missing(id@),
            Failure::Cancelled => FailureModel::Cancelled,
            Failure::Decode => FailureModel::Decode,
        }
    }
}

/// A change together with the location it was reported at.
#[derive(Clone, Debug, PartialEq, Eq)]
pub struct PathChange {
    pub location: Vec<u8>,
    pub change: Change,
}

/// A located change as contracts speak of it.
pub struct PathChangeModel {
    pub location: Seq<u8>,
    pub change: Change,
}

impl View for PathChange {
    type V = PathChangeModel;

    open spec fn view(&self) -> PathChangeModel {
        PathChangeModel { location: self.location@, change: self.change }
    }
}

/// The models of a sequence of located changes, one for one.
pub open spec fn located(changes: Seq<PathChange>) -> Seq<PathChangeModel> {
    Seq::new(changes.len(), |i: int| changes[i]@)
}

/// The bytes of the tree named by the bytes `id` in `objects`, if these are
/// the bytes of an identifier and it is held there as a tree.
pub open spec fn tree_in(objects: Map<Seq<u8>, ObjectModel>, id: Seq<u8>) -> Option<Seq<u8>> {
    if id.len() == crate::hash::ID_LEN && objects.contains_key(id) && objects[id].kind is Tree {
        Some(objects[id].data)
    } else {
        None
    }
}

/// Why a tree was kept from the walk.
#[derive(Clone, Copy, Debug, PartialEq, Eq, Hash)]
pub enum Refusal {
    /// The walk had loaded as many trees as it may.
    Spent,
    /// The bytes of the tree are not the bytes of a tree.
    Malformed,
}

/// What a walk may still load, and why it was last kept from a tree.
#[derive(Clone, Copy, Debug, PartialEq, Eq, Hash)]
pub struct Loader {
    /// The number of trees that may still be loaded.
    pub left: usize,
    /// Why a tree was kept from the walk, if one was.
    pub refused: Option<Refusal>,
}

impl Loader {
    /// A loader that may load `budget` trees and has kept none from the walk.
    pub open spec fn spec_new(budget: usize) -> Loader {
        Loader { left: budget, refused: None }
    }

    /// A loader that may load `budget` trees and has kept none from the walk.
    #[verifier::when_used_as_spec(spec_new)]
    pub fn new(budget: usize) -> (r: Loader)
        ensures
            r == Self::spec_new(budget),
    {
        Loader { left: budget, refused: None }
    }
}

/// A tree as it is handed to the walk, or none, and the loader afterwards.
pub struct Loaded {
    pub data: Option<Seq<u8>>,
    pub loader: Loader,
}

/// What loading the tree named by the bytes `id` gives. Each load uses up one
/// of the trees that may be loaded, and none is loaded once they are used up.
/// A tree that the source holds is handed on only if its bytes are framed as
/// a tree's are. What is kept back for one of these reasons is noted.
pub open spec fn loaded(objects: Map<Seq<u8>, ObjectModel>, loader: Loader, id: Seq<u8>) -> Loaded {
    if loader.left == 0 {
        Loaded { data: None, loader: Loader { left: 0, refused: Some(Refusal::Spent) } }
    } else {
        let left = (loader.left - 1) as usize;
        match tree_in(objects, id) {
            None => Loaded { data: None, loader: Loader { left, refused: loader.refused } },
            Some(data) => if framed(data) {
                Loaded { data: Some(data), loader: Loader { left, refused: loader.refused } }
            } else {
                Loaded { data: None, loader: Loader { left, refused: Some(Refusal::Malformed) } }
            },
        }
    }
}

/// Loads the tree named by the bytes `id` for a walk: see `loaded`. A walk
/// over trees that contain one another ends when the loads are used up, and
/// what is handed on can be read entry by entry.
pub fn load_tree<S: ObjectSource>(source: &mut S, loader: &mut Loader, id: &[u8]) -> (r: Option<
    Vec<u8>,
>)
    requires
        old(source).valid(),
    ensures
        final(source).valid(),
        final(source).objects() == old(source).objects(),
        *final(loader) == loaded(old(source).objects(), *old(loader), id@).loader,
        r.is_some() == loaded(old(source).objects(), *old(loader), id@).data.is_some(),
        r.is_some() ==> r.unwrap()@ == loaded(old(source).objects(), *old(loader), id@).data.unwrap()
            && framed(r.unwrap()@),
{
    if loader.left == 0 {
        loader.refused = Some(Refusal::Spent);
        return None;
    }
    loader.left = loader.left - 1;
    let found = match ObjectId::from_bytes(id) {
        None => None,
        Some(id) => match source.find(&id) {
            Some(object) => match object.kind {
                ObjectKind::Tree => Some(object.data),
                _ => None,
            },
            None => None,
        },
    };
    match found {
        Some(data) => {
            if is_framed(data.as_slice()) {
                Some(data)
            } else {
                loader.refused = Some(Refusal::Malformed);
                None
            }
        },
        None => None,
    }
}

/// What a recorder has recorded, in the order of recording.
pub uninterp spec fn recorded(recorder: Recorder) -> Seq<RecordModel>;

/// How a recorder reports locations.
pub uninterp spec fn tracking_of(recorder: Recorder) -> Tracking;

/// Whether a recorder is as it was made: no walk has reported to it yet.
pub uninterp spec fn untouched(recorder: Recorder) -> bool;

/// What a walk has recorded, the failure that ended it, if one did, and why
/// a tree was kept from it, if one was.
pub struct Walked {
    pub records: Seq<RecordModel>,
    pub failure: Option<FailureModel>,
    pub refused: Option<Refusal>,
}

/// What the walk from the tree with the bytes `lhs` to the tree with the bytes
/// `rhs` comes to, when trees are loaded from `objects` with `loader` and
/// locations are reported as `tracking` says.
pub uninterp spec fn walk(
    lhs: Seq<u8>,
    rhs: Seq<u8>,
    objects: Map<Seq<u8>, ObjectModel>,
    tracking: Tracking,
    loader: Loader,
) -> Walked;

/// `gix_diff::tree::Recorder`, which the walk reports to.
#[verifier::external_type_specification]
#[verifier::external_body]
pub struct ExRecorder(Recorder);

/// `gix_diff::tree::changes::Error`, the error of the walk.
#[verifier::external_type_specification]
#[verifier::external_body]
pub struct ExWalkError(WalkError);

/// The failure that an error of the walk stands for.
pub uninterp spec fn failure_of(error: WalkError) -> FailureModel;

/// A `gix_diff::tree::Recorder` that has recorded nothing and reports
/// locations as `tracking` says: its `default`, set up with its `track_location`.
#[verifier::external_body]
fn fresh_recorder(tracking: Tracking) -> (r: Recorder)
    ensures
        recorded(r) == Seq::<RecordModel>::empty(),
        tracking_of(r) == tracking,
        untouched(r),
{
    Recorder::default().track_location(
        match tracking {
            Tracking::NoTracking => None,
            Tracking::FilenameOnly => Some(Location::FileName),
            Tracking::FullPath => Some(Location::Path),
        },
    )
}

/// Runs `gix_diff::tree::Changes::needed_to_obtain` from the tree with the
/// bytes `lhs` to the tree with the bytes `rhs`, reporting to `recorder`, to
/// which no walk has reported yet. Subtrees are loaded through `load_tree`.
/// The walk reads trees entry by entry and cannot read a tree that ends
/// within the digits of a mode, so both trees have to be framed, as all that
/// `load_tree` hands on is. The recorder comes back with what was recorded
/// until the walk ended, and with it the error that ended the walk, if one
/// did, and why the loader kept a tree back, if it did. What is claimed: all
/// three depend on the two trees, on what the source holds, on how the
/// recorder reports locations and on the loader alone; and the walk reports a
/// modification only for two entries whose identifiers differ.
#[verifier::external_body]
fn run_walk<S: ObjectSource>(
    lhs: &[u8],
    rhs: &[u8],
    source: &mut S,
    recorder: Recorder,
    loader: Loader,
) -> (r: (Recorder, Option<WalkError>, Option<Refusal>))
    requires
        old(source).valid(),
        untouched(recorder),
        framed(lhs@),
        framed(rhs@),
    ensures
        final(source).valid(),
        final(source).objects() == old(source).objects(),
        walk(lhs@, rhs@, old(source).objects(), tracking_of(recorder), loader).records == recorded(
            r.0,
        ),
        walk(lhs@, rhs@, old(source).objects(), tracking_of(recorder), loader).failure == (match r.1 {
            Some(error) => Some(failure_of(error)),
            None => None,
        }),
        walk(lhs@, rhs@, old(source).objects(), tracking_of(recorder), loader).refused == r.2,
        forall|i: int|
            0 <= i < recorded(r.0).len() ==> record_differs(#[trigger] recorded(r.0)[i]),
{
    let (mut loader, mut recorder) = (loader, recorder);
    let mut find = |id: &gix_hash::oid| load_tree(source, &mut loader, id.as_bytes()).ok_or(std::fmt::Error);
    let walked = gix_diff::tree::Changes::from(TreeRefIter::from_bytes(lhs)).needed_to_obtain(
        TreeRefIter::from_bytes(rhs),
        gix_diff::tree::State::default(),
        |id, buf| find(id).map(|data| { *buf = data; TreeRefIter::from_bytes(buf) }),
        &mut recorder,
    );
    (recorder, walked.err(), loader.refused)
}

/// Tells the variants of `gix_diff::tree::changes::Error` apart. That a tree
/// could not be loaded comes with the bytes of its identifier. Nothing is
/// claimed but that the failure depends on the error alone.
#[verifier::external_body]
fn failure(error: WalkError) -> (r: Failure)
    ensures
        r@ == failure_of(error),
{
    match error {
        WalkError::FindExisting { oid, .. } => Failure::Missing(oid.as_bytes().to_vec()),
        WalkError::Cancelled => Failure::Cancelled,
        WalkError::EntriesDecode(_) => Failure::Decode,
    }
}

/// The number of records in a `gix_diff::tree::Recorder`: the length of its `records`.
#[verifier::external_body]
fn record_count(recorder: &Recorder) -> (r: usize)
    ensures
        r == recorded(*recorder).len(),
{
    recorder.records.len()
}

/// The record at position `i` of the `records` of a `gix_diff::tree::Recorder`,
/// field by field: the mode as the number it stands for, identifier and path as bytes.
#[verifier::external_body]
fn record_at(recorder: &Recorder, i: usize) -> (r: Record)
    requires
        i < recorded(*recorder).len(),
    ensures
        r@ == recorded(*recorder)[i as int],
{
    match &recorder.records[i] {
        Recorded::Addition { entry_mode, oid, path } => Record::Addition { mode: *entry_mode as u16, id: oid.as_bytes().to_vec(), path: path.to_vec() },
        Recorded::Deletion { entry_mode, oid, path } => Record::Deletion { mode: *entry_mode as u16, id: oid.as_bytes().to_vec(), path: path.to_vec() },
        Recorded::Modification { previous_entry_mode, previous_oid, entry_mode, oid, path } => Record::Modification { previous_mode: *previous_entry_mode as u16, previous_id: previous_oid.as_bytes().to_vec(), mode: *entry_mode as u16, id: oid.as_bytes().to_vec(), path: path.to_vec() },
    }
}

/// The mode that a tree stores as the number `bits`, if it is one of the five.
pub open spec fn mode_of(bits: u16) -> Option<EntryMode> {
    if bits == 0o040000 {
        Some(EntryMode::Tree)
    } else if bits == 0o100644 {
        Some(EntryMode::Blob)
    } else if bits == 0o100755 {
        Some(EntryMode::BlobExecutable)
    } else if bits == 0o120000 {
        Some(EntryMode::Symlink)
    } else if bits == 0o160000 {
        Some(EntryMode::Commit)
    } else {
        None
    }
}

/// The mode that a tree stores as the number `bits`, if it is one of the five.
pub fn decode_mode(bits: u16) -> (r: Option<EntryMode>)
    ensures
        r == mode_of(bits),
{
    if bits == 0o040000 {
        Some(EntryMode::Tree)
    } else if bits == 0o100644 {
        Some(EntryMode::Blob)
    } else if bits == 0o100755 {
        Some(EntryMode::BlobExecutable)
    } else if bits == 0o120000 {
        Some(EntryMode::Symlink)
    } else if bits == 0o160000 {
        Some(EntryMode::Commit)
    } else {
        None
    }
}

/// Whether `record` tells of new content: a modification has to come with
/// another identifier than the entry had.
pub open spec fn record_differs(record: RecordModel) -> bool {
    match record {
        RecordModel::Modification { previous_id, id, .. } => previous_id != id,
        _ => true,
    }
}

/// Whether `change` tells of new content: a modification has to come with
/// another identifier than the entry had.
pub open spec fn differs(change: Change) -> bool {
    match change {
        Change::Modification { previous_id, id, .. } => previous_id != id,
        _ => true,
    }
}

/// Whether each of `changes` from position `from` on tells of new content.
pub open spec fn all_differ(changes: Seq<PathChange>, from: int) -> bool {
    forall|i: int| from <= i < changes.len() ==> differs((#[trigger] changes[i]).change)
}

/// The identifier with the bytes `id`, if these are the bytes of one.
pub open spec fn id_of(id: Seq<u8>) -> Option<ObjectId> {
    if id.len() == crate::hash::ID_LEN {
        Some(ObjectId { bytes: choose|bytes: [u8; 20]| bytes@ == id })
    } else {
        None
    }
}

/// The located change that `record` stands for, if its modes and identifiers
/// are well-formed.
pub open spec fn change_of(record: RecordModel) -> Option<PathChangeModel> {
    match record {
        RecordModel::Addition { mode, id, path } => match (mode_of(mode), id_of(id)) {
            (Some(mode), Some(id)) => Some(
                PathChangeModel { location: path, change: Change::Addition { mode, id } },
            ),
            _ => None,
        },
        RecordModel::Deletion { mode, id, path } => match (mode_of(mode), id_of(id)) {
            (Some(mode), Some(id)) => Some(
                PathChangeModel { location: path, change: Change::Deletion { mode, id } },
            ),
            _ => None,
        },
        RecordModel::Modification { previous_mode, previous_id, mode, id, path } => match (
            mode_of(previous_mode),
            id_of(previous_id),
            mode_of(mode),
            id_of(id),
        ) {
            (Some(previous_mode), Some(previous_id), Some(mode), Some(id)) => Some(
                PathChangeModel {
                    location: path,
                    change: Change::Modification { previous_mode, previous_id, mode, id },
                },
            ),
            _ => None,
        },
    }
}

/// The identifier with the bytes `id`, if these are the bytes of one.
pub fn decode_id(id: &[u8]) -> (r: Option<ObjectId>)
    ensures
        r == id_of(id@),
        r.is_some() ==> r.unwrap()@ == id@,
{
    match ObjectId::from_bytes(id) {
        Some(found) => {
            proof {
                let chosen = ObjectId { bytes: choose|bytes: [u8; 20]| bytes@ == id@ };
                assert(found.bytes@ == id@);
                crate::hash::lemma_same_bytes(found, chosen);
            }
            Some(found)
        },
        None => None,
    }
}

/// The located change that `record` stands for, if its modes and identifiers
/// are well-formed.
pub fn decode_record(record: Record) -> (r: Option<PathChange>)
    ensures
        r.is_some() <==> change_of(record@).is_some(),
        r.is_some() ==> r.unwrap()@ == change_of(record@).unwrap(),
        r.is_some() && record_differs(record@) ==> differs(r.unwrap().change),
{
    match record {
        Record::Addition { mode, id, path } => {
            let mode = decode_mode(mode);
            let id = decode_id(id.as_slice());
            match (mode, id) {
                (Some(mode), Some(id)) => Some(
                    PathChange { location: path, change: Change::Addition { mode, id } },
                ),
                _ => None,
            }
        },
        Record::Deletion { mode, id, path } => {
            let mode = decode_mode(mode);
            let id = decode_id(id.as_slice());
            match (mode, id) {
                (Some(mode), Some(id)) => Some(
                    PathChange { location: path, change: Change::Deletion { mode, id } },
                ),
                _ => None,
            }
        },
        Record::Modification { previous_mode, previous_id, mode, id, path } => {
            let previous_mode = decode_mode(previous_mode);
            let previous_id = decode_id(previous_id.as_slice());
            let mode = decode_mode(mode);
            let id = decode_id(id.as_slice());
            match (previous_mode, previous_id, mode, id) {
                (Some(previous_mode), Some(previous_id), Some(mode), Some(id)) => Some(
                    PathChange {
                        location: path,
                        change: Change::Modification { previous_mode, previous_id, mode, id },
                    },
                ),
                _ => None,
            }
        },
    }
}

/// The changes of a diff, and the error that ended it, if one did.
pub struct Diffed {
    pub changes: Seq<PathChangeModel>,
    pub error: Option<Error>,
}

/// The located changes that the first `upto` of `records` stand for. A record
/// that is not well-formed ends it, as a failure to decode that is laid at `at`.
pub open spec fn decoded_upto(records: Seq<RecordModel>, upto: int, at: ObjectId) -> Diffed
    decreases upto,
{
    if upto <= 0 {
        Diffed { changes: Seq::empty(), error: None }
    } else {
        let before = decoded_upto(records, upto - 1, at);
        if before.error.is_some() {
            before
        } else {
            match change_of(records[upto - 1]) {
                Some(change) => Diffed { changes: before.changes.push(change), error: None },
                None => Diffed { changes: before.changes, error: Some(Error::Decode(at)) },
            }
        }
    }
}

/// The error that stands for `failure`. A tree that could not be loaded is
/// missing, unless the loader kept it back: then the budget is spent, or the
/// tree cannot be decoded. A failure to decode that comes without a tree is
/// laid at `at`.
pub open spec fn error_of(failure: FailureModel, refused: Option<Refusal>, at: ObjectId) -> Error {
    match failure {
        FailureModel::Missing(id) => match id_of(id) {
            Some(id) => match refused {
                Some(Refusal::Spent) => Error::BudgetSpent(id),
                Some(Refusal::Malformed) => Error::Decode(id),
                None => Error::ObjectMissing(id),
            },
            None => Error::Decode(at),
        },
        FailureModel::Cancelled => Error::Decode(at),
        FailureModel::Decode => Error::Decode(at),
    }
}

/// What a walk amounts to: its records as located changes, and the error
/// that stands for its failure, if it failed. A failure to decode that comes
/// without a tree is laid at `at`.
pub open spec fn outcome_of(walked: Walked, at: ObjectId) -> Diffed {
    let decoded = decoded_upto(walked.records, walked.records.len() as int, at);
    if decoded.error.is_some() {
        decoded
    } else {
        Diffed {
            changes: decoded.changes,
            error: match walked.failure {
                Some(failure) => Some(error_of(failure, walked.refused, at)),
                None => None,
            },
        }
    }
}

/// The error that stands for `failure`: see `error_of`.
pub fn decode_failure(failure: Failure, refused: Option<Refusal>, at: ObjectId) -> (r: Error)
    ensures
        r == error_of(failure@, refused, at),
{
    match failure {
        Failure::Missing(id) => match decode_id(id.as_slice()) {
            Some(id) => match refused {
                Some(Refusal::Spent) => Error::BudgetSpent(id),
                Some(Refusal::Malformed) => Error::Decode(id),
                None => Error::ObjectMissing(id),
            },
            None => Error::Decode(at),
        },
        Failure::Cancelled => Error::Decode(at),
        Failure::Decode => Error::Decode(at),
    }
}

/// The diff between the trees named `lhs` and `rhs`: what has to happen to the
/// first to obtain the second, as far as it can be told. Both trees have to
/// be held by `objects`. A tree does not differ from itself. Otherwise both
/// have to be framed as trees are, and the changes are those that the walk
/// records. At most `budget` subtrees are loaded.
pub open spec fn diffed_between(
    lhs: ObjectId,
    rhs: ObjectId,
    objects: Map<Seq<u8>, ObjectModel>,
    tracking: Tracking,
    budget: usize,
) -> Diffed {
    match (tree_in(objects, lhs@), tree_in(objects, rhs@)) {
        (None, _) => Diffed { changes: Seq::empty(), error: Some(Error::ObjectMissing(lhs)) },
        (Some(_), None) => Diffed { changes: Seq::empty(), error: Some(Error::ObjectMissing(rhs)) },
        (Some(before), Some(after)) => if lhs == rhs {
            Diffed { changes: Seq::empty(), error: None }
        } else if !framed(before) {
            Diffed { changes: Seq::empty(), error: Some(Error::Decode(lhs)) }
        } else if !framed(after) {
            Diffed { changes: Seq::empty(), error: Some(Error::Decode(rhs)) }
        } else {
            outcome_of(walk(before, after, objects, tracking, Loader::spec_new(budget)), rhs)
        },
    }
}

/// The changes between the trees named `lhs` and `rhs`, or the error that
/// keeps them from being told in full.
pub open spec fn changes_between(
    lhs: ObjectId,
    rhs: ObjectId,
    objects: Map<Seq<u8>, ObjectModel>,
    tracking: Tracking,
    budget: usize,
) -> Result<Seq<PathChangeModel>, Error> {
    let diffed = diffed_between(lhs, rhs, objects, tracking, budget);
    match diffed.error {
        Some(e) => Err(e),
        None => Ok(diffed.changes),
    }
}

/// What is seen of a diff by someone who cancels it at the change with the
/// number `cancel_at`, counting from one: the changes up to that one, if there
/// are that many, and else the diff as it is. Zero never cancels.
pub open spec fn cancelled(diffed: Diffed, cancel_at: usize) -> Result<Seq<PathChangeModel>, Error> {
    if 0 < cancel_at <= diffed.changes.len() {
        Ok(diffed.changes.subrange(0, cancel_at as int))
    } else {
        match diffed.error {
            Some(e) => Err(e),
            None => Ok(diffed.changes),
        }
    }
}

/// Whether an executable result says what `planned` says.
pub open spec fn result_is(r: Result<Vec<PathChange>, Error>, planned: Result<
    Seq<PathChangeModel>,
    Error,
>) -> bool {
    match planned {
        Ok(changes) => r.is_ok() && located(r.unwrap()@) == changes,
        Err(e) => r == Err::<Vec<PathChange>, Error>(e),
    }
}

/// The tree named `id`, or the error that says that the source does not hold it.
fn root_of<S: ObjectSource>(source: &mut S, id: &ObjectId) -> (r: Result<Vec<u8>, Error>)
    requires
        old(source).valid(),
    ensures
        final(source).valid(),
        final(source).objects() == old(source).objects(),
        match tree_in(old(source).objects(), id@) {
            Some(data) => r.is_ok() && r.unwrap()@ == data,
            None => r == Err::<Vec<u8>, Error>(Error::ObjectMissing(*id)),
        },
{
    match source.find(id) {
        Some(object) => match object.kind {
            ObjectKind::Tree => Ok(object.data),
            _ => Err(Error::ObjectMissing(*id)),
        },
        None => Err(Error::ObjectMissing(*id)),
    }
}

/// Appends to `out` the changes that turn the tree named `lhs` into the tree
/// named `rhs`, each with its location as `tracking` says, in the order of the
/// walk. At most `budget` subtrees are loaded; a walk that needs more fails
/// at the next one. After a failure `out` holds the changes that were told
/// before it. Every modification among them comes with another identifier
/// than the entry had.
pub fn diff_trees_into<S: ObjectSource>(
    lhs: &ObjectId,
    rhs: &ObjectId,
    source: &mut S,
    tracking: Tracking,
    budget: usize,
    out: &mut Vec<PathChange>,
) -> (r: Result<(), Error>)
    requires
        old(source).valid(),
    ensures
        final(source).valid(),
        final(source).objects() == old(source).objects(),
        located(final(out)@) == located(old(out)@) + diffed_between(
            *lhs,
            *rhs,
            old(source).objects(),
            tracking,
            budget,
        ).changes,
        match diffed_between(*lhs, *rhs, old(source).objects(), tracking, budget).error {
            Some(e) => r == Err::<(), Error>(e),
            None => r == Ok::<(), Error>(()),
        },
        all_differ(final(out)@, old(out)@.len() as int),
{
    proof {
        assert(located(out@) + Seq::<PathChangeModel>::empty() =~= located(out@));
    }
    let before = match root_of(source, lhs) {
        Ok(data) => data,
        Err(e) => {
            return Err(e);
        },
    };
    let after = match root_of(source, rhs) {
        Ok(data) => data,
        Err(e) => {
            return Err(e);
        },
    };
    if lhs.same(rhs) {
        return Ok(());
    }
    if !is_framed(before.as_slice()) {
        return Err(Error::Decode(*lhs));
    }
    if !is_framed(after.as_slice()) {
        return Err(Error::Decode(*rhs));
    }
    let recorder = fresh_recorder(tracking);
    let (filled, stopped, refused) = run_walk(
        before.as_slice(),
        after.as_slice(),
        source,
        recorder,
        Loader::new(budget),
    );
    match collect(&filled, out, *rhs) {
        Err(e) => Err(e),
        Ok(()) => match stopped {
            Some(error) => Err(decode_failure(failure(error), refused, *rhs)),
            None => Ok(()),
        },
    }
}

/// The changes that turn the tree named `lhs` into the tree named `rhs`: see
/// `diff_trees_into`. A failure leaves nothing of them.
pub fn diff_trees<S: ObjectSource>(
    lhs: &ObjectId,
    rhs: &ObjectId,
    source: &mut S,
    tracking: Tracking,
    budget: usize,
) -> (r: Result<Vec<PathChange>, Error>)
    requires
        old(source).valid(),
    ensures
        final(source).valid(),
        final(source).objects() == old(source).objects(),
        result_is(r, changes_between(*lhs, *rhs, old(source).objects(), tracking, budget)),
        r.is_ok() ==> all_differ(r.unwrap()@, 0),
{
    let mut out: Vec<PathChange> = Vec::new();
    proof {
        assert(located(out@) =~= Seq::<PathChangeModel>::empty());
    }
    let ghost changes = diffed_between(*lhs, *rhs, source.objects(), tracking, budget).changes;
    match diff_trees_into(lhs, rhs, source, tracking, budget, &mut out) {
        Ok(()) => {
            proof {
                assert(Seq::<PathChangeModel>::empty() + changes =~= changes);
            }
            Ok(out)
        },
        Err(e) => Err(e),
    }
}

/// The changes that turn the tree named `lhs` into the tree named `rhs`, as
/// someone sees them who cancels the diff at the change with the number
/// `cancel_at`, counting from one. Cancelling is no failure: the changes up to
/// that one are the result, whatever the walk would have met after them.
/// With fewer changes, or with zero for `cancel_at`, the diff is not cancelled.
pub fn diff_trees_until<S: ObjectSource>(
    lhs: &ObjectId,
    rhs: &ObjectId,
    source: &mut S,
    tracking: Tracking,
    budget: usize,
    cancel_at: usize,
) -> (r: Result<Vec<PathChange>, Error>)
    requires
        old(source).valid(),
    ensures
        final(source).valid(),
        final(source).objects() == old(source).objects(),
        result_is(
            r,
            cancelled(
                diffed_between(*lhs, *rhs, old(source).objects(), tracking, budget),
                cancel_at,
            ),
        ),
        r.is_ok() ==> all_differ(r.unwrap()@, 0),
{
    let mut out: Vec<PathChange> = Vec::new();
    proof {
        assert(located(out@) =~= Seq::<PathChangeModel>::empty());
    }
    let ghost changes = diffed_between(*lhs, *rhs, source.objects(), tracking, budget).changes;
    let told = diff_trees_into(lhs, rhs, source, tracking, budget, &mut out);
    proof {
        assert(Seq::<PathChangeModel>::empty() + changes =~= changes);
    }
    if 0 < cancel_at && cancel_at <= out.len() {
        out.truncate(cancel_at);
        proof {
            assert(located(out@) =~= changes.subrange(0, cancel_at as int));
        }
        return Ok(out);
    }
    match told {
        Ok(()) => Ok(out),
        Err(e) => Err(e),
    }
}

/// Appends the records of `recorder` to `out` as located changes, up to the
/// first that is not well-formed, which is a failure to decode laid at `at`.
fn collect(recorder: &Recorder, out: &mut Vec<PathChange>, at: ObjectId) -> (r: Result<(), Error>)
    requires
        forall|i: int|
            0 <= i < recorded(*recorder).len() ==> record_differs(#[trigger] recorded(*recorder)[i]),
    ensures
        all_differ(final(out)@, old(out)@.len() as int),
        located(final(out)@) == located(old(out)@) + decoded_upto(
            recorded(*recorder),
            recorded(*recorder).len() as int,
            at,
        ).changes,
        match decoded_upto(recorded(*recorder), recorded(*recorder).len() as int, at).error {
            Some(e) => r == Err::<(), Error>(e),
            None => r == Ok::<(), Error>(()),
        },
{
    let ghost records = recorded(*recorder);
    let ghost base = located(out@);
    let n = record_count(recorder);
    let mut i: usize = 0;
    proof {
        assert(base + Seq::<PathChangeModel>::empty() =~= base);
    }
    while i < n
        invariant
            i <= n,
            n == records.len(),
            records == recorded(*recorder),
            base == located(old(out)@),
            decoded_upto(records, i as int, at).error.is_none(),
            located(out@) == base + decoded_upto(records, i as int, at).changes,
            forall|k: int| 0 <= k < records.len() ==> record_differs(#[trigger] records[k]),
            old(out)@.len() <= out@.len(),
            all_differ(out@, old(out)@.len() as int),
        decreases n - i,
    {
        match decode_record(record_at(recorder, i)) {
            Some(change) => {
                proof {
                    assert(located(out@.push(change)) =~= located(out@).push(change@));
                    assert((base + decoded_upto(records, i as int, at).changes).push(change@)
                        =~= base + decoded_upto(records, i as int, at).changes.push(change@));
                }
                out.push(change);
            },
            None => {
                proof {
                    lemma_decoding_stops(records, i as int + 1, n as int, at);
                }
                return Err(Error::Decode(at));
            },
        }
        i += 1;
    }
    Ok(())
}

/// Once a record is not well-formed, nothing is decoded after it.
pub proof fn lemma_decoding_stops(records: Seq<RecordModel>, at: int, upto: int, id: ObjectId)
    requires
        0 <= at <= upto,
        decoded_upto(records, at, id).error.is_some(),
    ensures
        decoded_upto(records, upto, id) == decoded_upto(records, at, id),
    decreases upto - at,
{
    if at < upto {
        lemma_decoding_stops(records, at, upto - 1, id);
    }
}

/// A tree does not differ from itself: where the source holds the tree, the
/// changes from it to itself are none.
pub proof fn law_same_tree_has_no_changes(
    tree: ObjectId,
    objects: Map<Seq<u8>, ObjectModel>,
    tracking: Tracking,
    budget: usize,
)
    requires
        tree_in(objects, tree@).is_some(),
    ensures
        changes_between(tree, tree, objects, tracking, budget) == Ok::<
            Seq<PathChangeModel>,
            Error,
        >(Seq::empty()),
{
}

/// The diff is repeatable: two diffs of the same trees over the same objects,
/// with the same tracking and budget, tell the same changes in the same
/// order, or fail in the same way, whoever runs them and when.
pub proof fn law_diffs_are_repeatable(
    first: Result<Vec<PathChange>, Error>,
    second: Result<Vec<PathChange>, Error>,
    lhs: ObjectId,
    rhs: ObjectId,
    objects: Map<Seq<u8>, ObjectModel>,
    tracking: Tracking,
    budget: usize,
)
    requires
        result_is(first, changes_between(lhs, rhs, objects, tracking, budget)),
        result_is(second, changes_between(lhs, rhs, objects, tracking, budget)),
    ensures
        first.is_ok() == second.is_ok(),
        first.is_ok() ==> located(first.unwrap()@) == located(second.unwrap()@),
        first.is_err() ==> first == second,
{
}

/// Cancelling shows a part of what is there: what is seen of a diff that is
/// cancelled is the beginning of what the diff tells in full, and as long as
/// the number of the change to cancel at.
pub proof fn law_cancelling_shows_a_beginning(diffed: Diffed, cancel_at: usize)
    requires
        0 < cancel_at <= diffed.changes.len(),
    ensures
        cancelled(diffed, cancel_at).is_ok(),
        cancelled(diffed, cancel_at).unwrap().len() == cancel_at,
        forall|i: int|
            0 <= i < cancel_at ==> cancelled(diffed, cancel_at).unwrap()[i] == diffed.changes[i],
{
}

} // verus!
