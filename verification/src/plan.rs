//! What rewrite tracking decides, stated over the collected changes alone.
use vstd::prelude::*;
use crate::error::Error;
use crate::hash::lemma_lex_flip;
use crate::hash::lex;
use crate::rewrites::Percentage;
use crate::rewrites::Rewrites;
use crate::rewrites::spec_needs_exact_match;
use crate::similarity::Algorithm;
use crate::similarity::diffable;
use crate::similarity::line_counts;
use crate::similarity::similar_enough;
use crate::source::blob_in;
use crate::source::ObjectModel;
use crate::tracker::Entry;
use crate::visit::DestinationModel;
use crate::visit::EventModel;
use crate::visit::Kind;
use crate::visit::SourceModel;

verus! {

/// Whether the entry at `j` may serve as the source of a rewrite of kind
/// `kind` whose destination is the entry at `d`: it is another entry, it was
/// not emitted yet, and its change suits the kind.
pub open spec fn eligible(entries: Seq<Entry>, d: int, kind: Kind, j: int) -> bool {
    &&& 0 <= j < entries.len()
    &&& j != d
    &&& !entries[j].emitted
    &&& kind.spec_can_use_change(&entries[j].change)
}

/// Whether the entry at `j` is an eligible source with the very identifier of
/// the destination at `d`.
pub open spec fn identical(entries: Seq<Entry>, d: int, kind: Kind, j: int) -> bool {
    eligible(entries, d, kind, j) && entries[j].change.spec_oid() == entries[d].change.spec_oid()
}

/// The first entry at or after `from`, in the order of pushing, that is
/// identical to the destination at `d`.
pub open spec fn first_identical_from(entries: Seq<Entry>, d: int, kind: Kind, from: int) -> Option<
    int,
>
    decreases entries.len() - from,
{
    if from < 0 || from >= entries.len() {
        None
    } else if identical(entries, d, kind, from) {
        Some(from)
    } else {
        first_identical_from(entries, d, kind, from + 1)
    }
}

/// The source that matches the destination at `d` by identity: the first
/// pushed among the eligible entries with the same identifier.
pub open spec fn first_identical(entries: Seq<Entry>, d: int, kind: Kind) -> Option<int> {
    first_identical_from(entries, d, kind, 0)
}

/// What `first_identical_from` finds is identical to the destination, and
/// nothing between `from` and it is; where it finds nothing, nothing is.
pub proof fn lemma_first_identical_from(entries: Seq<Entry>, d: int, kind: Kind, from: int)
    requires
        0 <= from,
    ensures
        match first_identical_from(entries, d, kind, from) {
            Some(j) => from <= j && identical(entries, d, kind, j) && forall|k: int|
                from <= k < j ==> !identical(entries, d, kind, k),
            None => forall|k: int| from <= k ==> !identical(entries, d, kind, k),
        },
    decreases entries.len() - from,
{
    if from < entries.len() && !identical(entries, d, kind, from) {
        lemma_first_identical_from(entries, d, kind, from + 1);
    }
}

/// An identical entry before which no other is identical is the one that
/// `first_identical` names.
pub proof fn lemma_first_identical_is(entries: Seq<Entry>, d: int, kind: Kind, j: int)
    requires
        identical(entries, d, kind, j),
        forall|k: int| 0 <= k < j ==> !identical(entries, d, kind, k),
    ensures
        first_identical(entries, d, kind) == Some(j),
{
    lemma_first_identical_from(entries, d, kind, 0);
}

/// Where no entry is identical, `first_identical` names none.
pub proof fn lemma_first_identical_none(entries: Seq<Entry>, d: int, kind: Kind)
    requires
        forall|k: int| 0 <= k < entries.len() ==> !identical(entries, d, kind, k),
    ensures
        first_identical(entries, d, kind).is_none(),
{
    lemma_first_identical_from(entries, d, kind, 0);
}

/// Whether the entry at `a` is looked at no later than the entry at `b` when
/// content is compared: its identifier sorts first, or the identifiers agree
/// and it was pushed no later.
pub open spec fn precedes(entries: Seq<Entry>, a: int, b: int) -> bool {
    let by_id = lex(entries[a].change.spec_oid()@, entries[b].change.spec_oid()@);
    by_id < 0 || (by_id == 0 && a <= b)
}

/// Whether the comparison of content stops at the entry at `j`: it is an
/// eligible source, and either its blob cannot be had, or the two blobs cannot
/// be diffed, or they are similar enough. `target` is the blob of the destination.
pub open spec fn decisive(
    entries: Seq<Entry>,
    d: int,
    kind: Kind,
    percentage: Percentage,
    objects: Map<Seq<u8>, ObjectModel>,
    algorithm: Algorithm,
    target: Seq<u8>,
    j: int,
) -> bool {
    eligible(entries, d, kind, j) && match blob_in(objects, entries[j].change.spec_oid()@) {
        None => true,
        Some(origin) => !diffable(origin, target) || similar_enough(
            line_counts(origin, target, algorithm),
            percentage,
        ),
    }
}

/// Whether the entry at `j` is the one at which the comparison of content
/// stops: it is decisive, and it is looked at before every other such entry.
pub open spec fn first_decisive(
    entries: Seq<Entry>,
    d: int,
    kind: Kind,
    percentage: Percentage,
    objects: Map<Seq<u8>, ObjectModel>,
    algorithm: Algorithm,
    target: Seq<u8>,
    j: int,
) -> bool {
    &&& decisive(entries, d, kind, percentage, objects, algorithm, target, j)
    &&& forall|k: int| #[trigger]
        decisive(entries, d, kind, percentage, objects, algorithm, target, k) ==> precedes(
            entries,
            j,
            k,
        )
}

/// At most one entry is the first decisive one.
pub proof fn lemma_first_decisive_unique(
    entries: Seq<Entry>,
    d: int,
    kind: Kind,
    percentage: Percentage,
    objects: Map<Seq<u8>, ObjectModel>,
    algorithm: Algorithm,
    target: Seq<u8>,
    j: int,
    k: int,
)
    requires
        first_decisive(entries, d, kind, percentage, objects, algorithm, target, j),
        first_decisive(entries, d, kind, percentage, objects, algorithm, target, k),
    ensures
        j == k,
{
    lemma_lex_flip(entries[j].change.spec_oid()@, entries[k].change.spec_oid()@);
    assert(precedes(entries, j, k));
    assert(precedes(entries, k, j));
}

/// The source that matches the destination at `d` by content. The blob of the
/// destination is fetched first. Then the eligible entries are looked at in
/// order, and the first decisive one settles the matter: it is the source if
/// its blob can be had and diffed, and the failure otherwise.
pub open spec fn by_similarity(
    entries: Seq<Entry>,
    d: int,
    kind: Kind,
    percentage: Percentage,
    objects: Map<Seq<u8>, ObjectModel>,
    algorithm: Algorithm,
) -> Result<Option<int>, Error> {
    match blob_in(objects, entries[d].change.spec_oid()@) {
        None => Err(Error::BlobFetch(entries[d].change.spec_oid())),
        Some(target) => {
            if exists|j: int|
                first_decisive(entries, d, kind, percentage, objects, algorithm, target, j) {
                let j = choose|j: int|
                    first_decisive(entries, d, kind, percentage, objects, algorithm, target, j);
                match blob_in(objects, entries[j].change.spec_oid()@) {
                    None => Err(Error::BlobFetch(entries[j].change.spec_oid())),
                    Some(origin) => if diffable(origin, target) {
                        Ok(Some(j))
                    } else {
                        Err(Error::BlobDiff)
                    },
                }
            } else {
                Ok(None)
            }
        },
    }
}

/// Whether content is compared for the destination at `d` when identity finds
/// nothing: the number of pairs is within the limit, a threshold below one is
/// set, and the destination is no symbolic link.
pub open spec fn compares_content(
    entries: Seq<Entry>,
    d: int,
    percentage: Option<Percentage>,
    within_limit: bool,
) -> bool {
    within_limit && !spec_needs_exact_match(percentage) && !(entries[d].change.spec_mode() is Symlink)
}

/// The source that matches the destination at `d`: by identity if any entry is
/// identical, else by content where content is compared, else none.
pub open spec fn match_of(
    entries: Seq<Entry>,
    d: int,
    percentage: Option<Percentage>,
    kind: Kind,
    within_limit: bool,
    objects: Map<Seq<u8>, ObjectModel>,
    algorithm: Algorithm,
) -> Result<Option<int>, Error> {
    match first_identical(entries, d, kind) {
        Some(j) => Ok(Some(j)),
        None => if compares_content(entries, d, percentage, within_limit) {
            by_similarity(entries, d, kind, percentage.unwrap(), objects, algorithm)
        } else {
            Ok(None)
        },
    }
}

/// Whether an executable outcome says what `planned` says.
pub open spec fn outcome_is(r: Result<Option<usize>, Error>, planned: Result<Option<int>, Error>) -> bool {
    match planned {
        Err(e) => r == Err::<Option<usize>, Error>(e),
        Ok(None) => r == Ok::<Option<usize>, Error>(None),
        Ok(Some(j)) => r.is_ok() && r.unwrap().is_some() && r.unwrap().unwrap() == j,
    }
}

/// One emission, by the positions of the entries it concerns: the
/// destination, and for a rewrite the source and how it relates.
pub struct Step {
    pub destination: int,
    pub source: Option<(int, Kind)>,
}

/// How far emitting has come: the entries with their marks, the emissions so
/// far, and the failure that ended it, if one did.
pub struct Progress {
    pub entries: Seq<Entry>,
    pub steps: Seq<Step>,
    pub error: Option<Error>,
}

/// The entries with the one at `j` marked as emitted.
pub open spec fn mark(entries: Seq<Entry>, j: int) -> Seq<Entry> {
    entries.update(j, Entry { change: entries[j].change, path: entries[j].path, emitted: true })
}

/// What looking for the source of the entry at `d` adds to `prev`. Only an
/// addition that was not emitted yet is a destination. A match is emitted as
/// a rewrite and marks the destination, and the source too if it is a rename.
/// Without a match nothing happens, and a failure ends emitting.
pub open spec fn pass_step(
    prev: Progress,
    d: int,
    kind: Kind,
    percentage: Option<Percentage>,
    within_limit: bool,
    objects: Map<Seq<u8>, ObjectModel>,
    algorithm: Algorithm,
) -> Progress {
    if prev.error.is_some() || prev.entries[d].emitted || !(prev.entries[d].change is Addition) {
        prev
    } else {
        match match_of(prev.entries, d, percentage, kind, within_limit, objects, algorithm) {
            Err(e) => Progress { entries: prev.entries, steps: prev.steps, error: Some(e) },
            Ok(None) => prev,
            Ok(Some(s)) => Progress {
                entries: if kind is RenameTarget {
                    mark(mark(prev.entries, d), s)
                } else {
                    mark(prev.entries, d)
                },
                steps: prev.steps.push(Step { destination: d, source: Some((s, kind)) }),
                error: None,
            },
        }
    }
}

/// What one pass over the first `upto` entries, in the order of pushing, makes
/// of `start`.
pub open spec fn pass_upto(
    start: Progress,
    upto: int,
    kind: Kind,
    percentage: Option<Percentage>,
    within_limit: bool,
    objects: Map<Seq<u8>, ObjectModel>,
    algorithm: Algorithm,
) -> Progress
    decreases upto,
{
    if upto <= 0 {
        start
    } else {
        pass_step(
            pass_upto(start, upto - 1, kind, percentage, within_limit, objects, algorithm),
            upto - 1,
            kind,
            percentage,
            within_limit,
            objects,
            algorithm,
        )
    }
}

/// What handing out the entries among the first `upto` that were not emitted
/// yet makes of `start`: each is emitted as it is, in the order of pushing.
pub open spec fn drain_upto(start: Progress, upto: int) -> Progress
    decreases upto,
{
    if upto <= 0 {
        start
    } else {
        let prev = drain_upto(start, upto - 1);
        if prev.entries[upto - 1].emitted {
            prev
        } else {
            Progress {
                entries: mark(prev.entries, upto - 1),
                steps: prev.steps.push(Step { destination: upto - 1, source: None }),
                error: prev.error,
            }
        }
    }
}

/// The number of additions among the first `upto` entries.
pub open spec fn additions_upto(entries: Seq<Entry>, upto: int) -> nat
    decreases upto,
{
    if upto <= 0 {
        0
    } else {
        additions_upto(entries, upto - 1) + (if entries[upto - 1].change is Addition {
            1nat
        } else {
            0nat
        })
    }
}

/// The number of deletions among the first `upto` entries.
pub open spec fn deletions_upto(entries: Seq<Entry>, upto: int) -> nat
    decreases upto,
{
    if upto <= 0 {
        0
    } else {
        deletions_upto(entries, upto - 1) + (if entries[upto - 1].change is Deletion {
            1nat
        } else {
            0nat
        })
    }
}

/// Whether the pairs of an addition and a deletion among the entries are no
/// more than `limit`. Content is compared only then.
pub open spec fn within_limit(entries: Seq<Entry>, limit: usize) -> bool {
    additions_upto(entries, entries.len() as int) * deletions_upto(entries, entries.len() as int)
        <= limit
}

/// Everything that emitting does with `entries`: renames are looked for, then
/// copies if the settings ask for them, and what is left is handed out as it
/// is. A failure ends it where it occurs.
pub open spec fn emit_plan(
    entries: Seq<Entry>,
    rewrites: Rewrites,
    objects: Map<Seq<u8>, ObjectModel>,
    algorithm: Algorithm,
) -> Progress {
    let n = entries.len() as int;
    let compare = within_limit(entries, rewrites.limit);
    let start = Progress { entries, steps: Seq::empty(), error: None };
    let renamed = pass_upto(
        start,
        n,
        Kind::RenameTarget,
        rewrites.percentage,
        compare,
        objects,
        algorithm,
    );
    let copied = if rewrites.copies.is_some() {
        pass_upto(
            renamed,
            n,
            Kind::Copy,
            rewrites.spec_copy_percentage(),
            compare,
            objects,
            algorithm,
        )
    } else {
        renamed
    };
    if copied.error.is_some() {
        copied
    } else {
        drain_upto(copied, n)
    }
}

/// The emission that `step` stands for.
pub open spec fn event_of(entries: Seq<Entry>, step: Step) -> EventModel {
    EventModel {
        destination: DestinationModel {
            change: entries[step.destination].change,
            location: entries[step.destination].path,
        },
        source: match step.source {
            Some((s, kind)) => Some(
                SourceModel {
                    mode: entries[s].change.spec_mode(),
                    id: entries[s].change.spec_oid(),
                    kind,
                    location: entries[s].path,
                },
            ),
            None => None,
        },
    }
}

/// The emissions that `steps` stand for, one for one.
pub open spec fn events_of(entries: Seq<Entry>, steps: Seq<Step>) -> Seq<EventModel> {
    Seq::new(steps.len(), |i: int| event_of(entries, steps[i]))
}

/// Whether `now` holds the changes and paths of `origin`, whatever is marked.
pub open spec fn same_changes(origin: Seq<Entry>, now: Seq<Entry>) -> bool {
    &&& origin.len() == now.len()
    &&& forall|i: int|
        0 <= i < origin.len() ==> (#[trigger] now[i]).change == origin[i].change && now[i].path
            == origin[i].path
}

/// After a failure a pass changes nothing any more.
pub proof fn lemma_pass_stops(
    start: Progress,
    at: int,
    upto: int,
    kind: Kind,
    percentage: Option<Percentage>,
    within_limit: bool,
    objects: Map<Seq<u8>, ObjectModel>,
    algorithm: Algorithm,
)
    requires
        0 <= at <= upto,
        pass_upto(start, at, kind, percentage, within_limit, objects, algorithm).error.is_some(),
    ensures
        pass_upto(start, upto, kind, percentage, within_limit, objects, algorithm) == pass_upto(
            start,
            at,
            kind,
            percentage,
            within_limit,
            objects,
            algorithm,
        ),
    decreases upto - at,
{
    if at < upto {
        lemma_pass_stops(start, at, upto - 1, kind, percentage, within_limit, objects, algorithm);
    }
}

/// Whether an emission is cancelled by someone who cancels at the emission
/// with the number `cancel_at`, counting from one: there have to be that many.
/// Zero never cancels.
pub open spec fn is_cancelled(plan: Progress, cancel_at: usize) -> bool {
    0 < cancel_at <= plan.steps.len()
}

/// The steps that are seen of `plan` by someone who cancels at the emission
/// with the number `cancel_at`: the steps up to that one if it is cancelled,
/// and all of them if it is not.
pub open spec fn seen_steps(plan: Progress, cancel_at: usize) -> Seq<Step> {
    if is_cancelled(plan, cancel_at) {
        plan.steps.subrange(0, cancel_at as int)
    } else {
        plan.steps
    }
}

/// The steps of the pass that looks for renames, which is the first to emit.
pub open spec fn rename_steps(
    entries: Seq<Entry>,
    rewrites: Rewrites,
    objects: Map<Seq<u8>, ObjectModel>,
    algorithm: Algorithm,
) -> Seq<Step> {
    pass_upto(
        Progress { entries, steps: Seq::empty(), error: None },
        entries.len() as int,
        Kind::RenameTarget,
        rewrites.percentage,
        within_limit(entries, rewrites.limit),
        objects,
        algorithm,
    ).steps
}

} // verus!
