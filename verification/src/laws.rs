//! What holds of every emission plan, whatever was collected.
use vstd::prelude::*;
use crate::hash::lex_le;
use crate::plan::compares_content;
use crate::plan::drain_upto;
use crate::plan::emit_plan;
use crate::plan::first_decisive;
use crate::plan::first_identical;
use crate::plan::identical;
use crate::plan::lemma_first_identical_from;
use crate::plan::mark;
use crate::plan::match_of;
use crate::plan::pass_step;
use crate::plan::rename_steps;
use crate::plan::seen_steps;
use crate::plan::pass_upto;
use crate::plan::Progress;
use crate::plan::same_changes;
use crate::plan::Step;
use crate::plan::within_limit;
use crate::rewrites::Percentage;
use crate::rewrites::Rewrites;
use crate::rewrites::spec_needs_exact_match;
use crate::similarity::Algorithm;
use crate::source::blob_in;
use crate::source::ObjectModel;
use crate::tracker::Entry;
use crate::visit::Kind;

verus! {

/// Whether some step emits the entry at `j` as the destination of a rewrite.
pub open spec fn rewritten_to(steps: Seq<Step>, j: int) -> bool {
    exists|i: int|
        0 <= i < steps.len() && (#[trigger] steps[i]).destination == j && steps[i].source.is_some()
}

/// Whether some step names the entry at `j` as the source of a rename.
pub open spec fn renamed_from(steps: Seq<Step>, j: int) -> bool {
    exists|i: int|
        0 <= i < steps.len() && (#[trigger] steps[i]).source == Some((j, Kind::RenameTarget))
}

/// Whether `later` continues `earlier`: it has the same changes and paths,
/// every mark and every step of `earlier`, and perhaps more.
pub open spec fn continues(earlier: Progress, later: Progress) -> bool {
    &&& same_changes(earlier.entries, later.entries)
    &&& earlier.steps.len() <= later.steps.len()
    &&& forall|i: int| 0 <= i < earlier.steps.len() ==> #[trigger] later.steps[i] == earlier.steps[i]
    &&& forall|j: int|
        0 <= j < earlier.entries.len() && (#[trigger] earlier.entries[j]).emitted
            ==> later.entries[j].emitted
    &&& earlier.error.is_some() ==> later == earlier
}

/// Whether every step from `from` on is a rewrite of kind `kind` between two
/// entries in range, the source one that the kind can use, and between
/// entries with the same identifier where `exact` holds.
pub open spec fn rewrites_from(
    origin: Seq<Entry>,
    steps: Seq<Step>,
    from: int,
    kind: Kind,
    exact: bool,
) -> bool {
    forall|i: int|
        from <= i < steps.len() ==> {
            let step = #[trigger] steps[i];
            &&& 0 <= step.destination < origin.len()
            &&& origin[step.destination].change is Addition
            &&& step.source.is_some()
            &&& step.source.unwrap().1 == kind
            &&& 0 <= step.source.unwrap().0 < origin.len()
            &&& kind.spec_can_use_change(&origin[step.source.unwrap().0].change)
            &&& exact ==> origin[step.source.unwrap().0].change.spec_oid()
                == origin[step.destination].change.spec_oid()
        }
}

/// What a match is: an eligible entry in range, and an identical one where
/// content is not compared.
pub proof fn lemma_match_of(
    entries: Seq<Entry>,
    d: int,
    percentage: Option<Percentage>,
    kind: Kind,
    within_limit: bool,
    objects: Map<Seq<u8>, ObjectModel>,
    algorithm: Algorithm,
)
    ensures
        match match_of(entries, d, percentage, kind, within_limit, objects, algorithm) {
            Ok(Some(s)) => {
                &&& 0 <= s < entries.len()
                &&& s != d
                &&& !entries[s].emitted
                &&& kind.spec_can_use_change(&entries[s].change)
                &&& !compares_content(entries, d, percentage, within_limit) ==> identical(
                    entries,
                    d,
                    kind,
                    s,
                )
                &&& first_identical(entries, d, kind).is_some() ==> first_identical(
                    entries,
                    d,
                    kind,
                ) == Some(s)
            },
            Ok(None) => forall|k: int| !identical(entries, d, kind, k),
            Err(_) => first_identical(entries, d, kind).is_none(),
        },
{
    lemma_first_identical_from(entries, d, kind, 0);
    match first_identical(entries, d, kind) {
        Some(_) => {},
        None => {
            if compares_content(entries, d, percentage, within_limit) {
                let p = percentage.unwrap();
                match blob_in(objects, entries[d].change.spec_oid()@) {
                    None => {},
                    Some(target) => {
                        if exists|j: int|
                            first_decisive(entries, d, kind, p, objects, algorithm, target, j) {
                            let j = choose|j: int|
                                first_decisive(entries, d, kind, p, objects, algorithm, target, j);
                            assert(first_decisive(
                                entries,
                                d,
                                kind,
                                p,
                                objects,
                                algorithm,
                                target,
                                j,
                            ));
                        }
                    },
                }
            }
        },
    }
}

/// One step of a pass continues what came before, and what it adds is a
/// rewrite of the pass's kind.
pub proof fn lemma_pass_step(
    origin: Seq<Entry>,
    prev: Progress,
    d: int,
    kind: Kind,
    percentage: Option<Percentage>,
    within_limit: bool,
    objects: Map<Seq<u8>, ObjectModel>,
    algorithm: Algorithm,
)
    requires
        same_changes(origin, prev.entries),
        0 <= d < origin.len(),
    ensures
        continues(
            prev,
            pass_step(prev, d, kind, percentage, within_limit, objects, algorithm),
        ),
        same_changes(
            origin,
            pass_step(prev, d, kind, percentage, within_limit, objects, algorithm).entries,
        ),
        rewrites_from(
            origin,
            pass_step(prev, d, kind, percentage, within_limit, objects, algorithm).steps,
            prev.steps.len() as int,
            kind,
            !within_limit || spec_needs_exact_match(percentage),
        ),
{
    let next = pass_step(prev, d, kind, percentage, within_limit, objects, algorithm);
    lemma_match_of(prev.entries, d, percentage, kind, within_limit, objects, algorithm);
    assert(prev.entries[d].change == origin[d].change);
    if next.steps.len() > prev.steps.len() {
        let s = next.steps[prev.steps.len() as int].source.unwrap().0;
        assert(prev.entries[s].change == origin[s].change);
    }
}

/// A pass continues what it starts from, and what it adds are rewrites of its kind.
pub proof fn lemma_pass_upto(
    origin: Seq<Entry>,
    start: Progress,
    upto: int,
    kind: Kind,
    percentage: Option<Percentage>,
    within_limit: bool,
    objects: Map<Seq<u8>, ObjectModel>,
    algorithm: Algorithm,
)
    requires
        same_changes(origin, start.entries),
        0 <= upto <= origin.len(),
    ensures
        continues(
            start,
            pass_upto(start, upto, kind, percentage, within_limit, objects, algorithm),
        ),
        same_changes(
            origin,
            pass_upto(start, upto, kind, percentage, within_limit, objects, algorithm).entries,
        ),
        rewrites_from(
            origin,
            pass_upto(start, upto, kind, percentage, within_limit, objects, algorithm).steps,
            start.steps.len() as int,
            kind,
            !within_limit || spec_needs_exact_match(percentage),
        ),
    decreases upto,
{
    if upto > 0 {
        let prev = pass_upto(start, upto - 1, kind, percentage, within_limit, objects, algorithm);
        lemma_pass_upto(
            origin,
            start,
            upto - 1,
            kind,
            percentage,
            within_limit,
            objects,
            algorithm,
        );
        lemma_pass_step(origin, prev, upto - 1, kind, percentage, within_limit, objects, algorithm);
        let next = pass_step(prev, upto - 1, kind, percentage, within_limit, objects, algorithm);
        assert forall|i: int| 0 <= i < start.steps.len() implies #[trigger] next.steps[i]
            == start.steps[i] by {
            assert(prev.steps[i] == start.steps[i]);
        }
        assert forall|j: int|
            0 <= j < start.entries.len() && (#[trigger] start.entries[j]).emitted
                implies next.entries[j].emitted by {
            assert(prev.entries[j].emitted);
        }
    }
}

/// Handing out what is left continues what it starts from, and adds no rewrite.
pub proof fn lemma_drain_upto(origin: Seq<Entry>, start: Progress, upto: int)
    requires
        same_changes(origin, start.entries),
        0 <= upto <= origin.len(),
        start.error.is_none(),
    ensures
        continues(start, drain_upto(start, upto)),
        same_changes(origin, drain_upto(start, upto).entries),
        drain_upto(start, upto).error.is_none(),
        forall|i: int|
            start.steps.len() <= i < drain_upto(start, upto).steps.len() ==> (#[trigger] drain_upto(
                start,
                upto,
            ).steps[i]).source.is_none(),
    decreases upto,
{
    if upto > 0 {
        let prev = drain_upto(start, upto - 1);
        lemma_drain_upto(origin, start, upto - 1);
        let next = drain_upto(start, upto);
        assert forall|i: int| 0 <= i < start.steps.len() implies #[trigger] next.steps[i]
            == start.steps[i] by {
            assert(prev.steps[i] == start.steps[i]);
        }
        assert forall|j: int|
            0 <= j < start.entries.len() && (#[trigger] start.entries[j]).emitted
                implies next.entries[j].emitted by {
            assert(prev.entries[j].emitted);
        }
    }
}

/// Whether the entries at `a` and `b` are an addition and a deletion of the
/// same object, neither of them emitted.
pub open spec fn identical_pair(entries: Seq<Entry>, a: int, b: int) -> bool {
    &&& 0 <= a < entries.len()
    &&& 0 <= b < entries.len()
    &&& entries[a].change is Addition
    &&& entries[b].change is Deletion
    &&& entries[a].change.spec_oid() == entries[b].change.spec_oid()
    &&& !entries[a].emitted
    &&& !entries[b].emitted
}

/// Whether every mark in `p` that `origin` did not have is accounted for: an
/// addition before `upto` that a step rewrites, or a deletion that a step
/// names as the source of a rename.
pub open spec fn marks_explained(origin: Seq<Entry>, p: Progress, upto: int) -> bool {
    forall|j: int|
        0 <= j < origin.len() && (#[trigger] p.entries[j]).emitted ==> {
            ||| origin[j].emitted
            ||| (origin[j].change is Addition && j < upto && rewritten_to(p.steps, j))
            ||| (origin[j].change is Deletion && renamed_from(p.steps, j))
        }
}

/// Whether every identical pair whose addition stands before `upto` takes
/// part in a rewrite.
pub open spec fn pairs_rewritten(origin: Seq<Entry>, steps: Seq<Step>, upto: int) -> bool {
    forall|a: int, b: int|
        #[trigger] identical_pair(origin, a, b) && a < upto ==> rewritten_to(steps, a)
            || renamed_from(steps, b)
}

/// Whether the source of every rename among the steps is marked as emitted.
pub open spec fn sources_marked(p: Progress) -> bool {
    forall|i: int|
        0 <= i < p.steps.len() && (#[trigger] p.steps[i]).source.is_some()
            && p.steps[i].source.unwrap().1 is RenameTarget ==> 0 <= p.steps[i].source.unwrap().0
            < p.entries.len() && p.entries[p.steps[i].source.unwrap().0].emitted
}

/// What continues a progress keeps its rewrites.
pub proof fn lemma_continues_keeps(earlier: Progress, later: Progress, j: int)
    requires
        continues(earlier, later),
    ensures
        rewritten_to(earlier.steps, j) ==> rewritten_to(later.steps, j),
        renamed_from(earlier.steps, j) ==> renamed_from(later.steps, j),
{
    if rewritten_to(earlier.steps, j) {
        let i = choose|i: int|
            0 <= i < earlier.steps.len() && (#[trigger] earlier.steps[i]).destination == j
                && earlier.steps[i].source.is_some();
        assert(later.steps[i] == earlier.steps[i]);
    }
    if renamed_from(earlier.steps, j) {
        let i = choose|i: int|
            0 <= i < earlier.steps.len() && (#[trigger] earlier.steps[i]).source == Some(
                (j, Kind::RenameTarget),
            );
        assert(later.steps[i] == earlier.steps[i]);
    }
}

/// The pass that looks for renames, as far as it has come: its marks are
/// accounted for, the sources it names are marked, and unless it failed,
/// every identical pair it has passed takes part in a rewrite.
pub proof fn lemma_rename_pass(
    origin: Seq<Entry>,
    upto: int,
    percentage: Option<Percentage>,
    within_limit: bool,
    objects: Map<Seq<u8>, ObjectModel>,
    algorithm: Algorithm,
)
    requires
        0 <= upto <= origin.len(),
    ensures
        ({
            let start = Progress { entries: origin, steps: Seq::empty(), error: None };
            let p = pass_upto(
                start,
                upto,
                Kind::RenameTarget,
                percentage,
                within_limit,
                objects,
                algorithm,
            );
            &&& marks_explained(origin, p, upto)
            &&& sources_marked(p)
            &&& p.error.is_none() ==> pairs_rewritten(origin, p.steps, upto)
        }),
    decreases upto,
{
    let start = Progress { entries: origin, steps: Seq::empty(), error: None };
    let kind = Kind::RenameTarget;
    if upto > 0 {
        let d = upto - 1;
        let prev = pass_upto(start, d, kind, percentage, within_limit, objects, algorithm);
        let next = pass_step(prev, d, kind, percentage, within_limit, objects, algorithm);
        lemma_rename_pass(origin, d, percentage, within_limit, objects, algorithm);
        lemma_pass_upto(origin, start, d, kind, percentage, within_limit, objects, algorithm);
        lemma_pass_step(origin, prev, d, kind, percentage, within_limit, objects, algorithm);
        lemma_match_of(prev.entries, d, percentage, kind, within_limit, objects, algorithm);
        assert(prev.entries[d].change == origin[d].change);
        let grown = next.steps.len() > prev.steps.len();
        if grown {
            let last = prev.steps.len() as int;
            let s = next.steps[last].source.unwrap().0;
            assert(next.steps[last].destination == d);
            assert(next.steps[last].source == Some((s, Kind::RenameTarget)));
            assert(prev.entries[s].change == origin[s].change);
            assert(rewritten_to(next.steps, d));
            assert(renamed_from(next.steps, s));
        }
        assert forall|j: int| 0 <= j < origin.len() && (#[trigger] next.entries[j]).emitted implies {
            ||| origin[j].emitted
            ||| (origin[j].change is Addition && j < upto && rewritten_to(next.steps, j))
            ||| (origin[j].change is Deletion && renamed_from(next.steps, j))
        } by {
            lemma_continues_keeps(prev, next, j);
            if prev.entries[j].emitted {
            } else {
                assert(grown);
            }
        }
        assert forall|i: int|
            0 <= i < next.steps.len() && (#[trigger] next.steps[i]).source.is_some()
                && next.steps[i].source.unwrap().1 is RenameTarget implies 0
                <= next.steps[i].source.unwrap().0 < next.entries.len()
                && next.entries[next.steps[i].source.unwrap().0].emitted by {
            if i < prev.steps.len() {
                assert(next.steps[i] == prev.steps[i]);
                let s = prev.steps[i].source.unwrap().0;
                assert(prev.entries[s].emitted);
            }
        }
        if next.error.is_none() {
            assert forall|a: int, b: int| #[trigger]
                identical_pair(origin, a, b) && a < upto implies rewritten_to(next.steps, a)
                || renamed_from(next.steps, b) by {
                lemma_continues_keeps(prev, next, a);
                lemma_continues_keeps(prev, next, b);
                if a < d {
                } else {
                    assert(prev.entries[b].change == origin[b].change);
                    if prev.entries[d].emitted {
                    } else if prev.entries[b].emitted {
                    } else {
                        assert(identical(prev.entries, d, kind, b));
                    }
                }
            }
        }
    }
}

/// Every addition and deletion of the same object take part in a rewrite,
/// whatever the thresholds are: if emitting succeeds, the addition is
/// emitted as the destination of a rewrite, or the deletion as the source of
/// a rename.
pub proof fn law_identical_pairs_are_rewritten(
    entries: Seq<Entry>,
    rewrites: Rewrites,
    objects: Map<Seq<u8>, ObjectModel>,
    algorithm: Algorithm,
    a: int,
    b: int,
)
    requires
        identical_pair(entries, a, b),
        emit_plan(entries, rewrites, objects, algorithm).error.is_none(),
    ensures
        rewritten_to(emit_plan(entries, rewrites, objects, algorithm).steps, a) || renamed_from(
            emit_plan(entries, rewrites, objects, algorithm).steps,
            b,
        ),
{
    let n = entries.len() as int;
    let compare = within_limit(entries, rewrites.limit);
    let start = Progress { entries, steps: Seq::empty(), error: None };
    let renamed = pass_upto(
        start,
        n,
        Kind::RenameTarget,
        rewrites.percentage,
        compare,
        objects,
        algorithm,
    );
    let copy_percentage = rewrites.spec_copy_percentage();
    let copied = if rewrites.copies.is_some() {
        pass_upto(renamed, n, Kind::Copy, copy_percentage, compare, objects, algorithm)
    } else {
        renamed
    };
    let plan = emit_plan(entries, rewrites, objects, algorithm);
    lemma_rename_pass(entries, n, rewrites.percentage, compare, objects, algorithm);
    lemma_pass_upto(
        entries,
        start,
        n,
        Kind::RenameTarget,
        rewrites.percentage,
        compare,
        objects,
        algorithm,
    );
    lemma_pass_upto(entries, renamed, n, Kind::Copy, copy_percentage, compare, objects, algorithm);
    assert(copied.error.is_none());
    lemma_drain_upto(entries, copied, n);
    assert(renamed.error.is_none());
    assert(identical_pair(entries, a, b) && a < n);
    lemma_continues_keeps(renamed, copied, a);
    lemma_continues_keeps(renamed, copied, b);
    lemma_continues_keeps(copied, plan, a);
    lemma_continues_keeps(copied, plan, b);
}

/// With thresholds of one or more, or none at all, every rewrite is between
/// entries with the same identifier.
pub proof fn law_exact_thresholds_match_by_identity(
    entries: Seq<Entry>,
    rewrites: Rewrites,
    objects: Map<Seq<u8>, ObjectModel>,
    algorithm: Algorithm,
    i: int,
)
    requires
        spec_needs_exact_match(rewrites.percentage),
        spec_needs_exact_match(rewrites.spec_copy_percentage()),
        0 <= i < emit_plan(entries, rewrites, objects, algorithm).steps.len(),
        emit_plan(entries, rewrites, objects, algorithm).steps[i].source.is_some(),
    ensures
        ({
            let step = emit_plan(entries, rewrites, objects, algorithm).steps[i];
            &&& 0 <= step.destination < entries.len()
            &&& 0 <= step.source.unwrap().0 < entries.len()
            &&& entries[step.source.unwrap().0].change.spec_oid()
                == entries[step.destination].change.spec_oid()
        }),
{
    let n = entries.len() as int;
    let compare = within_limit(entries, rewrites.limit);
    let start = Progress { entries, steps: Seq::empty(), error: None };
    let renamed = pass_upto(
        start,
        n,
        Kind::RenameTarget,
        rewrites.percentage,
        compare,
        objects,
        algorithm,
    );
    let copy_percentage = rewrites.spec_copy_percentage();
    let copied = if rewrites.copies.is_some() {
        pass_upto(renamed, n, Kind::Copy, copy_percentage, compare, objects, algorithm)
    } else {
        renamed
    };
    let plan = emit_plan(entries, rewrites, objects, algorithm);
    lemma_pass_upto(
        entries,
        start,
        n,
        Kind::RenameTarget,
        rewrites.percentage,
        compare,
        objects,
        algorithm,
    );
    lemma_pass_upto(entries, renamed, n, Kind::Copy, copy_percentage, compare, objects, algorithm);
    if copied.error.is_none() {
        lemma_drain_upto(entries, copied, n);
    }
    if i < renamed.steps.len() {
        assert(copied.steps[i] == renamed.steps[i]);
        assert(plan.steps[i] == copied.steps[i]);
    } else if i < copied.steps.len() {
        assert(plan.steps[i] == copied.steps[i]);
    }
}

/// Without copies, whatever is named as a source is a deletion that was
/// renamed: its entry is marked as emitted, and no step hands it out on its own.
pub proof fn law_sources_are_emitted_deletions(
    entries: Seq<Entry>,
    rewrites: Rewrites,
    objects: Map<Seq<u8>, ObjectModel>,
    algorithm: Algorithm,
    i: int,
)
    requires
        rewrites.copies.is_none(),
        0 <= i < emit_plan(entries, rewrites, objects, algorithm).steps.len(),
        emit_plan(entries, rewrites, objects, algorithm).steps[i].source.is_some(),
    ensures
        ({
            let plan = emit_plan(entries, rewrites, objects, algorithm);
            let s = plan.steps[i].source.unwrap().0;
            &&& plan.steps[i].source.unwrap().1 is RenameTarget
            &&& 0 <= s < entries.len()
            &&& entries[s].change is Deletion
            &&& plan.entries[s].emitted
            &&& forall|k: int| 0 <= k < plan.steps.len() ==> (#[trigger] plan.steps[k]).destination != s
        }),
{
    let n = entries.len() as int;
    let compare = within_limit(entries, rewrites.limit);
    let start = Progress { entries, steps: Seq::empty(), error: None };
    let renamed = pass_upto(
        start,
        n,
        Kind::RenameTarget,
        rewrites.percentage,
        compare,
        objects,
        algorithm,
    );
    let plan = emit_plan(entries, rewrites, objects, algorithm);
    lemma_rename_pass(entries, n, rewrites.percentage, compare, objects, algorithm);
    lemma_pass_upto(
        entries,
        start,
        n,
        Kind::RenameTarget,
        rewrites.percentage,
        compare,
        objects,
        algorithm,
    );
    if renamed.error.is_none() {
        lemma_drain_upto(entries, renamed, n);
        lemma_drain_only_unmarked(entries, renamed, n);
    }
    assert(i < renamed.steps.len());
    assert(plan.steps[i] == renamed.steps[i]);
    let s = plan.steps[i].source.unwrap().0;
    assert(renamed.entries[s].emitted);
    assert forall|k: int| 0 <= k < plan.steps.len() implies (#[trigger] plan.steps[k]).destination
        != s by {
        if k < renamed.steps.len() {
            assert(plan.steps[k] == renamed.steps[k]);
        }
    }
}

/// What is handed out when draining was not marked before.
pub proof fn lemma_drain_only_unmarked(origin: Seq<Entry>, start: Progress, upto: int)
    requires
        same_changes(origin, start.entries),
        0 <= upto <= origin.len(),
        start.error.is_none(),
    ensures
        forall|i: int|
            start.steps.len() <= i < drain_upto(start, upto).steps.len() ==> 0 <= (
            #[trigger] drain_upto(start, upto).steps[i]).destination < origin.len()
                && !start.entries[drain_upto(start, upto).steps[i].destination].emitted,
    decreases upto,
{
    if upto > 0 {
        let prev = drain_upto(start, upto - 1);
        lemma_drain_upto(origin, start, upto - 1);
        lemma_drain_only_unmarked(origin, start, upto - 1);
        let next = drain_upto(start, upto);
        assert forall|i: int| start.steps.len() <= i < next.steps.len() implies 0 <= (
        #[trigger] next.steps[i]).destination < origin.len()
            && !start.entries[next.steps[i].destination].emitted by {
            if i < prev.steps.len() {
                assert(next.steps[i] == prev.steps[i]);
            }
        }
    }
}

/// Whether the paths of the entries ascend, byte by byte, in the order of pushing.
pub open spec fn paths_ascend(entries: Seq<Entry>) -> bool {
    forall|i: int, j: int|
        0 <= i <= j < entries.len() ==> lex_le(
            (#[trigger] entries[i]).path,
            (#[trigger] entries[j]).path,
        )
}

/// Among several sources with the identifier of the destination, the first
/// pushed is chosen. Where paths were pushed in ascending order, as a walk
/// over sorted trees pushes them, that is the source whose path sorts first.
pub proof fn law_identity_prefers_first_path(
    entries: Seq<Entry>,
    d: int,
    percentage: Option<Percentage>,
    kind: Kind,
    within_limit: bool,
    objects: Map<Seq<u8>, ObjectModel>,
    algorithm: Algorithm,
    k: int,
)
    requires
        identical(entries, d, kind, k),
    ensures
        match match_of(entries, d, percentage, kind, within_limit, objects, algorithm) {
            Ok(Some(s)) => identical(entries, d, kind, s) && s <= k && (paths_ascend(entries)
                ==> lex_le(entries[s].path, entries[k].path)),
            _ => false,
        },
{
    lemma_first_identical_from(entries, d, kind, 0);
}

/// Whether some step emits the entry at `j` as a destination, with a source or without.
pub open spec fn emitted_at(steps: Seq<Step>, j: int) -> bool {
    exists|i: int| 0 <= i < steps.len() && (#[trigger] steps[i]).destination == j
}

/// Whether `step` is a rename.
pub open spec fn is_rename(step: Step) -> bool {
    step.source.is_some() && step.source.unwrap().1 is RenameTarget
}

/// Whether the steps of `p` are in order: every entry they emit, as a
/// destination or as the source of a rename, was not emitted before and is
/// marked now; none is emitted twice; and every mark is accounted for.
pub open spec fn tidy(origin: Seq<Entry>, p: Progress) -> bool {
    &&& same_changes(origin, p.entries)
    &&& forall|i: int|
        0 <= i < p.steps.len() ==> 0 <= (#[trigger] p.steps[i]).destination < origin.len()
            && !origin[p.steps[i].destination].emitted && p.entries[p.steps[i].destination].emitted
    &&& forall|i: int|
        0 <= i < p.steps.len() && is_rename(#[trigger] p.steps[i]) ==> 0
            <= p.steps[i].source.unwrap().0 < origin.len()
            && !origin[p.steps[i].source.unwrap().0].emitted
            && p.entries[p.steps[i].source.unwrap().0].emitted
    &&& forall|a: int, b: int|
        0 <= a < b < p.steps.len() ==> (#[trigger] p.steps[a]).destination != (
        #[trigger] p.steps[b]).destination
    &&& forall|a: int, b: int|
        0 <= a < p.steps.len() && 0 <= b < p.steps.len() && is_rename(#[trigger] p.steps[a])
            ==> (#[trigger] p.steps[b]).destination != p.steps[a].source.unwrap().0
    &&& forall|a: int, b: int|
        0 <= a < b < p.steps.len() && is_rename(#[trigger] p.steps[a]) && is_rename(
            #[trigger] p.steps[b],
        ) ==> p.steps[a].source.unwrap().0 != p.steps[b].source.unwrap().0
    &&& forall|j: int|
        0 <= j < origin.len() && (#[trigger] p.entries[j]).emitted ==> origin[j].emitted
            || emitted_at(p.steps, j) || renamed_from(p.steps, j)
    &&& forall|j: int| 0 <= j < origin.len() && (#[trigger] origin[j]).emitted ==> p.entries[j].emitted
}

/// `prev` with one more step: the entry at `d` emitted, with `source` or without.
pub open spec fn advance(prev: Progress, d: int, source: Option<(int, Kind)>) -> Progress {
    Progress {
        entries: match source {
            Some((s, Kind::RenameTarget)) => mark(mark(prev.entries, d), s),
            _ => mark(prev.entries, d),
        },
        steps: prev.steps.push(Step { destination: d, source }),
        error: prev.error,
    }
}

/// A step that emits entries that were not marked keeps the steps in order.
pub proof fn lemma_tidy_advance(origin: Seq<Entry>, prev: Progress, d: int, source: Option<(int, Kind)>)
    requires
        tidy(origin, prev),
        0 <= d < origin.len(),
        !prev.entries[d].emitted,
        source.is_some() ==> 0 <= source.unwrap().0 < origin.len() && source.unwrap().0 != d
            && !prev.entries[source.unwrap().0].emitted,
    ensures
        tidy(origin, advance(prev, d, source)),
{
    let next = advance(prev, d, source);
    let last = prev.steps.len() as int;
    let renames = source.is_some() && source.unwrap().1 is RenameTarget;
    assert(next.steps[last] == (Step { destination: d, source }));
    assert forall|i: int| 0 <= i < last implies #[trigger] next.steps[i] == prev.steps[i] by {}
    assert forall|j: int| 0 <= j < origin.len() implies (#[trigger] next.entries[j]).emitted == (
    prev.entries[j].emitted || j == d || (renames && j == source.unwrap().0)) && next.entries[j].change
        == prev.entries[j].change && next.entries[j].path == prev.entries[j].path by {}
    assert(same_changes(origin, next.entries));
    assert forall|j: int|
        0 <= j < origin.len() && (#[trigger] next.entries[j]).emitted implies origin[j].emitted
        || emitted_at(next.steps, j) || renamed_from(next.steps, j) by {
        if j == d {
            assert(next.steps[last].destination == j);
        } else if renames && j == source.unwrap().0 {
            assert(next.steps[last].source == Some((j, Kind::RenameTarget)));
        } else {
            assert(prev.entries[j].emitted);
            if emitted_at(prev.steps, j) {
                let i = choose|i: int|
                    0 <= i < prev.steps.len() && (#[trigger] prev.steps[i]).destination == j;
                assert(next.steps[i].destination == j);
            } else if renamed_from(prev.steps, j) {
                let i = choose|i: int|
                    0 <= i < prev.steps.len() && (#[trigger] prev.steps[i]).source == Some(
                        (j, Kind::RenameTarget),
                    );
                assert(next.steps[i].source == Some((j, Kind::RenameTarget)));
            }
        }
    }
    assert forall|i: int| 0 <= i < next.steps.len() implies 0 <= (
    #[trigger] next.steps[i]).destination < origin.len()
        && !origin[next.steps[i].destination].emitted
        && next.entries[next.steps[i].destination].emitted by {
        if i < last {
            assert(next.steps[i] == prev.steps[i]);
        } else {
            assert(origin[d].emitted ==> prev.entries[d].emitted);
        }
    }
    assert forall|i: int| 0 <= i < next.steps.len() && is_rename(#[trigger] next.steps[i]) implies 0
        <= next.steps[i].source.unwrap().0 < origin.len()
        && !origin[next.steps[i].source.unwrap().0].emitted
        && next.entries[next.steps[i].source.unwrap().0].emitted by {
        if i < last {
            assert(next.steps[i] == prev.steps[i]);
        } else {
            let s = source.unwrap().0;
            assert(origin[s].emitted ==> prev.entries[s].emitted);
        }
    }
    assert forall|a: int, b: int| 0 <= a < b < next.steps.len() implies (
    #[trigger] next.steps[a]).destination != (#[trigger] next.steps[b]).destination by {
        assert(next.steps[a] == prev.steps[a]);
        if b < last {
            assert(next.steps[b] == prev.steps[b]);
        } else {
            assert(prev.entries[prev.steps[a].destination].emitted);
        }
    }
    assert forall|a: int, b: int|
        0 <= a < next.steps.len() && 0 <= b < next.steps.len() && is_rename(
            #[trigger] next.steps[a],
        ) implies (#[trigger] next.steps[b]).destination != next.steps[a].source.unwrap().0 by {
        if a < last {
            assert(next.steps[a] == prev.steps[a]);
            if b < last {
                assert(next.steps[b] == prev.steps[b]);
            } else {
                assert(prev.entries[prev.steps[a].source.unwrap().0].emitted);
            }
        } else {
            if b < last {
                assert(next.steps[b] == prev.steps[b]);
                assert(prev.entries[prev.steps[b].destination].emitted);
            }
        }
    }
    assert forall|a: int, b: int|
        0 <= a < b < next.steps.len() && is_rename(#[trigger] next.steps[a]) && is_rename(
            #[trigger] next.steps[b],
        ) implies next.steps[a].source.unwrap().0 != next.steps[b].source.unwrap().0 by {
        assert(next.steps[a] == prev.steps[a]);
        if b < last {
            assert(next.steps[b] == prev.steps[b]);
        } else {
            assert(prev.entries[prev.steps[a].source.unwrap().0].emitted);
        }
    }
}

/// A pass keeps the steps in order.
pub proof fn lemma_tidy_pass(
    origin: Seq<Entry>,
    start: Progress,
    upto: int,
    kind: Kind,
    percentage: Option<Percentage>,
    within_limit: bool,
    objects: Map<Seq<u8>, ObjectModel>,
    algorithm: Algorithm,
)
    requires
        tidy(origin, start),
        0 <= upto <= origin.len(),
    ensures
        tidy(origin, pass_upto(start, upto, kind, percentage, within_limit, objects, algorithm)),
    decreases upto,
{
    if upto > 0 {
        let d = upto - 1;
        let prev = pass_upto(start, d, kind, percentage, within_limit, objects, algorithm);
        let next = pass_step(prev, d, kind, percentage, within_limit, objects, algorithm);
        lemma_tidy_pass(origin, start, d, kind, percentage, within_limit, objects, algorithm);
        lemma_match_of(prev.entries, d, percentage, kind, within_limit, objects, algorithm);
        if next.steps.len() > prev.steps.len() {
            let s = next.steps[prev.steps.len() as int].source.unwrap().0;
            lemma_tidy_advance(origin, prev, d, Some((s, kind)));
            assert(next == advance(prev, d, Some((s, kind))));
        } else {
            assert(next.entries == prev.entries);
            assert(next.steps == prev.steps);
        }
    }
}

/// Handing out what is left keeps the steps in order, and leaves every entry
/// before `upto` marked.
pub proof fn lemma_tidy_drain(origin: Seq<Entry>, start: Progress, upto: int)
    requires
        tidy(origin, start),
        0 <= upto <= origin.len(),
    ensures
        tidy(origin, drain_upto(start, upto)),
        forall|j: int| 0 <= j < upto ==> (#[trigger] drain_upto(start, upto).entries[j]).emitted,
    decreases upto,
{
    if upto > 0 {
        let i = upto - 1;
        let prev = drain_upto(start, i);
        let next = drain_upto(start, upto);
        lemma_tidy_drain(origin, start, i);
        if !prev.entries[i].emitted {
            lemma_tidy_advance(origin, prev, i, None);
            assert(next == advance(prev, i, None));
        }
        assert forall|j: int| 0 <= j < upto implies (#[trigger] next.entries[j]).emitted by {
            if j < i {
                assert(prev.entries[j].emitted);
            }
        }
    }
}

/// Everything is emitted exactly once. If emitting succeeds, every entry that
/// was not emitted before is either the destination of exactly one emission,
/// or the source of exactly one rename, and never both. What was emitted
/// before is not emitted again.
pub proof fn law_every_entry_is_emitted_once(
    entries: Seq<Entry>,
    rewrites: Rewrites,
    objects: Map<Seq<u8>, ObjectModel>,
    algorithm: Algorithm,
    j: int,
)
    requires
        0 <= j < entries.len(),
        emit_plan(entries, rewrites, objects, algorithm).error.is_none(),
    ensures
        ({
            let steps = emit_plan(entries, rewrites, objects, algorithm).steps;
            &&& entries[j].emitted ==> !emitted_at(steps, j) && !renamed_from(steps, j)
            &&& !entries[j].emitted ==> emitted_at(steps, j) != renamed_from(steps, j)
            &&& forall|a: int, b: int|
                0 <= a < b < steps.len() ==> !((#[trigger] steps[a]).destination == j && (
                #[trigger] steps[b]).destination == j)
            &&& forall|a: int, b: int|
                0 <= a < b < steps.len() ==> !((#[trigger] steps[a]).source == Some(
                    (j, Kind::RenameTarget),
                ) && (#[trigger] steps[b]).source == Some((j, Kind::RenameTarget)))
        }),
{
    let n = entries.len() as int;
    let compare = within_limit(entries, rewrites.limit);
    let start = Progress { entries, steps: Seq::empty(), error: None };
    let renamed = pass_upto(
        start,
        n,
        Kind::RenameTarget,
        rewrites.percentage,
        compare,
        objects,
        algorithm,
    );
    let copy_percentage = rewrites.spec_copy_percentage();
    let copied = if rewrites.copies.is_some() {
        pass_upto(renamed, n, Kind::Copy, copy_percentage, compare, objects, algorithm)
    } else {
        renamed
    };
    let plan = emit_plan(entries, rewrites, objects, algorithm);
    assert(tidy(entries, start));
    lemma_tidy_pass(
        entries,
        start,
        n,
        Kind::RenameTarget,
        rewrites.percentage,
        compare,
        objects,
        algorithm,
    );
    lemma_tidy_pass(entries, renamed, n, Kind::Copy, copy_percentage, compare, objects, algorithm);
    lemma_tidy_drain(entries, copied, n);
    let steps = plan.steps;
    assert(plan.entries[j].emitted);
    if emitted_at(steps, j) {
        let i = choose|i: int| 0 <= i < steps.len() && (#[trigger] steps[i]).destination == j;
        if renamed_from(steps, j) {
            let r = choose|r: int|
                0 <= r < steps.len() && (#[trigger] steps[r]).source == Some(
                    (j, Kind::RenameTarget),
                );
            assert(is_rename(steps[r]));
            assert(steps[i].destination != steps[r].source.unwrap().0);
        }
    }
    if renamed_from(steps, j) {
        let r = choose|r: int|
            0 <= r < steps.len() && (#[trigger] steps[r]).source == Some((j, Kind::RenameTarget));
        assert(is_rename(steps[r]));
    }
    assert forall|a: int, b: int| 0 <= a < b < steps.len() implies !((
    #[trigger] steps[a]).source == Some((j, Kind::RenameTarget)) && (#[trigger] steps[b]).source
        == Some((j, Kind::RenameTarget))) by {
        if steps[a].source == Some((j, Kind::RenameTarget)) && steps[b].source == Some(
            (j, Kind::RenameTarget),
        ) {
            assert(is_rename(steps[a]));
            assert(is_rename(steps[b]));
        }
    }
}

/// Renames are emitted first. The steps of an emission begin with those of
/// the pass that looks for renames, and each of these is a rename between an
/// addition and a deletion: while renames are looked for, nothing is emitted
/// for an addition without a source. So someone who cancels at an emission
/// whose number is no greater than the number of renames has seen renames only.
pub proof fn law_renames_come_first(
    entries: Seq<Entry>,
    rewrites: Rewrites,
    objects: Map<Seq<u8>, ObjectModel>,
    algorithm: Algorithm,
)
    ensures
        ({
            let plan = emit_plan(entries, rewrites, objects, algorithm);
            let renames = rename_steps(entries, rewrites, objects, algorithm);
            &&& renames.len() <= plan.steps.len()
            &&& plan.steps.subrange(0, renames.len() as int) == renames
            &&& forall|i: int|
                0 <= i < renames.len() ==> {
                    let step = #[trigger] renames[i];
                    &&& step.source.is_some()
                    &&& step.source.unwrap().1 is RenameTarget
                    &&& 0 <= step.destination < entries.len()
                    &&& entries[step.destination].change is Addition
                    &&& 0 <= step.source.unwrap().0 < entries.len()
                    &&& entries[step.source.unwrap().0].change is Deletion
                }
            &&& forall|cancel_at: usize|
                0 < cancel_at <= renames.len() ==> #[trigger] seen_steps(plan, cancel_at)
                    == renames.subrange(0, cancel_at as int)
        }),
{
    let n = entries.len() as int;
    let compare = within_limit(entries, rewrites.limit);
    let start = Progress { entries, steps: Seq::empty(), error: None };
    let renamed = pass_upto(
        start,
        n,
        Kind::RenameTarget,
        rewrites.percentage,
        compare,
        objects,
        algorithm,
    );
    let copy_percentage = rewrites.spec_copy_percentage();
    let copied = if rewrites.copies.is_some() {
        pass_upto(renamed, n, Kind::Copy, copy_percentage, compare, objects, algorithm)
    } else {
        renamed
    };
    let plan = emit_plan(entries, rewrites, objects, algorithm);
    let renames = rename_steps(entries, rewrites, objects, algorithm);
    lemma_pass_upto(
        entries,
        start,
        n,
        Kind::RenameTarget,
        rewrites.percentage,
        compare,
        objects,
        algorithm,
    );
    lemma_pass_upto(entries, renamed, n, Kind::Copy, copy_percentage, compare, objects, algorithm);
    if copied.error.is_none() {
        lemma_drain_upto(entries, copied, n);
    }
    assert forall|i: int| 0 <= i < renames.len() implies plan.steps[i] == #[trigger] renames[i] by {
        assert(copied.steps[i] == renamed.steps[i]);
        assert(plan.steps[i] == copied.steps[i]);
    }
    assert(plan.steps.subrange(0, renames.len() as int) =~= renames);
    assert forall|cancel_at: usize| 0 < cancel_at <= renames.len() implies #[trigger] seen_steps(
        plan,
        cancel_at,
    ) == renames.subrange(0, cancel_at as int) by {
        assert(plan.steps.subrange(0, cancel_at as int) =~= renames.subrange(0, cancel_at as int));
    }
}

} // verus!
