//! A tree diff with its rewrites: the changes of the walk, of which additions
//! and deletions are paired up into renames and copies.
use vstd::prelude::*;
use crate::error::Error;
use crate::hash::ObjectId;
use crate::plan::emit_plan;
use crate::plan::events_of;
use crate::rewrites::Rewrites;
use crate::similarity::Algorithm;
use crate::source::ObjectModel;
use crate::source::ObjectSource;
use crate::tracker::Entry;
use crate::tracker::State;
use crate::tracker::tracks;
use crate::tree::changes_between;
use crate::tree::diff_trees;
use crate::tree::diff_trees_into;
use crate::tree::diffed_between;
use crate::tree::Diffed;
use crate::tree::located;
use crate::tree::PathChange;
use crate::tree::PathChangeModel;
use crate::tree::Tracking;
use crate::visit::Destination;
use crate::visit::DestinationModel;
use crate::visit::Event;
use crate::visit::EventModel;
use crate::visit::models;

verus! {

/// The changes of a walk, parted: those that rewrite tracking keeps, and
/// those that pass it by and are emitted as they are.
pub struct Parted {
    pub kept: Seq<Entry>,
    pub passed: Seq<EventModel>,
}

/// The emission of a change as it is, without a source.
pub open spec fn plain(change: PathChangeModel) -> EventModel {
    EventModel {
        destination: DestinationModel { change: change.change, location: change.location },
        source: None,
    }
}

/// The first `upto` of `changes`, parted as a tracker with `rewrites` parts them.
pub open spec fn parted_upto(changes: Seq<PathChangeModel>, rewrites: Rewrites, upto: int) -> Parted
    decreases upto,
{
    if upto <= 0 {
        Parted { kept: Seq::empty(), passed: Seq::empty() }
    } else {
        let before = parted_upto(changes, rewrites, upto - 1);
        let change = changes[upto - 1];
        if tracks(rewrites, change.change) {
            Parted {
                kept: before.kept.push(
                    Entry { change: change.change, path: change.location, emitted: false },
                ),
                passed: before.passed,
            }
        } else {
            Parted { kept: before.kept, passed: before.passed.push(plain(change)) }
        }
    }
}

/// The first `upto` of `changes`, each emitted as it is.
pub open spec fn plain_upto(changes: Seq<PathChangeModel>, upto: int) -> Seq<EventModel>
    decreases upto,
{
    if upto <= 0 {
        Seq::empty()
    } else {
        plain_upto(changes, upto - 1).push(plain(changes[upto - 1]))
    }
}

/// What a diff with rewrites emits for `changes`. Without settings every
/// change is emitted as it is. With settings, the changes that tracking does
/// not keep come first, in the order of the walk, and what tracking emits
/// for the others follows; a failure of tracking is the failure of the diff.
pub open spec fn emitted_for(
    changes: Seq<PathChangeModel>,
    rewrites: Option<Rewrites>,
    objects: Map<Seq<u8>, ObjectModel>,
    algorithm: Algorithm,
) -> Result<Seq<EventModel>, Error> {
    match rewrites {
        None => Ok(plain_upto(changes, changes.len() as int)),
        Some(settings) => {
            let parted = parted_upto(changes, settings, changes.len() as int);
            let plan = emit_plan(parted.kept, settings, objects, algorithm);
            match plan.error {
                Some(e) => Err(e),
                None => Ok(parted.passed + events_of(parted.kept, plan.steps)),
            }
        },
    }
}

/// What a diff with rewrites between two trees emits, or why it fails.
pub open spec fn rewritten_between(
    lhs: ObjectId,
    rhs: ObjectId,
    objects: Map<Seq<u8>, ObjectModel>,
    tracking: Tracking,
    rewrites: Option<Rewrites>,
    algorithm: Algorithm,
    budget: usize,
) -> Result<Seq<EventModel>, Error> {
    match changes_between(lhs, rhs, objects, tracking, budget) {
        Err(e) => Err(e),
        Ok(changes) => emitted_for(changes, rewrites, objects, algorithm),
    }
}

/// Whether an executable result says what `planned` says.
pub open spec fn events_are(r: Result<Vec<Event>, Error>, planned: Result<Seq<EventModel>, Error>) -> bool {
    match planned {
        Ok(events) => r.is_ok() && models(r.unwrap()@) == events,
        Err(e) => r == Err::<Vec<Event>, Error>(e),
    }
}

/// Appends to `out` the changes that pass rewrite tracking by, each as it is
/// and in their order, and returns the tracker with the changes that it
/// keeps. Without settings there is no tracker, and every change passes by.
fn part(changes: &Vec<PathChange>, rewrites: Option<Rewrites>, out: &mut Vec<Event>) -> (r: Option<
    State,
>)
    ensures
        match rewrites {
            None => r.is_none() && models(final(out)@) == models(old(out)@) + plain_upto(
                located(changes@),
                changes@.len() as int,
            ),
            Some(settings) => r.is_some() && r.unwrap().wf() && r.unwrap().settings() == settings
                && r.unwrap().entries() == parted_upto(
                located(changes@),
                settings,
                changes@.len() as int,
            ).kept && models(final(out)@) == models(old(out)@) + parted_upto(
                located(changes@),
                settings,
                changes@.len() as int,
            ).passed,
        },
{
    let ghost all = located(changes@);
    let ghost base = models(out@);
    proof {
        assert(base + Seq::<EventModel>::empty() =~= base);
    }
    match rewrites {
        None => {
            let mut i: usize = 0;
            while i < changes.len()
                invariant
                    i <= changes@.len(),
                    all == located(changes@),
                    models(out@) == base + plain_upto(all, i as int),
                decreases changes@.len() - i,
            {
                let event = Event {
                    destination: Destination {
                        change: changes[i].change,
                        location: changes[i].location.clone(),
                    },
                    source: None,
                };
                proof {
                    assert(event@ == plain(all[i as int]));
                    assert(models(out@.push(event)) =~= models(out@).push(event@));
                    assert((base + plain_upto(all, i as int)).push(event@) =~= base + plain_upto(
                        all,
                        i as int,
                    ).push(event@));
                }
                out.push(event);
                i += 1;
            }
            None
        },
        Some(settings) => {
            let mut state = State::new(settings);
            let mut i: usize = 0;
            while i < changes.len()
                invariant
                    i <= changes@.len(),
                    all == located(changes@),
                    state.wf(),
                    state.settings() == settings,
                    state.entries() == parted_upto(all, settings, i as int).kept,
                    models(out@) == base + parted_upto(all, settings, i as int).passed,
                decreases changes@.len() - i,
            {
                match state.try_push_change(changes[i].change, changes[i].location.as_slice()) {
                    Some(change) => {
                        let event = Event {
                            destination: Destination {
                                change,
                                location: changes[i].location.clone(),
                            },
                            source: None,
                        };
                        proof {
                            assert(event@ == plain(all[i as int]));
                            assert(models(out@.push(event)) =~= models(out@).push(event@));
                            assert((base + parted_upto(all, settings, i as int).passed).push(event@)
                                =~= base + parted_upto(all, settings, i as int).passed.push(
                                event@,
                            ));
                        }
                        out.push(event);
                    },
                    None => {},
                }
                i += 1;
            }
            Some(state)
        },
    }
}

/// Emits `changes`, with the rewrites among them if `rewrites` asks for them:
/// see `emitted_for`.
pub fn emit_changes<S: ObjectSource>(
    changes: Vec<PathChange>,
    rewrites: Option<Rewrites>,
    source: &mut S,
    algorithm: Algorithm,
) -> (r: Result<Vec<Event>, Error>)
    requires
        old(source).valid(),
    ensures
        final(source).valid(),
        final(source).objects() == old(source).objects(),
        events_are(r, emitted_for(located(changes@), rewrites, old(source).objects(), algorithm)),
{
    let ghost all = located(changes@);
    let mut out: Vec<Event> = Vec::new();
    proof {
        assert(models(out@) =~= Seq::<EventModel>::empty());
    }
    let kept = part(&changes, rewrites, &mut out);
    proof {
        match rewrites {
            None => {
                assert(Seq::<EventModel>::empty() + plain_upto(all, all.len() as int)
                    =~= plain_upto(all, all.len() as int));
            },
            Some(settings) => {
                assert(Seq::<EventModel>::empty() + parted_upto(
                    all,
                    settings,
                    all.len() as int,
                ).passed =~= parted_upto(all, settings, all.len() as int).passed);
            },
        }
    }
    match kept {
        None => Ok(out),
        Some(mut state) => match state.emit(&mut out, source, algorithm) {
            Ok(()) => Ok(out),
            Err(e) => Err(e),
        },
    }
}

/// The changes that turn the tree named `lhs` into the tree named `rhs`, with
/// the rewrites among them if `rewrites` asks for them.
pub fn diff_with_rewrites<S: ObjectSource>(
    lhs: &ObjectId,
    rhs: &ObjectId,
    source: &mut S,
    tracking: Tracking,
    rewrites: Option<Rewrites>,
    algorithm: Algorithm,
    budget: usize,
) -> (r: Result<Vec<Event>, Error>)
    requires
        old(source).valid(),
    ensures
        final(source).valid(),
        final(source).objects() == old(source).objects(),
        events_are(
            r,
            rewritten_between(
                *lhs,
                *rhs,
                old(source).objects(),
                tracking,
                rewrites,
                algorithm,
                budget,
            ),
        ),
{
    match diff_trees(lhs, rhs, source, tracking, budget) {
        Ok(changes) => emit_changes(changes, rewrites, source, algorithm),
        Err(e) => Err(e),
    }
}

/// What a diff tells, as far as it gets, and the error that ended it, if one did.
pub struct Told {
    pub events: Seq<EventModel>,
    pub error: Option<Error>,
}

/// What is told of a diff with its rewrites. Changes that tracking does not
/// keep are told as the walk tells them, also before a failure of the walk.
/// If the walk succeeds, what tracking emits follows, as far as tracking
/// gets. Without settings every change is told as it is.
pub open spec fn told_for(
    diffed: Diffed,
    rewrites: Option<Rewrites>,
    objects: Map<Seq<u8>, ObjectModel>,
    algorithm: Algorithm,
) -> Told {
    match rewrites {
        None => Told {
            events: plain_upto(diffed.changes, diffed.changes.len() as int),
            error: diffed.error,
        },
        Some(settings) => {
            let parted = parted_upto(diffed.changes, settings, diffed.changes.len() as int);
            match diffed.error {
                Some(e) => Told { events: parted.passed, error: Some(e) },
                None => {
                    let plan = emit_plan(parted.kept, settings, objects, algorithm);
                    Told {
                        events: parted.passed + events_of(parted.kept, plan.steps),
                        error: plan.error,
                    }
                },
            }
        },
    }
}

/// Appends to `out` what the diff between the trees named `lhs` and `rhs`
/// tells, with the rewrites among the changes if `rewrites` asks for them.
/// After a failure `out` holds what was told before it: see `told_for`.
pub fn tell_into<S: ObjectSource>(
    lhs: &ObjectId,
    rhs: &ObjectId,
    source: &mut S,
    tracking: Tracking,
    rewrites: Option<Rewrites>,
    algorithm: Algorithm,
    budget: usize,
    out: &mut Vec<Event>,
) -> (r: Result<(), Error>)
    requires
        old(source).valid(),
    ensures
        final(source).valid(),
        final(source).objects() == old(source).objects(),
        models(final(out)@) == models(old(out)@) + told_for(
            diffed_between(*lhs, *rhs, old(source).objects(), tracking, budget),
            rewrites,
            old(source).objects(),
            algorithm,
        ).events,
        match told_for(
            diffed_between(*lhs, *rhs, old(source).objects(), tracking, budget),
            rewrites,
            old(source).objects(),
            algorithm,
        ).error {
            Some(e) => r == Err::<(), Error>(e),
            None => r == Ok::<(), Error>(()),
        },
{
    let ghost diffed = diffed_between(*lhs, *rhs, source.objects(), tracking, budget);
    let ghost base = models(out@);
    let mut changes: Vec<PathChange> = Vec::new();
    proof {
        assert(located(changes@) =~= Seq::<PathChangeModel>::empty());
    }
    let walked = diff_trees_into(lhs, rhs, source, tracking, budget, &mut changes);
    proof {
        assert(Seq::<PathChangeModel>::empty() + diffed.changes =~= diffed.changes);
    }
    let kept = part(&changes, rewrites, out);
    match walked {
        Err(e) => Err(e),
        Ok(()) => match kept {
            None => Ok(()),
            Some(mut state) => {
                let ghost passed = models(out@);
                let ghost entries = state.entries();
                let ghost plan = emit_plan(entries, state.settings(), source.objects(), algorithm);
                let r = state.emit(out, source, algorithm);
                proof {
                    assert(passed + events_of(entries, plan.steps) =~= base + (parted_upto(
                        diffed.changes,
                        state.settings(),
                        diffed.changes.len() as int,
                    ).passed + events_of(entries, plan.steps)));
                }
                r
            },
        },
    }
}

} // verus!
