//! Handing emissions to a callback that may cancel or fail.
use vstd::prelude::*;
use crate::visit::Event;

verus! {

/// What a callback says after an emission.
#[derive(Clone, Copy, Debug, PartialEq, Eq, Hash)]
pub enum Action {
    /// Go on with the next emission.
    Continue,
    /// Stop: nothing more is to be handed on. This is no failure.
    Cancel,
}

/// Whether `callback` may say `Continue` to each of the first `upto` of `events`.
pub open spec fn continued<E, F: Fn(&Event) -> Result<Action, E>>(
    callback: F,
    events: Seq<Event>,
    upto: int,
) -> bool {
    forall|j: int|
        0 <= j < upto ==> call_ensures(
            callback,
            (&#[trigger] events[j],),
            Ok::<Action, E>(Action::Continue),
        )
}

/// How handing on ended: how many emissions the callback has seen, and
/// whether it cancelled at the last of them.
#[derive(Clone, Copy, Debug, PartialEq, Eq, Hash)]
pub struct Handed {
    pub seen: usize,
    pub cancelled: bool,
}

/// Hands `events` to `callback`, one after the other, until it cancels or
/// fails. Cancelling is no failure: the callback has seen what it wanted to
/// see, and nothing is handed on after that. Without cancelling it sees every
/// emission. A failure of the callback is the failure of the whole, and
/// nothing is handed on after it either.
pub fn hand_on<E, F: Fn(&Event) -> Result<Action, E>>(events: &Vec<Event>, callback: F) -> (r:
    Result<Handed, E>)
    requires
        forall|j: int| 0 <= j < events@.len() ==> call_requires(callback, (&#[trigger] events@[j],)),
    ensures
        match r {
            Ok(handed) => if handed.cancelled {
                0 < handed.seen <= events@.len() && continued(callback, events@, handed.seen - 1)
                    && call_ensures(
                    callback,
                    (&events@[handed.seen - 1],),
                    Ok::<Action, E>(Action::Cancel),
                )
            } else {
                handed.seen == events@.len() && continued(callback, events@, handed.seen as int)
            },
            Err(e) => exists|k: int|
                0 <= k < events@.len() && continued(callback, events@, k) && call_ensures(
                    callback,
                    (&#[trigger] events@[k],),
                    Err::<Action, E>(e),
                ),
        },
{
    let mut i: usize = 0;
    while i < events.len()
        invariant
            i <= events@.len(),
            continued(callback, events@, i as int),
            forall|j: int|
                0 <= j < events@.len() ==> call_requires(callback, (&#[trigger] events@[j],)),
        decreases events@.len() - i,
    {
        match callback(&events[i]) {
            Ok(Action::Continue) => {},
            Ok(Action::Cancel) => {
                return Ok(Handed { seen: i + 1, cancelled: true });
            },
            Err(e) => {
                return Err(e);
            },
        }
        i += 1;
    }
    Ok(Handed { seen: i, cancelled: false })
}

} // verus!
