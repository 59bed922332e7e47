//! Rewrite tracking: changes are collected first, and paired up into renames
//! and copies when they are emitted.
use vstd::prelude::*;
use crate::change::Change;
use crate::error::Error;
use crate::hash::lemma_lex_flip;
use crate::hash::lemma_lex_zero;
use crate::hash::lemma_same_bytes;
use crate::order::is_order;
use crate::order::lemma_order_ids;
use crate::order::lemma_rank_same_id;
use crate::order::lower_bound;
use crate::order::occurs;
use crate::order::ranked;
use crate::order::ranks_before;
use crate::plan::additions_upto;
use crate::plan::by_similarity;
use crate::plan::decisive;
use crate::plan::deletions_upto;
use crate::plan::drain_upto;
use crate::plan::eligible;
use crate::plan::emit_plan;
use crate::plan::event_of;
use crate::plan::events_of;
use crate::plan::first_decisive;
use crate::plan::first_identical;
use crate::plan::identical;
use crate::plan::is_cancelled;
use crate::plan::lemma_first_decisive_unique;
use crate::plan::lemma_first_identical_is;
use crate::plan::lemma_first_identical_none;
use crate::plan::lemma_pass_stops;
use crate::plan::mark;
use crate::plan::match_of;
use crate::plan::outcome_is;
use crate::plan::pass_step;
use crate::plan::pass_upto;
use crate::plan::precedes;
use crate::plan::Progress;
use crate::plan::same_changes;
use crate::plan::seen_steps;
use crate::plan::Step;
use crate::plan::within_limit;
use crate::rewrites::needs_exact_match;
use crate::rewrites::Percentage;
use crate::rewrites::Rewrites;
use crate::similarity::Algorithm;
use crate::similarity::count_lines;
use crate::similarity::reaches;
use crate::source::blob_in;
use crate::source::find_blob;
use crate::source::ObjectSource;
use crate::visit::Destination;
use crate::visit::Event;
use crate::visit::EventModel;
use crate::visit::Kind;
use crate::visit::models;
use crate::visit::Source;

verus! {

/// A collected change: where its path lies in the backing, and whether it was
/// handed out already.
#[derive(Clone, Copy, Debug)]
pub struct Item {
    /// The underlying raw change.
    pub change: Change,
    /// Where the path starts in the backing.
    pub start: usize,
    /// Where the path ends in the backing.
    pub end: usize,
    /// If true, this item was already emitted.
    pub emitted: bool,
}

/// A collected change as contracts speak of it.
pub struct Entry {
    pub change: Change,
    pub path: Seq<u8>,
    pub emitted: bool,
}

/// The changes collected for one pair of trees, in the order in which they
/// were pushed, and the paths they happened at.
pub struct State {
    items: Vec<Item>,
    path_backing: Vec<u8>,
    rewrites: Rewrites,
}

/// Whether the paths of `items` lie one after the other in a backing of `len` bytes.
pub open spec fn in_sequence(items: Seq<Item>, len: int) -> bool {
    &&& forall|i: int|
        0 <= i < items.len() ==> (#[trigger] items[i]).start <= items[i].end && items[i].end <= len
    &&& forall|i: int, j: int|
        0 <= i < j < items.len() ==> (#[trigger] items[i]).end <= (#[trigger] items[j]).start
}

/// Whether a tracker with these settings keeps `change`: it has to concern
/// file content, and a modification matters only when copies are looked for.
pub open spec fn tracks(rewrites: Rewrites, change: Change) -> bool {
    change.spec_mode().spec_is_blob() && (rewrites.copies.is_some() || !(change is Modification))
}

impl State {
    /// The collected changes, in the order in which they were pushed.
    pub closed spec fn entries(&self) -> Seq<Entry> {
        Seq::new(
            self.items@.len(),
            |i: int|
                Entry {
                    change: self.items@[i].change,
                    path: self.path_backing@.subrange(
                        self.items@[i].start as int,
                        self.items@[i].end as int,
                    ),
                    emitted: self.items@[i].emitted,
                },
        )
    }

    /// The settings that the tracker was made with.
    pub closed spec fn settings(&self) -> Rewrites {
        self.rewrites
    }

    /// Every stored path lies within the backing, and every collected change is
    /// one that the settings keep.
    pub closed spec fn wf(&self) -> bool {
        &&& in_sequence(self.items@, self.path_backing@.len() as int)
        &&& forall|i: int|
            0 <= i < self.items@.len() ==> tracks(self.rewrites, (#[trigger] self.items@[i]).change)
    }

    /// A tracker that holds no change yet.
    pub fn new(renames: Rewrites) -> (r: State)
        ensures
            r.wf(),
            r.entries() == Seq::<Entry>::empty(),
            r.settings() == renames,
    {
        let r = State { items: Vec::new(), path_backing: Vec::new(), rewrites: renames };
        assert(r.entries() =~= Seq::<Entry>::empty());
        r
    }

    /// The number of collected changes.
    pub fn len(&self) -> (r: usize)
        ensures
            r == self.entries().len(),
    {
        self.items.len()
    }

    /// Takes `change`, which happened at `location`, if it matters for rewrite
    /// tracking, and returns `None`. Otherwise hands the change back untouched,
    /// for the caller to emit at once.
    pub fn try_push_change(&mut self, change: Change, location: &[u8]) -> (r: Option<Change>)
        requires
            old(self).wf(),
        ensures
            final(self).wf(),
            final(self).settings() == old(self).settings(),
            tracks(old(self).settings(), change) ==> r.is_none() && final(self).entries() == old(
                self,
            ).entries().push(Entry { change, path: location@, emitted: false }),
            !tracks(old(self).settings(), change) ==> r == Some(change) && final(self).entries()
                == old(self).entries(),
    {
        if !change.mode().is_blob() {
            return Some(change);
        }
        let keep = match self.rewrites.copies {
            Some(_) => true,
            None => !change.is_modification(),
        };
        if !keep {
            return Some(change);
        }
        let start = self.path_backing.len();
        let ghost before = self.path_backing@;
        let ghost items_before = self.items@;
        self.path_backing.extend_from_slice(location);
        let end = self.path_backing.len();
        self.items.push(Item { change, start, end, emitted: false });
        proof {
            assert(self.path_backing@ =~= before + location@);
            assert(self.path_backing@.subrange(start as int, end as int) =~= location@);
            assert forall|i: int| 0 <= i < items_before.len() implies self.path_backing@.subrange(
                (#[trigger] items_before[i]).start as int,
                items_before[i].end as int,
            ) == before.subrange(items_before[i].start as int, items_before[i].end as int) by {
                assert(self.path_backing@.subrange(
                    items_before[i].start as int,
                    items_before[i].end as int,
                ) =~= before.subrange(items_before[i].start as int, items_before[i].end as int));
            }
            assert(self.entries() =~= old(self).entries().push(
                Entry { change, path: location@, emitted: false },
            ));
        }
        None
    }

    /// The place in `order` at which position `k` stands.
    proof fn place_of(order: Seq<usize>, k: int) -> (q: int)
        requires
            occurs(order, k),
        ensures
            0 <= q < order.len(),
            order[q] == k,
    {
        choose|q: int| 0 <= q < order.len() && #[trigger] order[q] == k
    }

    /// An entry found later in the order than the entry at place `p` is
    /// looked at no earlier than it.
    proof fn lemma_later_follows(&self, order: Seq<usize>, p: int, q: int)
        requires
            self.wf(),
            is_order(order, self.items@),
            0 <= p <= q < order.len(),
        ensures
            precedes(self.entries(), order[p] as int, order[q] as int),
    {
        let a = order[p];
        let b = order[q];
        let x = self.items@[a as int].change.spec_oid();
        let y = self.items@[b as int].change.spec_oid();
        lemma_lex_flip(x@, y@);
        lemma_lex_zero(x@, y@);
        if p < q {
            assert(!ranks_before(self.items@, order[q], order[p]));
            if crate::hash::lex(x@, y@) == 0 {
                lemma_same_bytes(x, y);
                lemma_rank_same_id(self.items@, self.path_backing@.len() as int, b, a);
            }
        }
    }

    /// The source of the destination at `d` by identity: the first pushed
    /// among the eligible items with the identifier of the destination.
    fn find_identical(&self, order: &Vec<usize>, d: usize, kind: Kind) -> (r: Option<usize>)
        requires
            self.wf(),
            is_order(order@, self.items@),
            d < self.items@.len(),
        ensures
            r.is_some() <==> first_identical(self.entries(), d as int, kind).is_some(),
            r.is_some() ==> r.unwrap() == first_identical(self.entries(), d as int, kind).unwrap()
                && r.unwrap() < self.items@.len(),
    {
        let id = self.items[d].change.oid();
        let low = lower_bound(order, &self.items, &id);
        let mut p = low;
        let mut within = true;
        while within && p < order.len()
            invariant
                self.wf(),
                is_order(order@, self.items@),
                d < self.items@.len(),
                id == self.items@[d as int].change.spec_oid(),
                low <= p <= order@.len(),
                forall|q: int|
                    0 <= q < low ==> crate::hash::lex(
                        self.items@[(#[trigger] order@[q]) as int].change.spec_oid()@,
                        id@,
                    ) < 0,
                forall|q: int|
                    low <= q < order@.len() ==> crate::hash::lex(
                        self.items@[(#[trigger] order@[q]) as int].change.spec_oid()@,
                        id@,
                    ) >= 0,
                forall|q: int|
                    low <= q < p ==> !identical(self.entries(), d as int, kind, (
                    #[trigger] order@[q]) as int),
                !within ==> p < order@.len() && self.items@[order@[p as int] as int].change.spec_oid()
                    != id,
            decreases order@.len() - p + (if within { 1int } else { 0int }),
        {
            let j = order[p];
            let candidate = &self.items[j];
            if !candidate.change.oid().same(&id) {
                within = false;
            } else {
                if j != d && !candidate.emitted && kind.can_use_change(&candidate.change) {
                    proof {
                        let entries = self.entries();
                        assert(identical(entries, d as int, kind, j as int));
                        assert forall|k: int| 0 <= k < j implies !identical(
                            entries,
                            d as int,
                            kind,
                            k,
                        ) by {
                            if identical(entries, d as int, kind, k) {
                                assert(occurs(order@, k));
                                let q = Self::place_of(order@, k);
                                lemma_lex_zero(
                                    self.items@[k].change.spec_oid()@,
                                    id@,
                                );
                                if q > p {
                                    assert(!ranks_before(self.items@, order@[q], order@[p as int]));
                                    lemma_rank_same_id(
                                        self.items@,
                                        self.path_backing@.len() as int,
                                        k as usize,
                                        j,
                                    );
                                }
                            }
                        }
                        lemma_first_identical_is(entries, d as int, kind, j as int);
                    }
                    return Some(j);
                }
                p += 1;
            }
        }
        proof {
            let entries = self.entries();
            assert forall|k: int| 0 <= k < entries.len() implies !identical(
                entries,
                d as int,
                kind,
                k,
            ) by {
                if identical(entries, d as int, kind, k) {
                    assert(occurs(order@, k));
                    let q = Self::place_of(order@, k);
                    lemma_lex_zero(self.items@[k].change.spec_oid()@, id@);
                    if q >= p {
                        lemma_order_ids(order@, self.items@, p as int, q);
                        let stop = self.items@[order@[p as int] as int].change.spec_oid();
                        lemma_lex_zero(stop@, id@);
                        lemma_same_bytes(stop, id);
                    }
                }
            }
            lemma_first_identical_none(entries, d as int, kind);
        }
        None
    }

    /// The source of the destination at `d` by content: see `by_similarity`.
    fn find_similar<S: ObjectSource>(
        &self,
        order: &Vec<usize>,
        d: usize,
        percentage: Percentage,
        kind: Kind,
        source: &mut S,
        algorithm: Algorithm,
    ) -> (r: Result<Option<usize>, Error>)
        requires
            old(source).valid(),
            self.wf(),
            is_order(order@, self.items@),
            d < self.items@.len(),
        ensures
            final(source).valid(),
            final(source).objects() == old(source).objects(),
            outcome_is(
                r,
                by_similarity(
                    self.entries(),
                    d as int,
                    kind,
                    percentage,
                    old(source).objects(),
                    algorithm,
                ),
            ),
            r.is_ok() && r.unwrap().is_some() ==> r.unwrap().unwrap() < self.items@.len(),
    {
        let ghost objects = source.objects();
        let ghost entries = self.entries();
        let id = self.items[d].change.oid();
        let target = match find_blob(source, &id) {
            Some(blob) => blob,
            None => {
                return Err(Error::BlobFetch(id));
            },
        };
        let mut p: usize = 0;
        while p < order.len()
            invariant
                self.wf(),
                is_order(order@, self.items@),
                d < self.items@.len(),
                entries == self.entries(),
                source.valid(),
                source.objects() == objects,
                objects == old(source).objects(),
                blob_in(objects, entries[d as int].change.spec_oid()@) == Some(target@),
                p <= order@.len(),
                forall|q: int|
                    0 <= q < p ==> !decisive(
                        entries,
                        d as int,
                        kind,
                        percentage,
                        objects,
                        algorithm,
                        target@,
                        (#[trigger] order@[q]) as int,
                    ),
            decreases order@.len() - p,
        {
            let j = order[p];
            let candidate = &self.items[j];
            if j != d && !candidate.emitted && kind.can_use_change(&candidate.change) {
                let origin_id = candidate.change.oid();
                let origin = find_blob(source, &origin_id);
                let counts = match &origin {
                    Some(blob) => count_lines(blob.as_slice(), target.as_slice(), algorithm),
                    None => None,
                };
                let stops = match &counts {
                    Some(c) => reaches(c, &percentage),
                    None => true,
                };
                if stops {
                    proof {
                        assert(decisive(
                            entries,
                            d as int,
                            kind,
                            percentage,
                            objects,
                            algorithm,
                            target@,
                            j as int,
                        ));
                        assert forall|k: int| #[trigger]
                            decisive(
                                entries,
                                d as int,
                                kind,
                                percentage,
                                objects,
                                algorithm,
                                target@,
                                k,
                            ) implies precedes(entries, j as int, k) by {
                            assert(occurs(order@, k));
                            let q = Self::place_of(order@, k);
                            self.lemma_later_follows(order@, p as int, q);
                        }
                        assert(first_decisive(
                            entries,
                            d as int,
                            kind,
                            percentage,
                            objects,
                            algorithm,
                            target@,
                            j as int,
                        ));
                        let first = choose|f: int|
                            first_decisive(
                                entries,
                                d as int,
                                kind,
                                percentage,
                                objects,
                                algorithm,
                                target@,
                                f,
                            );
                        lemma_first_decisive_unique(
                            entries,
                            d as int,
                            kind,
                            percentage,
                            objects,
                            algorithm,
                            target@,
                            first,
                            j as int,
                        );
                    }
                    return match origin {
                        None => Err(Error::BlobFetch(origin_id)),
                        Some(_) => match counts {
                            None => Err(Error::BlobDiff),
                            Some(_) => Ok(Some(j)),
                        },
                    };
                }
            }
            p += 1;
        }
        proof {
            assert forall|k: int|
                !first_decisive(
                    entries,
                    d as int,
                    kind,
                    percentage,
                    objects,
                    algorithm,
                    target@,
                    k,
                ) by {
                if decisive(entries, d as int, kind, percentage, objects, algorithm, target@, k) {
                    assert(occurs(order@, k));
                    let q = Self::place_of(order@, k);
                }
            }
        }
        Ok(None)
    }

    /// Finds the source of the destination at `d` among the items, leaving out
    /// the destination itself and whatever was emitted already. Identity is
    /// tried first, whatever the threshold; content is compared after that,
    /// where `percentage` asks for it and `within_limit` allows it.
    fn find_match<S: ObjectSource>(
        &self,
        order: &Vec<usize>,
        d: usize,
        percentage: Option<Percentage>,
        kind: Kind,
        within_limit: bool,
        source: &mut S,
        algorithm: Algorithm,
    ) -> (r: Result<Option<usize>, Error>)
        requires
            old(source).valid(),
            self.wf(),
            is_order(order@, self.items@),
            d < self.items@.len(),
        ensures
            final(source).valid(),
            final(source).objects() == old(source).objects(),
            outcome_is(
                r,
                match_of(
                    self.entries(),
                    d as int,
                    percentage,
                    kind,
                    within_limit,
                    old(source).objects(),
                    algorithm,
                ),
            ),
            r.is_ok() && r.unwrap().is_some() ==> r.unwrap().unwrap() < self.items@.len(),
    {
        match self.find_identical(order, d, kind) {
            Some(j) => {
                return Ok(Some(j));
            },
            None => {},
        }
        if !within_limit || needs_exact_match(percentage) || self.items[d].change.mode().is_symlink() {
            return Ok(None);
        }
        match percentage {
            Some(p) => self.find_similar(order, d, p, kind, source, algorithm),
            None => Ok(None),
        }
    }

    /// The path of the item at `i`, copied out of the backing.
    fn location_of(&self, i: usize) -> (r: Vec<u8>)
        requires
            self.wf(),
            i < self.items@.len(),
        ensures
            r@ == self.entries()[i as int].path,
    {
        let start = self.items[i].start;
        let end = self.items[i].end;
        let mut r: Vec<u8> = Vec::new();
        let mut at = start;
        while at < end
            invariant
                start <= at <= end <= self.path_backing@.len(),
                r@ == self.path_backing@.subrange(start as int, at as int),
            decreases end - at,
        {
            r.push(self.path_backing[at]);
            proof {
                assert(self.path_backing@.subrange(start as int, at as int).push(
                    self.path_backing@[at as int],
                ) =~= self.path_backing@.subrange(start as int, at as int + 1));
            }
            at += 1;
        }
        r
    }

    /// Marks the item at `i` as emitted.
    fn mark_emitted(&mut self, i: usize)
        requires
            old(self).wf(),
            i < old(self).items@.len(),
        ensures
            final(self).wf(),
            final(self).settings() == old(self).settings(),
            final(self).entries() == mark(old(self).entries(), i as int),
            final(self).items@.len() == old(self).items@.len(),
            forall|order: Seq<usize>|
                is_order(order, old(self).items@) ==> is_order(order, final(self).items@),
    {
        let mut item = self.items[i];
        item.emitted = true;
        let ghost before = self.items@;
        self.items.set(i, item);
        proof {
            let after = self.items@;
            assert forall|k: int| 0 <= k < after.len() implies (#[trigger] after[k]).change
                == before[k].change && after[k].start == before[k].start && after[k].end
                == before[k].end by {}
            assert(self.entries() =~= mark(old(self).entries(), i as int));
            assert forall|order: Seq<usize>| is_order(order, before) implies is_order(
                order,
                after,
            ) by {
                assert forall|p: int, q: int| 0 <= p < q < order.len() implies !ranks_before(
                    after,
                    #[trigger] order[q],
                    #[trigger] order[p],
                ) by {
                    assert(!ranks_before(before, order[q], order[p]));
                }
            }
        }
    }

    /// Whether there are few enough pairs of an addition and a deletion for
    /// content to be compared.
    fn compares_within_limit(&self) -> (r: bool)
        ensures
            r == within_limit(self.entries(), self.settings().limit),
    {
        let ghost entries = self.entries();
        let mut additions: usize = 0;
        let mut deletions: usize = 0;
        let mut i: usize = 0;
        while i < self.items.len()
            invariant
                i <= self.items@.len(),
                entries == self.entries(),
                additions == additions_upto(entries, i as int),
                deletions == deletions_upto(entries, i as int),
                additions <= i,
                deletions <= i,
            decreases self.items@.len() - i,
        {
            if self.items[i].change.is_addition() {
                additions += 1;
            }
            if self.items[i].change.is_deletion() {
                deletions += 1;
            }
            i += 1;
        }
        assert(additions * deletions <= u128::MAX) by (nonlinear_arith)
            requires
                0 <= additions <= u64::MAX,
                0 <= deletions <= u64::MAX,
        ;
        (additions as u128) * (deletions as u128) <= (self.rewrites.limit as u128)
    }

    /// The emission in which the item at `d` is the destination and the item
    /// at `s`, if any, its source.
    fn event_for(&self, d: usize, s: Option<usize>, kind: Kind) -> (r: Event)
        requires
            self.wf(),
            d < self.items@.len(),
            s.is_some() ==> s.unwrap() < self.items@.len(),
        ensures
            r@ == event_of(
                self.entries(),
                Step {
                    destination: d as int,
                    source: match s {
                        Some(j) => Some((j as int, kind)),
                        None => None,
                    },
                },
            ),
    {
        let destination = Destination {
            change: self.items[d].change,
            location: self.location_of(d),
        };
        let source = match s {
            Some(j) => {
                let (id, mode) = self.items[j].change.oid_and_mode();
                Some(Source { mode, id, kind, location: self.location_of(j) })
            },
            None => None,
        };
        Event { destination, source }
    }

    /// One pass over the additions that were not emitted yet, in the order of
    /// pushing: each one for which a source is found is emitted as a rewrite.
    fn find_rewrites<S: ObjectSource>(
        &mut self,
        order: &Vec<usize>,
        kind: Kind,
        percentage: Option<Percentage>,
        compare: bool,
        out: &mut Vec<Event>,
        source: &mut S,
        algorithm: Algorithm,
        Ghost(origin): Ghost<Seq<Entry>>,
        Ghost(base): Ghost<Seq<EventModel>>,
        Ghost(prior): Ghost<Seq<Step>>,
    ) -> (r: (Result<(), Error>, Ghost<Progress>))
        requires
            old(source).valid(),
            old(self).wf(),
            is_order(order@, old(self).items@),
            same_changes(origin, old(self).entries()),
            models(old(out)@) == base + events_of(origin, prior),
        ensures
            final(self).wf(),
            final(self).settings() == old(self).settings(),
            is_order(order@, final(self).items@),
            final(source).valid(),
            final(source).objects() == old(source).objects(),
            r.1@ == pass_upto(
                Progress { entries: old(self).entries(), steps: prior, error: None },
                old(self).entries().len() as int,
                kind,
                percentage,
                compare,
                old(source).objects(),
                algorithm,
            ),
            final(self).entries() == r.1@.entries,
            same_changes(origin, final(self).entries()),
            models(final(out)@) == base + events_of(origin, r.1@.steps),
            r.0 == (match r.1@.error {
                Some(e) => Err::<(), Error>(e),
                None => Ok::<(), Error>(()),
            }),
    {
        let ghost start = Progress { entries: self.entries(), steps: prior, error: None };
        let ghost objects = source.objects();
        let ghost mut steps = prior;
        let n = self.items.len();
        let mut d: usize = 0;
        while d < n
            invariant
                self.wf(),
                self.settings() == old(self).settings(),
                n == self.items@.len(),
                n == start.entries.len(),
                start == (Progress { entries: old(self).entries(), steps: prior, error: None }),
                d <= n,
                is_order(order@, self.items@),
                source.valid(),
                source.objects() == objects,
                objects == old(source).objects(),
                same_changes(origin, self.entries()),
                models(out@) == base + events_of(origin, steps),
                pass_upto(start, d as int, kind, percentage, compare, objects, algorithm) == (
                Progress { entries: self.entries(), steps, error: None }),
            decreases n - d,
        {
            let ghost prev = Progress { entries: self.entries(), steps, error: None };
            assert(pass_upto(start, d as int + 1, kind, percentage, compare, objects, algorithm)
                == pass_step(prev, d as int, kind, percentage, compare, objects, algorithm));
            assert(prev.entries[d as int].emitted == self.items@[d as int].emitted);
            assert(prev.entries[d as int].change == self.items@[d as int].change);
            if !self.items[d].emitted && self.items[d].change.is_addition() {
                let ghost planned = match_of(
                    prev.entries,
                    d as int,
                    percentage,
                    kind,
                    compare,
                    objects,
                    algorithm,
                );
                match self.find_match(order, d, percentage, kind, compare, source, algorithm) {
                    Err(e) => {
                        let ghost failed = Progress {
                            entries: self.entries(),
                            steps,
                            error: Some(e),
                        };
                        proof {
                            assert(planned == Err::<Option<int>, Error>(e));
                            assert(pass_step(
                                prev,
                                d as int,
                                kind,
                                percentage,
                                compare,
                                objects,
                                algorithm,
                            ) == failed);
                            lemma_pass_stops(
                                start,
                                d as int + 1,
                                n as int,
                                kind,
                                percentage,
                                compare,
                                objects,
                                algorithm,
                            );
                        }
                        return (Err(e), Ghost(failed));
                    },
                    Ok(None) => {},
                    Ok(Some(s)) => {
                        let event = self.event_for(d, Some(s), kind);
                        let ghost step = Step { destination: d as int, source: Some((s as int, kind)) };
                        proof {
                            assert(event@ == event_of(origin, step));
                            assert(models(out@.push(event)) =~= models(out@).push(event@));
                            assert(events_of(origin, steps.push(step)) =~= events_of(
                                origin,
                                steps,
                            ).push(event_of(origin, step)));
                            assert((base + events_of(origin, steps)).push(event@) =~= base
                                + events_of(origin, steps.push(step)));
                            steps = steps.push(step);
                        }
                        out.push(event);
                        self.mark_emitted(d);
                        match kind {
                            Kind::RenameTarget => {
                                self.mark_emitted(s);
                            },
                            Kind::Copy => {},
                        }
                    },
                }
            }
            d += 1;
        }
        (Ok(()), Ghost(Progress { entries: self.entries(), steps, error: None }))
    }

    /// Hands out every item that was not emitted yet, as it is and in the order
    /// of pushing.
    fn drain(
        &mut self,
        out: &mut Vec<Event>,
        Ghost(origin): Ghost<Seq<Entry>>,
        Ghost(base): Ghost<Seq<EventModel>>,
        Ghost(prior): Ghost<Seq<Step>>,
    ) -> (r: Ghost<Progress>)
        requires
            old(self).wf(),
            same_changes(origin, old(self).entries()),
            models(old(out)@) == base + events_of(origin, prior),
        ensures
            final(self).wf(),
            final(self).settings() == old(self).settings(),
            r@ == drain_upto(
                Progress { entries: old(self).entries(), steps: prior, error: None },
                old(self).entries().len() as int,
            ),
            final(self).entries() == r@.entries,
            r@.error.is_none(),
            models(final(out)@) == base + events_of(origin, r@.steps),
    {
        let ghost start = Progress { entries: self.entries(), steps: prior, error: None };
        let ghost mut steps = prior;
        let n = self.items.len();
        let mut i: usize = 0;
        while i < n
            invariant
                self.wf(),
                self.settings() == old(self).settings(),
                n == self.items@.len(),
                i <= n,
                same_changes(origin, self.entries()),
                models(out@) == base + events_of(origin, steps),
                drain_upto(start, i as int) == (Progress {
                    entries: self.entries(),
                    steps,
                    error: None,
                }),
            decreases n - i,
        {
            if !self.items[i].emitted {
                let event = self.event_for(i, None, Kind::RenameTarget);
                let ghost step = Step { destination: i as int, source: None };
                proof {
                    assert(event@ == event_of(origin, step));
                    assert(models(out@.push(event)) =~= models(out@).push(event@));
                    assert(events_of(origin, steps.push(step)) =~= events_of(origin, steps).push(
                        event_of(origin, step),
                    ));
                    assert((base + events_of(origin, steps)).push(event@) =~= base + events_of(
                        origin,
                        steps.push(step),
                    ));
                    steps = steps.push(step);
                }
                out.push(event);
                self.mark_emitted(i);
            }
            i += 1;
        }
        Ghost(Progress { entries: self.entries(), steps, error: None })
    }

    /// Emits what was collected, appending to `out`: first the renames, then
    /// the copies if the settings ask for them, each as a destination with its
    /// source, and then whatever is left, as it is. On success nothing is left
    /// in the tracker. On failure `out` holds what was emitted before it, and
    /// the tracker keeps every item, with those marked that were emitted.
    pub fn emit<S: ObjectSource>(
        &mut self,
        out: &mut Vec<Event>,
        source: &mut S,
        algorithm: Algorithm,
    ) -> (r: Result<(), Error>)
        requires
            old(source).valid(),
            old(self).wf(),
        ensures
            final(self).wf(),
            final(self).settings() == old(self).settings(),
            final(source).valid(),
            final(source).objects() == old(source).objects(),
            ({
                let plan = emit_plan(
                    old(self).entries(),
                    old(self).settings(),
                    old(source).objects(),
                    algorithm,
                );
                &&& models(final(out)@) == models(old(out)@) + events_of(
                    old(self).entries(),
                    plan.steps,
                )
                &&& match plan.error {
                    Some(e) => r == Err::<(), Error>(e) && final(self).entries() == plan.entries,
                    None => r == Ok::<(), Error>(()) && final(self).entries() == Seq::<
                        Entry,
                    >::empty(),
                }
            }),
    {
        let ghost origin = self.entries();
        let ghost base = models(out@);
        let ghost objects = source.objects();
        let order = ranked(&self.items);
        let compare = self.compares_within_limit();
        proof {
            assert(events_of(origin, Seq::<Step>::empty()) =~= Seq::<EventModel>::empty());
            assert(base + Seq::<EventModel>::empty() =~= base);
        }
        let percentage = self.rewrites.percentage;
        let (renamed, Ghost(after_renames)) = self.find_rewrites(
            &order,
            Kind::RenameTarget,
            percentage,
            compare,
            out,
            source,
            algorithm,
            Ghost(origin),
            Ghost(base),
            Ghost(Seq::empty()),
        );
        match renamed {
            Err(e) => {
                proof {
                    lemma_pass_stops(
                        after_renames,
                        0,
                        origin.len() as int,
                        Kind::Copy,
                        self.rewrites.spec_copy_percentage(),
                        compare,
                        objects,
                        algorithm,
                    );
                }
                return Err(e);
            },
            Ok(()) => {},
        }
        let ghost mut after_copies = after_renames;
        match self.rewrites.copies {
            Some(_) => {
                let copy_percentage = self.rewrites.copy_percentage();
                let (copied, Ghost(progress)) = self.find_rewrites(
                    &order,
                    Kind::Copy,
                    copy_percentage,
                    compare,
                    out,
                    source,
                    algorithm,
                    Ghost(origin),
                    Ghost(base),
                    Ghost(after_renames.steps),
                );
                proof {
                    after_copies = progress;
                }
                match copied {
                    Err(e) => {
                        return Err(e);
                    },
                    Ok(()) => {},
                }
            },
            None => {},
        }
        let Ghost(drained) = self.drain(out, Ghost(origin), Ghost(base), Ghost(after_copies.steps));
        self.items.clear();
        self.path_backing.clear();
        proof {
            assert(self.entries() =~= Seq::<Entry>::empty());
        }
        Ok(())
    }

    /// Emits what was collected as someone sees it who cancels at the emission
    /// with the number `cancel_at`, counting from one. Cancelling is no
    /// failure: the emissions up to that one are appended to `out`, whatever
    /// would have come after them, and nothing is left in the tracker. With
    /// fewer emissions, or with zero for `cancel_at`, it is `emit`.
    pub fn emit_until<S: ObjectSource>(
        &mut self,
        out: &mut Vec<Event>,
        source: &mut S,
        algorithm: Algorithm,
        cancel_at: usize,
    ) -> (r: Result<(), Error>)
        requires
            old(source).valid(),
            old(self).wf(),
        ensures
            final(self).wf(),
            final(self).settings() == old(self).settings(),
            final(source).valid(),
            final(source).objects() == old(source).objects(),
            ({
                let plan = emit_plan(
                    old(self).entries(),
                    old(self).settings(),
                    old(source).objects(),
                    algorithm,
                );
                &&& models(final(out)@) == models(old(out)@) + events_of(
                    old(self).entries(),
                    seen_steps(plan, cancel_at),
                )
                &&& is_cancelled(plan, cancel_at) ==> r == Ok::<(), Error>(())
                    && final(self).entries() == Seq::<Entry>::empty()
                &&& !is_cancelled(plan, cancel_at) ==> match plan.error {
                    Some(e) => r == Err::<(), Error>(e) && final(self).entries() == plan.entries,
                    None => r == Ok::<(), Error>(()) && final(self).entries() == Seq::<
                        Entry,
                    >::empty(),
                }
            }),
    {
        let ghost origin = self.entries();
        let ghost plan = emit_plan(origin, self.settings(), source.objects(), algorithm);
        let ghost before = out@;
        let mut emitted: Vec<Event> = Vec::new();
        let outcome = self.emit(&mut emitted, source, algorithm);
        proof {
            assert(models(emitted@) =~= events_of(origin, plan.steps)) by {
                assert(models(Seq::<Event>::empty()) =~= Seq::<EventModel>::empty());
                assert(Seq::<EventModel>::empty() + events_of(origin, plan.steps) =~= events_of(
                    origin,
                    plan.steps,
                ));
            }
        }
        let ghost all = emitted@;
        proof {
            assert(models(all).len() == events_of(origin, plan.steps).len());
            assert(all.len() == plan.steps.len());
        }
        let cancelled = 0 < cancel_at && cancel_at <= emitted.len();
        if cancelled {
            emitted.truncate(cancel_at);
            self.items.clear();
            self.path_backing.clear();
        }
        proof {
            if cancelled {
                assert(emitted@ == all.subrange(0, cancel_at as int));
                assert forall|i: int| 0 <= i < cancel_at implies models(emitted@)[i] == events_of(
                    origin,
                    plan.steps.subrange(0, cancel_at as int),
                )[i] by {
                    assert(models(all)[i] == events_of(origin, plan.steps)[i]);
                }
            }
            assert(models(emitted@) =~= events_of(origin, seen_steps(plan, cancel_at)));
            assert(models(before + emitted@) =~= models(before) + models(emitted@));
            if cancelled {
                assert(self.entries() =~= Seq::<Entry>::empty());
            }
        }
        out.append(&mut emitted);
        if cancelled {
            Ok(())
        } else {
            outcome
        }
    }
}

} // verus!
