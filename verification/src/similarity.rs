//! How alike two blobs are, by the lines they share.
use vstd::prelude::*;
use crate::rewrites::Percentage;

verus! {

/// The line diff algorithm to run. It is handed on unchanged.
#[derive(Clone, Copy, Debug, PartialEq, Eq, Hash)]
pub enum Algorithm {
    Histogram,
    Myers,
    MyersMinimal,
}

/// What a line diff of two blobs counts.
#[derive(Clone, Copy, Debug, PartialEq, Eq, Hash)]
pub struct LineCounts {
    /// The number of lines of the blob before.
    pub before: usize,
    /// The number of lines of the blob after.
    pub after: usize,
    /// The number of lines of the blob before that the diff removes.
    pub removals: u32,
    /// The number of lines of the blob after that the diff inserts.
    pub insertions: u32,
}

/// Blobs of this many lines or more are not diffed.
pub const MAX_DIFFABLE_LINES: usize = 0x7fff_ffff;

/// The line feed, which ends a line.
pub const LINE_FEED: u8 = 0x0a;

/// The number of line feeds among the first `upto` bytes of `data`.
pub open spec fn line_feeds(data: Seq<u8>, upto: int) -> nat
    decreases upto,
{
    if upto <= 0 {
        0
    } else {
        line_feeds(data, upto - 1) + (if data[upto - 1] == LINE_FEED {
            1nat
        } else {
            0nat
        })
    }
}

/// The number of lines of `data`: every line feed ends one, and what follows
/// the last line feed is a line too, unless nothing follows.
pub open spec fn lines_of(data: Seq<u8>) -> nat {
    line_feeds(data, data.len() as int) + (if data.len() > 0 && data[data.len() - 1] != LINE_FEED {
        1nat
    } else {
        0nat
    })
}

/// The number of lines of `data`: see `lines_of`.
pub fn count_lines_of(data: &[u8]) -> (r: usize)
    ensures
        r == lines_of(data@),
        r <= data@.len(),
{
    let mut feeds: usize = 0;
    let mut i: usize = 0;
    while i < data.len()
        invariant
            i <= data@.len(),
            feeds == line_feeds(data@, i as int),
            feeds <= i,
            i > 0 && data@[i - 1] != LINE_FEED ==> feeds < i,
        decreases data@.len() - i,
    {
        if data[i] == LINE_FEED {
            feeds += 1;
        }
        i += 1;
    }
    if data.len() > 0 && data[data.len() - 1] != LINE_FEED {
        feeds + 1
    } else {
        feeds
    }
}

/// The counts of the line diff that turns `before` into `after` under `algorithm`.
pub uninterp spec fn line_counts(before: Seq<u8>, after: Seq<u8>, algorithm: Algorithm) -> LineCounts;

/// Runs `gix_diff::blob::diff` on the lines of the two blobs, which
/// `gix_diff::blob::sources::byte_lines_with_terminator` cuts, and counts with
/// `gix_diff::blob::sink::Counter`. The differ refuses inputs of `i32::MAX`
/// lines or more. Of the removals and insertions nothing is claimed but that
/// they depend on the two blobs and the algorithm alone; the numbers of lines
/// are those of the two blobs.
#[verifier::external_body]
fn diff_lines(before: &[u8], after: &[u8], algorithm: Algorithm) -> (r: LineCounts)
    requires
        lines_of(before@) < MAX_DIFFABLE_LINES,
        lines_of(after@) < MAX_DIFFABLE_LINES,
    ensures
        r == line_counts(before@, after@, algorithm),
        r.before == lines_of(before@),
        r.after == lines_of(after@),
{
    let input = gix_diff::blob::intern::InternedInput::new(
        gix_diff::blob::sources::byte_lines_with_terminator(before),
        gix_diff::blob::sources::byte_lines_with_terminator(after),
    );
    let algorithm = match algorithm {
        Algorithm::Histogram => gix_diff::blob::Algorithm::Histogram,
        Algorithm::Myers => gix_diff::blob::Algorithm::Myers,
        Algorithm::MyersMinimal => gix_diff::blob::Algorithm::MyersMinimal,
    };
    let counts = gix_diff::blob::diff(algorithm, &input, gix_diff::blob::sink::Counter::default());
    LineCounts { before: input.before.len(), after: input.after.len(), removals: counts.removals, insertions: counts.insertions }
}

/// Whether both blobs have few enough lines to be diffed.
pub open spec fn diffable(before: Seq<u8>, after: Seq<u8>) -> bool {
    lines_of(before) < MAX_DIFFABLE_LINES && lines_of(after) < MAX_DIFFABLE_LINES
}

/// The counts of the line diff between two blobs, or `None` when one of them
/// has too many lines to be diffed.
pub fn count_lines(before: &[u8], after: &[u8], algorithm: Algorithm) -> (r: Option<LineCounts>)
    ensures
        r.is_some() <==> diffable(before@, after@),
        r.is_some() ==> r.unwrap() == line_counts(before@, after@, algorithm) && r.unwrap().before
            == lines_of(before@) && r.unwrap().after == lines_of(after@),
{
    if count_lines_of(before) < MAX_DIFFABLE_LINES && count_lines_of(after) < MAX_DIFFABLE_LINES {
        Some(diff_lines(before, after, algorithm))
    } else {
        None
    }
}

/// Whether the similarity that `counts` stand for reaches `percentage`. The
/// similarity is the share of lines that survive, measured against the longer
/// of the two blobs: `(before - removals) / max(before, after)`.
pub open spec fn similar_enough(counts: LineCounts, percentage: Percentage) -> bool {
    let longest = if counts.before >= counts.after {
        counts.before as int
    } else {
        counts.after as int
    };
    percentage.met_by(counts.before - counts.removals, longest)
}

/// Whether the similarity that `counts` stand for reaches `percentage`.
pub fn reaches(counts: &LineCounts, percentage: &Percentage) -> (r: bool)
    ensures
        r == similar_enough(*counts, *percentage),
{
    let longest: usize = if counts.before >= counts.after {
        counts.before
    } else {
        counts.after
    };
    if longest == 0 {
        return false;
    }
    let removals: usize = counts.removals as usize;
    if removals > counts.before {
        return false;
    }
    let kept: usize = counts.before - removals;
    assert(kept * percentage.denominator <= u128::MAX) by (nonlinear_arith)
        requires
            0 <= kept <= u64::MAX,
            0 <= percentage.denominator <= u64::MAX,
    ;
    assert(percentage.numerator * longest <= u128::MAX) by (nonlinear_arith)
        requires
            0 <= longest <= u64::MAX,
            0 <= percentage.numerator <= u64::MAX,
    ;
    let left: u128 = (kept as u128) * (percentage.denominator as u128);
    let right: u128 = (percentage.numerator as u128) * (longest as u128);
    left >= right
}

} // verus!
