//! Searching bytes.
use vstd::prelude::*;

verus! {

/// The position of the first `b` in `s` at or after `from`, or the length of
/// `s` if there is none.
pub open spec fn first_at(s: Seq<u8>, b: u8, from: int) -> int
    decreases s.len() - from,
{
    if from < 0 || from >= s.len() {
        s.len() as int
    } else if s[from] == b {
        from
    } else {
        first_at(s, b, from + 1)
    }
}

/// The position of the first `b` in `s` at or after `from`, or the length of
/// `s` if there is none.
pub fn find_byte(s: &[u8], b: u8, from: usize) -> (r: usize)
    ensures
        r == first_at(s@, b, from as int),
        r <= s@.len(),
        from <= s@.len() ==> from <= r,
        r < s@.len() ==> s@[r as int] == b,
{
    let mut i = from;
    while i < s.len()
        invariant
            first_at(s@, b, from as int) == first_at(s@, b, i as int),
            from <= i,
        decreases s@.len() - i,
    {
        if s[i] == b {
            return i;
        }
        i += 1;
    }
    s.len()
}

} // verus!
