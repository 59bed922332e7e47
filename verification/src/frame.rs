//! The framing of tree objects: what their bytes have to look like before a
//! walk may read them.
use vstd::prelude::*;
use crate::bytes::find_byte;
use crate::bytes::first_at;

verus! {

/// The space that ends the mode of an entry.
pub const SPACE: u8 = 0x20;

/// The zero byte that ends the name of an entry.
pub const NUL: u8 = 0;

/// The number of bytes that an entry takes after its name: the zero byte and
/// the identifier.
pub const AFTER_NAME: usize = 21;

/// Whether `b` is one of the digits `0` to `7`.
pub open spec fn is_octal(b: u8) -> bool {
    0x30 <= b && b <= 0x37
}

/// Whether the bytes of `data` from `from` up to `to` are digits `0` to `7`.
pub open spec fn all_octal(data: Seq<u8>, from: int, to: int) -> bool {
    forall|k: int| from <= k < to ==> is_octal(#[trigger] data[k])
}

/// The number that the digits of `data` from `from` up to `to` spell in base
/// eight, of which 32 bits are kept at each digit.
pub open spec fn mode_value(data: Seq<u8>, from: int, to: int) -> int
    decreases to - from,
{
    if to <= from {
        0
    } else {
        (mode_value(data, from, to - 1) * 8) % 0x1_0000_0000 + (data[to - 1] - 0x30)
    }
}

/// Whether `mode` is a mode that entries of trees have: a tree, a file
/// (also as `100664` and `100640`), an executable, a link or a commit.
pub open spec fn spec_is_known_mode(mode: int) -> bool {
    mode == 0o040000 || mode == 0o100644 || mode == 0o100755 || mode == 0o120000 || mode
        == 0o160000 || mode == 0o100664 || mode == 0o100640
}

/// Whether `mode` is a mode that entries of trees have.
pub fn is_known_mode(mode: u64) -> (r: bool)
    ensures
        r == spec_is_known_mode(mode as int),
{
    mode == 0o040000 || mode == 0o100644 || mode == 0o100755 || mode == 0o120000 || mode
        == 0o160000 || mode == 0o100664 || mode == 0o100640
}

/// Where the entry that starts at `at` ends, if there is a whole entry: a
/// known mode in digits `0` to `7`, a space, a name, a zero byte, and twenty
/// bytes of identifier.
pub open spec fn entry_end(data: Seq<u8>, at: int) -> Option<int> {
    let space = first_at(data, SPACE, at);
    let nul = first_at(data, NUL, space + 1);
    if space < data.len() && all_octal(data, at, space) && spec_is_known_mode(
        mode_value(data, at, space),
    ) && nul < data.len() && nul + AFTER_NAME <= data.len() {
        Some(nul + AFTER_NAME)
    } else {
        None
    }
}

/// Whether `data` from `at` on is whole entries, one after the other, and nothing else.
pub open spec fn framed_from(data: Seq<u8>, at: int) -> bool
    decreases data.len() - at,
{
    if at < 0 {
        false
    } else if at >= data.len() {
        true
    } else {
        match entry_end(data, at) {
            Some(end) => end > at && framed_from(data, end),
            None => false,
        }
    }
}

/// Whether `data` is the bytes of a tree: whole entries and nothing else.
pub open spec fn framed(data: Seq<u8>) -> bool {
    framed_from(data, 0)
}

/// Whether `data` is the bytes of a tree: see `framed`.
pub fn is_framed(data: &[u8]) -> (r: bool)
    ensures
        r == framed(data@),
{
    let mut at: usize = 0;
    while at < data.len()
        invariant
            at <= data@.len(),
            framed(data@) == framed_from(data@, at as int),
        decreases data@.len() - at,
    {
        let space = find_byte(data, SPACE, at);
        if space >= data.len() {
            return false;
        }
        let mut mode: u64 = 0;
        let mut k = at;
        while k < space
            invariant
                at <= k <= space < data@.len(),
                space == first_at(data@, SPACE, at as int),
                framed(data@) == framed_from(data@, at as int),
                all_octal(data@, at as int, k as int),
                mode == mode_value(data@, at as int, k as int),
                mode < 0x2_0000_0000,
            decreases space - k,
        {
            let b = data[k];
            if b < 0x30 || b > 0x37 {
                assert(!is_octal(data@[k as int]));
                return false;
            }
            mode = (mode * 8) % 0x1_0000_0000 + (b - 0x30) as u64;
            k += 1;
        }
        if !is_known_mode(mode) {
            return false;
        }
        let nul = find_byte(data, NUL, space + 1);
        if nul >= data.len() || data.len() - nul < AFTER_NAME {
            return false;
        }
        at = nul + AFTER_NAME;
    }
    true
}

} // verus!
