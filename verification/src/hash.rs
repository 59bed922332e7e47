//! Object identifiers: fixed-width content hashes, ordered byte by byte.
use vstd::prelude::*;

verus! {

/// The number of bytes in an object identifier.
pub const ID_LEN: usize = 20;

/// A content hash naming one object. Two identifiers are the same object exactly
/// when their bytes agree; they are ordered lexicographically by their bytes.
#[derive(Clone, Copy, Debug, PartialEq, Eq, PartialOrd, Ord, Hash)]
pub struct ObjectId {
    pub bytes: [u8; 20],
}

impl View for ObjectId {
    type V = Seq<u8>;

    open spec fn view(&self) -> Seq<u8> {
        self.bytes@
    }
}

/// Three-way lexicographic comparison of `a` and `b` from position `i` on:
/// negative when `a` sorts first, zero when they agree, positive when `b` sorts first.
/// A proper prefix sorts before the longer sequence.
pub open spec fn lex_from(a: Seq<u8>, b: Seq<u8>, i: int) -> int
    decreases a.len() - i,
{
    if i < 0 {
        0
    } else if i >= a.len() && i >= b.len() {
        0
    } else if i >= a.len() {
        -1
    } else if i >= b.len() {
        1
    } else if a[i] < b[i] {
        -1
    } else if a[i] > b[i] {
        1
    } else {
        lex_from(a, b, i + 1)
    }
}

/// Three-way lexicographic comparison of two byte sequences.
pub open spec fn lex(a: Seq<u8>, b: Seq<u8>) -> int {
    lex_from(a, b, 0)
}

/// `a` sorts before `b` or equals it.
pub open spec fn lex_le(a: Seq<u8>, b: Seq<u8>) -> bool {
    lex(a, b) <= 0
}

/// From a position up to which the two sequences agree, the comparison is
/// zero exactly when the rest agrees too.
pub proof fn lemma_lex_from_zero(a: Seq<u8>, b: Seq<u8>, i: int)
    requires
        0 <= i,
        i <= a.len(),
        i <= b.len(),
        forall|k: int| 0 <= k < i ==> a[k] == b[k],
    ensures
        lex_from(a, b, i) == 0 <==> a =~= b,
        -1 <= lex_from(a, b, i) <= 1,
    decreases a.len() - i,
{
    if i >= a.len() && i >= b.len() {
    } else if i >= a.len() {
    } else if i >= b.len() {
    } else if a[i] != b[i] {
    } else {
        lemma_lex_from_zero(a, b, i + 1);
    }
}

/// Two sequences compare as equal exactly when they are equal.
pub proof fn lemma_lex_zero(a: Seq<u8>, b: Seq<u8>)
    ensures
        lex(a, b) == 0 <==> a =~= b,
        -1 <= lex(a, b) <= 1,
{
    lemma_lex_from_zero(a, b, 0);
}

/// Swapping the arguments negates the comparison.
pub proof fn lemma_lex_from_flip(a: Seq<u8>, b: Seq<u8>, i: int)
    requires
        0 <= i,
    ensures
        lex_from(b, a, i) == -lex_from(a, b, i),
    decreases a.len() - i,
{
    if i < a.len() && i < b.len() && a[i] == b[i] {
        lemma_lex_from_flip(a, b, i + 1);
    }
}

/// Swapping the arguments negates the comparison.
pub proof fn lemma_lex_flip(a: Seq<u8>, b: Seq<u8>)
    ensures
        lex(b, a) == -lex(a, b),
{
    lemma_lex_from_flip(a, b, 0);
}

/// The order is transitive: what sorts no later than `b`, which sorts no later
/// than `c`, sorts no later than `c`.
pub proof fn lemma_lex_from_trans(a: Seq<u8>, b: Seq<u8>, c: Seq<u8>, i: int)
    requires
        0 <= i,
        lex_from(a, b, i) <= 0,
        lex_from(b, c, i) <= 0,
    ensures
        lex_from(a, c, i) <= 0,
        lex_from(a, b, i) < 0 || lex_from(b, c, i) < 0 ==> lex_from(a, c, i) < 0,
    decreases a.len() - i,
{
    if i < a.len() && i < b.len() && i < c.len() && a[i] == b[i] && b[i] == c[i] {
        lemma_lex_from_trans(a, b, c, i + 1);
    }
}

/// Three-way comparison of two byte slices: -1, 0 or 1 as `lex` says.
pub fn compare_bytes(a: &[u8], b: &[u8]) -> (r: i8)
    ensures
        r as int == lex(a@, b@),
        -1 <= r <= 1,
{
    let mut i: usize = 0;
    while i < a.len() && i < b.len()
        invariant
            i <= a.len(),
            i <= b.len(),
            lex(a@, b@) == lex_from(a@, b@, i as int),
        decreases a.len() - i,
    {
        if a[i] < b[i] {
            return -1;
        }
        if a[i] > b[i] {
            return 1;
        }
        i += 1;
    }
    if i >= a.len() && i >= b.len() {
        0
    } else if i >= a.len() {
        -1
    } else {
        1
    }
}

impl ObjectId {
    /// The identifier made of the given bytes, if there are exactly twenty of them.
    pub fn from_bytes(bytes: &[u8]) -> (r: Option<ObjectId>)
        ensures
            r.is_some() <==> bytes@.len() == ID_LEN,
            r.is_some() ==> r.unwrap()@ == bytes@,
    {
        if bytes.len() != ID_LEN {
            return None;
        }
        let mut out: [u8; 20] = [0u8; 20];
        let mut i: usize = 0;
        while i < ID_LEN
            invariant
                i <= ID_LEN,
                bytes@.len() == ID_LEN,
                forall|k: int| 0 <= k < i ==> out@[k] == bytes@[k],
            decreases ID_LEN - i,
        {
            out[i] = bytes[i];
            i += 1;
        }
        let id = ObjectId { bytes: out };
        assert(id@ =~= bytes@);
        Some(id)
    }

    /// The bytes of the identifier, copied out.
    pub fn to_vec(&self) -> (r: Vec<u8>)
        ensures
            r@ == self@,
    {
        let mut out: Vec<u8> = Vec::new();
        let mut i: usize = 0;
        while i < ID_LEN
            invariant
                i <= ID_LEN,
                out@.len() == i,
                forall|k: int| 0 <= k < i ==> out@[k] == self@[k],
            decreases ID_LEN - i,
        {
            out.push(self.bytes[i]);
            i += 1;
        }
        assert(out@ =~= self@);
        out
    }

    /// Three-way comparison with `other`: -1, 0 or 1.
    pub fn compare(&self, other: &ObjectId) -> (r: i8)
        ensures
            r as int == lex(self@, other@),
            -1 <= r <= 1,
            r == 0 <==> *self == *other,
    {
        let r = compare_bytes(self.bytes.as_slice(), other.bytes.as_slice());
        proof {
            lemma_lex_zero(self@, other@);
            lemma_same_bytes(*self, *other);
        }
        r
    }

    /// Whether the two identifiers name the same object.
    pub fn same(&self, other: &ObjectId) -> (r: bool)
        ensures
            r == (*self == *other),
            r == (self@ == other@),
    {
        let c = self.compare(other);
        proof {
            lemma_lex_zero(self@, other@);
        }
        c == 0
    }
}

/// Identifiers with the same bytes are the same identifier.
pub proof fn lemma_same_bytes(a: ObjectId, b: ObjectId)
    ensures
        (a@ =~= b@) <==> a == b,
{
    if a@ =~= b@ {
        assert(a.bytes@ =~= b.bytes@);
        assert(a.bytes == b.bytes);
    }
}

} // verus!
