//! Parsing of pathspecs: an optional signature of magic keywords, then a path.
use vstd::prelude::*;
use vstd::slice::slice_subrange;
use crate::bytes::find_byte;
use crate::bytes::first_at;

verus! {

/// `/`
pub const SLASH: u8 = 0x2f;
/// `^`
pub const CARET: u8 = 0x5e;
/// `!`
pub const BANG: u8 = 0x21;
/// `:`
pub const COLON: u8 = 0x3a;
/// `\`
pub const BACKSLASH: u8 = 0x5c;
/// `(`
pub const OPEN: u8 = 0x28;
/// `)`
pub const CLOSE: u8 = 0x29;
/// `,`
pub const COMMA: u8 = 0x2c;
/// `=`
pub const EQUALS: u8 = 0x3d;
/// ` `
pub const SPACE: u8 = 0x20;

/// The magic keywords that a pathspec can carry.
#[derive(Clone, Copy, Debug, PartialEq, Eq, Hash)]
pub struct MagicSignature {
    /// Match from the top of the repository.
    pub top: bool,
    /// Match without regard to case.
    pub icase: bool,
    /// Exclude what matches.
    pub exclude: bool,
}

impl MagicSignature {
    /// The signature without any keyword.
    pub open spec fn spec_empty() -> MagicSignature {
        MagicSignature { top: false, icase: false, exclude: false }
    }

    /// The signature without any keyword.
    #[verifier::when_used_as_spec(spec_empty)]
    pub fn empty() -> (r: MagicSignature)
        ensures
            r == Self::spec_empty(),
    {
        MagicSignature { top: false, icase: false, exclude: false }
    }

    /// The keywords of both signatures.
    pub open spec fn spec_union(self, other: MagicSignature) -> MagicSignature {
        MagicSignature {
            top: self.top || other.top,
            icase: self.icase || other.icase,
            exclude: self.exclude || other.exclude,
        }
    }

    /// The keywords of both signatures.
    #[verifier::when_used_as_spec(spec_union)]
    pub fn union(self, other: MagicSignature) -> (r: MagicSignature)
        ensures
            r == self.spec_union(other),
    {
        MagicSignature {
            top: self.top || other.top,
            icase: self.icase || other.icase,
            exclude: self.exclude || other.exclude,
        }
    }

    /// Whether no keyword is set.
    pub fn is_empty(&self) -> (r: bool)
        ensures
            r == (*self == Self::spec_empty()),
    {
        !self.top && !self.icase && !self.exclude
    }
}

/// Why a pathspec could not be parsed.
#[derive(Clone, Debug, PartialEq, Eq)]
pub enum Error {
    EmptyString,
    InvalidKeyword { keyword: Vec<u8> },
    Unimplemented { short_keyword: char },
    MissingClosingParenthesis,
    InvalidAttribute { attribute: Vec<u8> },
    InvalidAttributeValue { character: char },
    TrailingEscapeCharacter,
    EmptyAttribute,
    MultipleAttributeSpecifications,
    IncompatibleSearchModes,
}

/// An error as contracts speak of it.
pub enum ErrorModel {
    EmptyString,
    InvalidKeyword { keyword: Seq<u8> },
    Unimplemented { short_keyword: char },
    MissingClosingParenthesis,
    InvalidAttribute { attribute: Seq<u8> },
    InvalidAttributeValue { character: char },
    TrailingEscapeCharacter,
    EmptyAttribute,
    MultipleAttributeSpecifications,
    IncompatibleSearchModes,
}

impl View for Error {
    type V = ErrorModel;

    open spec fn view(&self) -> ErrorModel {
        match *self {
            Error::EmptyString => ErrorModel::EmptyString,
            Error::InvalidKeyword { keyword } => ErrorModel::InvalidKeyword { keyword: keyword@ },
            Error::Unimplemented { short_keyword } => ErrorModel::Unimplemented { short_keyword },
            Error::MissingClosingParenthesis => ErrorModel::MissingClosingParenthesis,
            Error::InvalidAttribute { attribute } => ErrorModel::InvalidAttribute {
                attribute: attribute@,
            },
            Error::InvalidAttributeValue { character } => ErrorModel::InvalidAttributeValue {
                character,
            },
            Error::TrailingEscapeCharacter => ErrorModel::TrailingEscapeCharacter,
            Error::EmptyAttribute => ErrorModel::EmptyAttribute,
            Error::MultipleAttributeSpecifications => ErrorModel::MultipleAttributeSpecifications,
            Error::IncompatibleSearchModes => ErrorModel::IncompatibleSearchModes,
        }
    }
}

/// Whether `b` is a short keyword that is reserved but has no meaning yet.
pub open spec fn spec_is_reserved(b: u8) -> bool {
    b == 0x22 || b == 0x23 || b == 0x25 || b == 0x26 || b == 0x27 || b == 0x2c || b == 0x2d || b
        == 0x3b || b == 0x3c || b == 0x3d || b == 0x3e || b == 0x40 || b == 0x5f || b == 0x60 || b
        == 0x7e
}

/// Whether `b` is a short keyword that is reserved but has no meaning yet:
/// one of `"#%&',-;<=>@_` and the backtick and the tilde.
#[verifier::when_used_as_spec(spec_is_reserved)]
pub fn is_reserved(b: u8) -> (r: bool)
    ensures
        r == spec_is_reserved(b),
{
    b == 0x22 || b == 0x23 || b == 0x25 || b == 0x26 || b == 0x27 || b == 0x2c || b == 0x2d || b
        == 0x3b || b == 0x3c || b == 0x3d || b == 0x3e || b == 0x40 || b == 0x5f || b == 0x60 || b
        == 0x7e
}

/// Where a scan of short keywords ends, and with what.
pub struct ShortScan {
    pub cursor: int,
    pub result: Result<MagicSignature, ErrorModel>,
}

/// The scan of short keywords in `input` from `at` on, with `signature`
/// gathered so far. `/` stands for the top, `^` and `!` for exclusion. A `:`
/// ends the signature and is consumed; a reserved byte is consumed and is an
/// error; any other byte ends the signature where it stands.
pub open spec fn scan_short(input: Seq<u8>, at: int, signature: MagicSignature) -> ShortScan
    decreases input.len() - at,
{
    if at < 0 || at >= input.len() {
        ShortScan { cursor: at, result: Ok(signature) }
    } else {
        let b = input[at];
        if b == SLASH {
            scan_short(
                input,
                at + 1,
                signature.spec_union(MagicSignature { top: true, icase: false, exclude: false }),
            )
        } else if b == CARET || b == BANG {
            scan_short(
                input,
                at + 1,
                signature.spec_union(MagicSignature { top: false, icase: false, exclude: true }),
            )
        } else if b == COLON {
            ShortScan { cursor: at + 1, result: Ok(signature) }
        } else if spec_is_reserved(b) {
            ShortScan {
                cursor: at + 1,
                result: Err(ErrorModel::Unimplemented { short_keyword: b as char }),
            }
        } else {
            ShortScan { cursor: at, result: Ok(signature) }
        }
    }
}

/// Whether an executable result says what `planned` says.
pub open spec fn signature_is(r: Result<MagicSignature, Error>, planned: Result<
    MagicSignature,
    ErrorModel,
>) -> bool {
    match planned {
        Ok(signature) => r == Ok::<MagicSignature, Error>(signature),
        Err(e) => r.is_err() && r.unwrap_err()@ == e,
    }
}

/// Reads the short keywords of `input` that start at `cursor`, and moves
/// `cursor` past them.
pub fn parse_short_keywords(input: &[u8], cursor: &mut usize) -> (r: Result<MagicSignature, Error>)
    ensures
        *final(cursor) == scan_short(input@, *old(cursor) as int, MagicSignature::spec_empty()).cursor,
        signature_is(
            r,
            scan_short(input@, *old(cursor) as int, MagicSignature::spec_empty()).result,
        ),
        *old(cursor) <= *final(cursor),
        *old(cursor) <= input@.len() ==> *final(cursor) <= input@.len(),
{
    let mut signature = MagicSignature::empty();
    while *cursor < input.len()
        invariant
            *old(cursor) <= *cursor,
            *old(cursor) <= input@.len() ==> *cursor <= input@.len(),
            scan_short(input@, *old(cursor) as int, MagicSignature::spec_empty()) == scan_short(
                input@,
                *cursor as int,
                signature,
            ),
        decreases input@.len() - *cursor,
    {
        let b = input[*cursor];
        if b == SLASH {
            signature = signature.union(MagicSignature { top: true, icase: false, exclude: false });
        } else if b == CARET || b == BANG {
            signature = signature.union(MagicSignature { top: false, icase: false, exclude: true });
        } else if b == COLON {
            *cursor += 1;
            return Ok(signature);
        } else if is_reserved(b) {
            *cursor += 1;
            return Err(Error::Unimplemented { short_keyword: b as char });
        } else {
            return Ok(signature);
        }
        *cursor += 1;
    }
    Ok(signature)
}

/// Whether `input` is split at position `p`: the separator stands there, and
/// it is neither the first byte nor escaped by a backslash before it.
pub open spec fn splits_at(input: Seq<u8>, separator: u8, p: int) -> bool {
    1 <= p < input.len() && input[p] == separator && input[p - 1] != BACKSLASH
}

/// The pieces of `input` from `at` on, the current one having started at `last`.
pub open spec fn pieces_from(input: Seq<u8>, separator: u8, last: int, at: int) -> Seq<Seq<u8>>
    decreases input.len() - at,
{
    if at >= input.len() {
        seq![input.subrange(last, input.len() as int)]
    } else if splits_at(input, separator, at) {
        seq![input.subrange(last, at)] + pieces_from(input, separator, at + 1, at + 1)
    } else {
        pieces_from(input, separator, last, at + 1)
    }
}

/// The pieces that `input` falls into at each separator that is not escaped.
/// The separators themselves belong to no piece.
pub open spec fn pieces(input: Seq<u8>, separator: u8) -> Seq<Seq<u8>> {
    pieces_from(input, separator, 0, 0)
}

/// The contents of a sequence of slices, one for one.
pub open spec fn contents(slices: Seq<&[u8]>) -> Seq<Seq<u8>> {
    Seq::new(slices.len(), |i: int| slices[i]@)
}

/// Splits `input` at each `split_char` that no backslash stands before. A
/// `split_char` at the very start does not split.
pub fn split_on_non_escaped_char<'a>(input: &'a [u8], split_char: u8) -> (r: Vec<&'a [u8]>)
    ensures
        contents(r@) == pieces(input@, split_char),
{
    let mut keywords: Vec<&'a [u8]> = Vec::new();
    let mut last: usize = 0;
    let mut at: usize = 0;
    proof {
        assert(contents(keywords@) =~= Seq::<Seq<u8>>::empty());
    }
    while at < input.len()
        invariant
            last <= at <= input@.len(),
            contents(keywords@) + pieces_from(input@, split_char, last as int, at as int) == pieces(
                input@,
                split_char,
            ),
        decreases input@.len() - at,
    {
        if at >= 1 && input[at - 1] != BACKSLASH && input[at] == split_char {
            let piece = slice_subrange(input, last, at);
            proof {
                let rest = pieces_from(input@, split_char, at as int + 1, at as int + 1);
                assert(contents(keywords@.push(piece)) =~= contents(keywords@).push(piece@));
                assert(contents(keywords@).push(piece@) + rest =~= contents(keywords@) + (seq![
                    piece@,
                ] + rest));
            }
            keywords.push(piece);
            last = at + 1;
        }
        at += 1;
    }
    let piece = slice_subrange(input, last, input.len());
    proof {
        assert(contents(keywords@.push(piece)) =~= contents(keywords@).push(piece@));
        assert(contents(keywords@).push(piece@) =~= contents(keywords@) + seq![piece@]);
    }
    keywords.push(piece);
    keywords
}

/// How the path of a pathspec is matched.
#[derive(Clone, Copy, Debug, PartialEq, Eq, Hash)]
pub enum SearchMode {
    /// As a shell glob, the mode that applies unless a keyword says otherwise.
    ShellGlob,
    /// Byte for byte.
    Literal,
    /// As a glob in which `*` does not cross directories.
    PathAwareGlob,
}

/// The state that a pathspec asks of an attribute.
#[derive(Clone, Debug, PartialEq, Eq)]
pub enum State {
    IsSet,
    Unset,
    Value(Vec<u8>),
    Unspecified,
}

/// An attribute that a pathspec asks for, and the state it asks of it.
#[derive(Clone, Debug, PartialEq, Eq)]
pub struct Assignment {
    pub name: Vec<u8>,
    pub state: State,
}

/// A parsed pathspec.
#[derive(Clone, Debug, PartialEq, Eq)]
pub struct Pattern {
    /// The path part of the pathspec.
    pub path: Vec<u8>,
    /// All magic keywords that were given.
    pub signature: MagicSignature,
    /// How the path is matched.
    pub search_mode: SearchMode,
    /// The attributes that were given, in order.
    pub attributes: Vec<Assignment>,
}

/// A state as contracts speak of it.
pub enum StateModel {
    IsSet,
    Unset,
    Value(Seq<u8>),
    Unspecified,
}

/// An assignment as contracts speak of it.
pub struct AssignmentModel {
    pub name: Seq<u8>,
    pub state: StateModel,
}

/// A pattern as contracts speak of it.
pub struct PatternModel {
    pub path: Seq<u8>,
    pub signature: MagicSignature,
    pub search_mode: SearchMode,
    pub attributes: Seq<AssignmentModel>,
}

impl View for State {
    type V = StateModel;

    open spec fn view(&self) -> StateModel {
        match *self {
            State::IsSet => StateModel::IsSet,
            State::Unset => StateModel::Unset,
            State::Value(v) => StateModel::Value(v@),
            State::Unspecified => StateModel::Unspecified,
        }
    }
}

impl View for Assignment {
    type V = AssignmentModel;

    open spec fn view(&self) -> AssignmentModel {
        AssignmentModel { name: self.name@, state: self.state@ }
    }
}

/// The models of a sequence of assignments, one for one.
pub open spec fn assignment_models(list: Seq<Assignment>) -> Seq<AssignmentModel> {
    Seq::new(list.len(), |i: int| list[i]@)
}

impl View for Pattern {
    type V = PatternModel;

    open spec fn view(&self) -> PatternModel {
        PatternModel {
            path: self.path@,
            signature: self.signature,
            search_mode: self.search_mode,
            attributes: assignment_models(self.attributes@),
        }
    }
}

/// Whether `b` may stand in the value of an attribute: an ASCII letter or
/// digit, or one of `,-_`.
pub open spec fn spec_is_value_byte(b: u8) -> bool {
    (0x30 <= b <= 0x39) || (0x41 <= b <= 0x5a) || (0x61 <= b <= 0x7a) || b == 0x2c || b == 0x2d
        || b == 0x5f
}

/// Whether `b` may stand in the value of an attribute.
#[verifier::when_used_as_spec(spec_is_value_byte)]
pub fn is_value_byte(b: u8) -> (r: bool)
    ensures
        r == spec_is_value_byte(b),
{
    (0x30 <= b && b <= 0x39) || (0x41 <= b && b <= 0x5a) || (0x61 <= b && b <= 0x7a) || b == 0x2c
        || b == 0x2d || b == 0x5f
}

/// `bytes` in front of what `rest` holds, or the error of `rest`.
pub open spec fn after(bytes: Seq<u8>, rest: Result<Seq<u8>, ErrorModel>) -> Result<
    Seq<u8>,
    ErrorModel,
> {
    match rest {
        Ok(more) => Ok(bytes + more),
        Err(e) => Err(e),
    }
}

/// The value that starts at `i` in `attr`, without its escapes. A backslash
/// escapes the byte after it and may not stand last; every byte of the value,
/// escaped or not, has to be one that a value may hold.
pub open spec fn unescaped_value(attr: Seq<u8>, i: int) -> Result<Seq<u8>, ErrorModel>
    decreases attr.len() - i,
{
    if i < 0 || i >= attr.len() {
        Ok(Seq::empty())
    } else {
        let at = if attr[i] == BACKSLASH {
            i + 1
        } else {
            i
        };
        if at >= attr.len() {
            Err(ErrorModel::TrailingEscapeCharacter)
        } else if spec_is_value_byte(attr[at]) {
            after(seq![attr[at]], unescaped_value(attr, at + 1))
        } else {
            Err(ErrorModel::InvalidAttributeValue { character: attr[at] as char })
        }
    }
}

/// One attribute without the escapes of its value: what stands up to and with
/// the first `=` stays as it is, and so does an attribute without a value.
pub open spec fn unescaped_attribute(attr: Seq<u8>) -> Result<Seq<u8>, ErrorModel> {
    let eq = first_at(attr, EQUALS, 0);
    if eq < attr.len() {
        after(attr.subrange(0, eq + 1), unescaped_value(attr, eq + 1))
    } else {
        Ok(attr)
    }
}

/// The pieces of `input` between its bytes `b`, from `at` on, the current one
/// having started at `last`.
pub open spec fn fields_from(input: Seq<u8>, b: u8, last: int, at: int) -> Seq<Seq<u8>>
    decreases input.len() - at,
{
    if at >= input.len() {
        seq![input.subrange(last, input.len() as int)]
    } else if input[at] == b {
        seq![input.subrange(last, at)] + fields_from(input, b, at + 1, at + 1)
    } else {
        fields_from(input, b, last, at + 1)
    }
}

/// The pieces of `input` between its bytes `b`. There is one more piece than
/// there are such bytes, and pieces may be empty.
pub open spec fn fields(input: Seq<u8>, b: u8) -> Seq<Seq<u8>> {
    fields_from(input, b, 0, 0)
}

/// The first `upto` of `attrs` without their escapes, a space after each.
pub open spec fn unescaped_upto(attrs: Seq<Seq<u8>>, upto: int) -> Result<Seq<u8>, ErrorModel>
    decreases upto,
{
    if upto <= 0 {
        Ok(Seq::empty())
    } else {
        match unescaped_upto(attrs, upto - 1) {
            Err(e) => Err(e),
            Ok(before) => match unescaped_attribute(attrs[upto - 1]) {
                Err(e) => Err(e),
                Ok(attr) => Ok(before + attr + seq![SPACE]),
            },
        }
    }
}

/// An attribute specification without the escapes of its values. One without
/// any `=` stays as it is. Otherwise each of the attributes between spaces
/// loses the escapes of its value and is followed by one space.
pub open spec fn unescaped(input: Seq<u8>) -> Result<Seq<u8>, ErrorModel> {
    if first_at(input, EQUALS, 0) >= input.len() {
        Ok(input)
    } else {
        unescaped_upto(fields(input, SPACE), fields(input, SPACE).len() as int)
    }
}

/// Whether an executable result says what `planned` says.
pub open spec fn bytes_are(r: Result<Vec<u8>, Error>, planned: Result<Seq<u8>, ErrorModel>) -> bool {
    match planned {
        Ok(bytes) => r.is_ok() && r.unwrap()@ == bytes,
        Err(e) => r.is_err() && r.unwrap_err()@ == e,
    }
}

/// Splits `input` at every byte `b`.
pub fn split_on_byte<'a>(input: &'a [u8], b: u8) -> (r: Vec<&'a [u8]>)
    ensures
        contents(r@) == fields(input@, b),
{
    let mut pieces: Vec<&'a [u8]> = Vec::new();
    let mut last: usize = 0;
    let mut at: usize = 0;
    proof {
        assert(contents(pieces@) =~= Seq::<Seq<u8>>::empty());
    }
    while at < input.len()
        invariant
            last <= at <= input@.len(),
            contents(pieces@) + fields_from(input@, b, last as int, at as int) == fields(input@, b),
        decreases input@.len() - at,
    {
        if input[at] == b {
            let piece = slice_subrange(input, last, at);
            proof {
                let rest = fields_from(input@, b, at as int + 1, at as int + 1);
                assert(contents(pieces@.push(piece)) =~= contents(pieces@).push(piece@));
                assert(contents(pieces@).push(piece@) + rest =~= contents(pieces@) + (seq![piece@]
                    + rest));
            }
            pieces.push(piece);
            last = at + 1;
        }
        at += 1;
    }
    let piece = slice_subrange(input, last, input.len());
    proof {
        assert(contents(pieces@.push(piece)) =~= contents(pieces@).push(piece@));
        assert(contents(pieces@).push(piece@) =~= contents(pieces@) + seq![piece@]);
    }
    pieces.push(piece);
    pieces
}

/// Appends one attribute to `out`, without the escapes of its value.
fn unescape_attribute(attr: &[u8], out: &mut Vec<u8>) -> (r: Result<(), Error>)
    ensures
        match unescaped_attribute(attr@) {
            Ok(bytes) => r.is_ok() && final(out)@ == old(out)@ + bytes,
            Err(e) => r.is_err() && r.unwrap_err()@ == e,
        },
{
    let eq = find_byte(attr, EQUALS, 0);
    let ghost before = out@;
    if eq >= attr.len() {
        out.extend_from_slice(attr);
        return Ok(());
    }
    out.extend_from_slice(slice_subrange(attr, 0, eq + 1));
    let ghost head = attr@.subrange(0, eq as int + 1);
    let ghost mut value = Seq::<u8>::empty();
    let mut i = eq + 1;
    proof {
        assert(head + value =~= head);
    }
    while i < attr.len()
        invariant
            eq + 1 <= i <= attr@.len(),
            eq == first_at(attr@, EQUALS, 0),
            head == attr@.subrange(0, eq as int + 1),
            before == old(out)@,
            out@ == before + head + value,
            after(value, unescaped_value(attr@, i as int)) == unescaped_value(attr@, eq as int + 1),
        decreases attr@.len() - i,
    {
        if attr[i] == BACKSLASH {
            i += 1;
            if i >= attr.len() {
                return Err(Error::TrailingEscapeCharacter);
            }
        }
        let b = attr[i];
        if is_value_byte(b) {
            proof {
                let rest = unescaped_value(attr@, i as int + 1);
                if rest.is_ok() {
                    assert(value.push(b) + rest->Ok_0 =~= value + (seq![b] + rest->Ok_0));
                }
                assert(before + head + value.push(b) =~= (before + head + value).push(b));
                value = value.push(b);
            }
            out.push(b);
            i += 1;
        } else {
            return Err(Error::InvalidAttributeValue { character: b as char });
        }
    }
    proof {
        assert(value + Seq::<u8>::empty() =~= value);
        assert(before + head + value =~= before + (head + value));
    }
    Ok(())
}

/// Removes the escapes from the values of an attribute specification: see `unescaped`.
pub fn unescape_attribute_values(input: &[u8]) -> (r: Result<Vec<u8>, Error>)
    ensures
        bytes_are(r, unescaped(input@)),
{
    if find_byte(input, EQUALS, 0) >= input.len() {
        return Ok(vstd::slice::slice_to_vec(input));
    }
    let attrs = split_on_byte(input, SPACE);
    let ghost all = fields(input@, SPACE);
    let mut out: Vec<u8> = Vec::new();
    let mut k: usize = 0;
    while k < attrs.len()
        invariant
            k <= attrs@.len(),
            contents(attrs@) == all,
            all == fields(input@, SPACE),
            first_at(input@, EQUALS, 0) < input@.len(),
            unescaped_upto(all, k as int) == Ok::<Seq<u8>, ErrorModel>(out@),
        decreases attrs@.len() - k,
    {
        let ghost before = out@;
        assert(contents(attrs@)[k as int] == attrs@[k as int]@);
        match unescape_attribute(attrs[k], &mut out) {
            Ok(()) => {},
            Err(e) => {
                proof {
                    lemma_unescaped_stops(all, k as int + 1, all.len() as int);
                }
                return Err(e);
            },
        }
        out.push(SPACE);
        proof {
            let attr = unescaped_attribute(all[k as int])->Ok_0;
            assert((before + attr).push(SPACE) =~= before + attr + seq![SPACE]);
        }
        k += 1;
    }
    Ok(out)
}

/// Once an attribute has failed, longer prefixes fail in the same way.
pub proof fn lemma_unescaped_stops(attrs: Seq<Seq<u8>>, at: int, upto: int)
    requires
        0 <= at <= upto,
        unescaped_upto(attrs, at).is_err(),
    ensures
        unescaped_upto(attrs, upto) == unescaped_upto(attrs, at),
    decreases upto - at,
{
    if at < upto {
        lemma_unescaped_stops(attrs, at, upto - 1);
    }
}

/// The assignments that the attribute parser reads from `input`, or the
/// attribute that it rejects.
pub uninterp spec fn assignments(input: Seq<u8>) -> Result<Seq<AssignmentModel>, Seq<u8>>;

/// Reads the attributes of `input` with `git_attributes::parse::Iter`, up to
/// the first one that it rejects. What is claimed: the outcome depends on
/// `input` alone.
#[verifier::external_body]
fn read_assignments(input: &[u8]) -> (r: Result<Vec<Assignment>, Vec<u8>>)
    ensures
        match r {
            Ok(list) => assignments(input@) == Ok::<Seq<AssignmentModel>, Seq<u8>>(
                assignment_models(list@),
            ),
            Err(attribute) => assignments(input@) == Err::<Seq<AssignmentModel>, Seq<u8>>(
                attribute@,
            ),
        },
{
    git_attributes::parse::Iter::new(input.into())
        .map(|parsed| match parsed {
            Ok(a) => Ok(Assignment { name: a.name.as_str().as_bytes().to_vec(), state: match a.state {
                git_attributes::StateRef::Set => State::IsSet,
                git_attributes::StateRef::Unset => State::Unset,
                git_attributes::StateRef::Value(v) => State::Value(v.to_vec()),
                git_attributes::StateRef::Unspecified => State::Unspecified,
            } }),
            Err(e) => Err(e.attribute.into()),
        })
        .collect()
}

/// What the attribute parser made of an attribute specification, as the
/// outcome of parsing attributes: a rejected attribute is an invalid one.
pub open spec fn attributes_from(read: Result<Seq<AssignmentModel>, Seq<u8>>) -> Result<
    Seq<AssignmentModel>,
    ErrorModel,
> {
    match read {
        Ok(list) => Ok(list),
        Err(attribute) => Err(ErrorModel::InvalidAttribute { attribute }),
    }
}

/// The attributes that the specification `input` asks for. It may not be
/// empty; the escapes of its values are removed before it is read.
pub open spec fn attributes_of(input: Seq<u8>) -> Result<Seq<AssignmentModel>, ErrorModel> {
    if input.len() == 0 {
        Err(ErrorModel::EmptyAttribute)
    } else {
        match unescaped(input) {
            Err(e) => Err(e),
            Ok(plain) => attributes_from(assignments(plain)),
        }
    }
}

/// Whether an executable result says what `planned` says.
pub open spec fn attributes_are(r: Result<Vec<Assignment>, Error>, planned: Result<
    Seq<AssignmentModel>,
    ErrorModel,
>) -> bool {
    match planned {
        Ok(list) => r.is_ok() && assignment_models(r.unwrap()@) == list,
        Err(e) => r.is_err() && r.unwrap_err()@ == e,
    }
}

/// Turns what the attribute parser returned into the outcome of parsing
/// attributes: a rejected attribute is an invalid one.
pub fn checked_attributes(read: Result<Vec<Assignment>, Vec<u8>>) -> (r: Result<
    Vec<Assignment>,
    Error,
>)
    ensures
        match read {
            Ok(list) => r.is_ok() && r.unwrap()@ == list@,
            Err(attribute) => r.is_err() && r.unwrap_err()@ == (ErrorModel::InvalidAttribute {
                attribute: attribute@,
            }),
        },
{
    match read {
        Ok(list) => Ok(list),
        Err(attribute) => Err(Error::InvalidAttribute { attribute }),
    }
}

/// Parses an attribute specification, the part of an `attr:` keyword after the colon.
pub fn parse_attributes(input: &[u8]) -> (r: Result<Vec<Assignment>, Error>)
    ensures
        attributes_are(r, attributes_of(input@)),
{
    if input.len() == 0 {
        return Err(Error::EmptyAttribute);
    }
    let plain = match unescape_attribute_values(input) {
        Ok(plain) => plain,
        Err(e) => {
            return Err(e);
        },
    };
    checked_attributes(read_assignments(plain.as_slice()))
}

/// `attr`
pub open spec fn word_attr() -> Seq<u8> {
    seq![0x61u8, 0x74u8, 0x74u8, 0x72u8]
}

/// `top`
pub open spec fn word_top() -> Seq<u8> {
    seq![0x74u8, 0x6fu8, 0x70u8]
}

/// `icase`
pub open spec fn word_icase() -> Seq<u8> {
    seq![0x69u8, 0x63u8, 0x61u8, 0x73u8, 0x65u8]
}

/// `exclude`
pub open spec fn word_exclude() -> Seq<u8> {
    seq![0x65u8, 0x78u8, 0x63u8, 0x6cu8, 0x75u8, 0x64u8, 0x65u8]
}

/// `literal`
pub open spec fn word_literal() -> Seq<u8> {
    seq![0x6cu8, 0x69u8, 0x74u8, 0x65u8, 0x72u8, 0x61u8, 0x6cu8]
}

/// `glob`
pub open spec fn word_glob() -> Seq<u8> {
    seq![0x67u8, 0x6cu8, 0x6fu8, 0x62u8]
}

/// `attr:`
pub open spec fn word_attr_colon() -> Seq<u8> {
    seq![0x61u8, 0x74u8, 0x74u8, 0x72u8, 0x3au8]
}

/// `prefix:`
pub open spec fn word_prefix_colon() -> Seq<u8> {
    seq![0x70u8, 0x72u8, 0x65u8, 0x66u8, 0x69u8, 0x78u8, 0x3au8]
}

/// Whether `bytes` begins with `word`.
pub open spec fn begins_with(bytes: Seq<u8>, word: Seq<u8>) -> bool {
    bytes.len() >= word.len() && bytes.subrange(0, word.len() as int) == word
}

/// Whether `bytes` begins with `word`.
pub fn starts_with(bytes: &[u8], word: &[u8]) -> (r: bool)
    ensures
        r == begins_with(bytes@, word@),
{
    if bytes.len() < word.len() {
        return false;
    }
    let mut i: usize = 0;
    while i < word.len()
        invariant
            i <= word@.len() <= bytes@.len(),
            forall|k: int| 0 <= k < i ==> bytes@[k] == word@[k],
        decreases word@.len() - i,
    {
        if bytes[i] != word[i] {
            assert(bytes@.subrange(0, word@.len() as int)[i as int] != word@[i as int]);
            return false;
        }
        i += 1;
    }
    assert(bytes@.subrange(0, word@.len() as int) =~= word@);
    true
}

/// Whether `bytes` is `word`.
pub fn is_word(bytes: &[u8], word: &[u8]) -> (r: bool)
    ensures
        r == (bytes@ == word@),
{
    if bytes.len() != word.len() {
        return false;
    }
    let r = starts_with(bytes, word);
    assert(bytes@.subrange(0, word@.len() as int) =~= bytes@);
    r
}

/// A pattern with what the long keywords have made of it so far, and the
/// error that ended it, if one did.
pub struct Applied {
    pub pattern: PatternModel,
    pub error: Option<ErrorModel>,
}

/// What one long keyword makes of `p`. `attr` alone means nothing, and
/// neither does anything after `prefix:`. `literal` and `glob` exclude one
/// another, and attributes may be given once.
pub open spec fn apply_keyword(p: PatternModel, keyword: Seq<u8>) -> Applied {
    if keyword == word_attr() {
        Applied { pattern: p, error: None }
    } else if keyword == word_top() {
        Applied {
            pattern: PatternModel {
                signature: p.signature.spec_union(
                    MagicSignature { top: true, icase: false, exclude: false },
                ),
                ..p
            },
            error: None,
        }
    } else if keyword == word_icase() {
        Applied {
            pattern: PatternModel {
                signature: p.signature.spec_union(
                    MagicSignature { top: false, icase: true, exclude: false },
                ),
                ..p
            },
            error: None,
        }
    } else if keyword == word_exclude() {
        Applied {
            pattern: PatternModel {
                signature: p.signature.spec_union(
                    MagicSignature { top: false, icase: false, exclude: true },
                ),
                ..p
            },
            error: None,
        }
    } else if keyword == word_literal() {
        if p.search_mode is PathAwareGlob {
            Applied { pattern: p, error: Some(ErrorModel::IncompatibleSearchModes) }
        } else {
            Applied { pattern: PatternModel { search_mode: SearchMode::Literal, ..p }, error: None }
        }
    } else if keyword == word_glob() {
        if p.search_mode is Literal {
            Applied { pattern: p, error: Some(ErrorModel::IncompatibleSearchModes) }
        } else {
            Applied {
                pattern: PatternModel { search_mode: SearchMode::PathAwareGlob, ..p },
                error: None,
            }
        }
    } else if begins_with(keyword, word_attr_colon()) {
        if p.attributes.len() == 0 {
            match attributes_of(keyword.subrange(5, keyword.len() as int)) {
                Ok(attributes) => Applied { pattern: PatternModel { attributes, ..p }, error: None },
                Err(e) => Applied { pattern: p, error: Some(e) },
            }
        } else {
            Applied { pattern: p, error: Some(ErrorModel::MultipleAttributeSpecifications) }
        }
    } else if begins_with(keyword, word_prefix_colon()) {
        Applied { pattern: p, error: None }
    } else {
        Applied { pattern: p, error: Some(ErrorModel::InvalidKeyword { keyword }) }
    }
}

/// What the first `upto` of `keywords` make of `p`, one after the other. The
/// first error ends it.
pub open spec fn apply_upto(p: PatternModel, keywords: Seq<Seq<u8>>, upto: int) -> Applied
    decreases upto,
{
    if upto <= 0 {
        Applied { pattern: p, error: None }
    } else {
        let before = apply_upto(p, keywords, upto - 1);
        if before.error.is_some() {
            before
        } else {
            apply_keyword(before.pattern, keywords[upto - 1])
        }
    }
}

/// Where reading the long keywords ends, and with what.
pub struct LongScan {
    pub cursor: int,
    pub applied: Applied,
}

/// What the long keywords of `input` make of `p`. They stand between `cursor`
/// and the next `)`, with commas between them. Without a `)` nothing is
/// read; else reading goes on behind it.
pub open spec fn long_keywords(input: Seq<u8>, p: PatternModel, cursor: int) -> LongScan {
    let end = first_at(input, CLOSE, cursor);
    if end >= input.len() {
        LongScan {
            cursor,
            applied: Applied { pattern: p, error: Some(ErrorModel::MissingClosingParenthesis) },
        }
    } else {
        let body = input.subrange(cursor, end);
        LongScan {
            cursor: end + 1,
            applied: if body.len() == 0 {
                Applied { pattern: p, error: None }
            } else {
                apply_upto(p, pieces(body, COMMA), pieces(body, COMMA).len() as int)
            },
        }
    }
}

/// Applies one long keyword to `p`.
fn apply(p: &mut Pattern, keyword: &[u8]) -> (r: Result<(), Error>)
    ensures
        final(p)@ == apply_keyword(old(p)@, keyword@).pattern,
        match apply_keyword(old(p)@, keyword@).error {
            Some(e) => r.is_err() && r.unwrap_err()@ == e,
            None => r.is_ok(),
        },
{
    let attr: [u8; 4] = [0x61, 0x74, 0x74, 0x72];
    let top: [u8; 3] = [0x74, 0x6f, 0x70];
    let icase: [u8; 5] = [0x69, 0x63, 0x61, 0x73, 0x65];
    let exclude: [u8; 7] = [0x65, 0x78, 0x63, 0x6c, 0x75, 0x64, 0x65];
    let literal: [u8; 7] = [0x6c, 0x69, 0x74, 0x65, 0x72, 0x61, 0x6c];
    let glob: [u8; 4] = [0x67, 0x6c, 0x6f, 0x62];
    let attr_colon: [u8; 5] = [0x61, 0x74, 0x74, 0x72, 0x3a];
    let prefix_colon: [u8; 7] = [0x70, 0x72, 0x65, 0x66, 0x69, 0x78, 0x3a];
    proof {
        assert(attr@ =~= word_attr());
        assert(top@ =~= word_top());
        assert(icase@ =~= word_icase());
        assert(exclude@ =~= word_exclude());
        assert(literal@ =~= word_literal());
        assert(glob@ =~= word_glob());
        assert(attr_colon@ =~= word_attr_colon());
        assert(prefix_colon@ =~= word_prefix_colon());
    }
    if is_word(keyword, attr.as_slice()) {
        Ok(())
    } else if is_word(keyword, top.as_slice()) {
        p.signature = p.signature.union(MagicSignature { top: true, icase: false, exclude: false });
        Ok(())
    } else if is_word(keyword, icase.as_slice()) {
        p.signature = p.signature.union(MagicSignature { top: false, icase: true, exclude: false });
        Ok(())
    } else if is_word(keyword, exclude.as_slice()) {
        p.signature = p.signature.union(MagicSignature { top: false, icase: false, exclude: true });
        Ok(())
    } else if is_word(keyword, literal.as_slice()) {
        match p.search_mode {
            SearchMode::PathAwareGlob => Err(Error::IncompatibleSearchModes),
            _ => {
                p.search_mode = SearchMode::Literal;
                Ok(())
            },
        }
    } else if is_word(keyword, glob.as_slice()) {
        match p.search_mode {
            SearchMode::Literal => Err(Error::IncompatibleSearchModes),
            _ => {
                p.search_mode = SearchMode::PathAwareGlob;
                Ok(())
            },
        }
    } else if starts_with(keyword, attr_colon.as_slice()) {
        if p.attributes.len() == 0 {
            match parse_attributes(slice_subrange(keyword, 5, keyword.len())) {
                Ok(attributes) => {
                    p.attributes = attributes;
                    Ok(())
                },
                Err(e) => Err(e),
            }
        } else {
            Err(Error::MultipleAttributeSpecifications)
        }
    } else if starts_with(keyword, prefix_colon.as_slice()) {
        Ok(())
    } else {
        Err(Error::InvalidKeyword { keyword: vstd::slice::slice_to_vec(keyword) })
    }
}

/// Reads the long keywords of `input`, which start at `cursor` and end at the
/// next `)`, applies them to `p`, and moves `cursor` behind the `)`.
pub fn parse_long_keywords(input: &[u8], p: &mut Pattern, cursor: &mut usize) -> (r: Result<
    (),
    Error,
>)
    ensures
        *final(cursor) == long_keywords(input@, old(p)@, *old(cursor) as int).cursor,
        final(p)@ == long_keywords(input@, old(p)@, *old(cursor) as int).applied.pattern,
        match long_keywords(input@, old(p)@, *old(cursor) as int).applied.error {
            Some(e) => r.is_err() && r.unwrap_err()@ == e,
            None => r.is_ok(),
        },
        r.is_ok() ==> *final(cursor) <= input@.len(),
{
    let end = find_byte(input, CLOSE, *cursor);
    if end >= input.len() {
        return Err(Error::MissingClosingParenthesis);
    }
    let body = slice_subrange(input, *cursor, end);
    *cursor = end + 1;
    if body.len() == 0 {
        return Ok(());
    }
    let keywords = split_on_non_escaped_char(body, COMMA);
    let ghost all = pieces(body@, COMMA);
    let ghost start = p@;
    let mut k: usize = 0;
    while k < keywords.len()
        invariant
            k <= keywords@.len(),
            contents(keywords@) == all,
            all == pieces(body@, COMMA),
            start == old(p)@,
            end == first_at(input@, CLOSE, *old(cursor) as int),
            end < input@.len(),
            *cursor == end + 1,
            body@ == input@.subrange(*old(cursor) as int, end as int),
            body@.len() > 0,
            apply_upto(start, all, k as int) == (Applied { pattern: p@, error: None }),
        decreases keywords@.len() - k,
    {
        assert(contents(keywords@)[k as int] == keywords@[k as int]@);
        match apply(p, keywords[k]) {
            Ok(()) => {},
            Err(e) => {
                proof {
                    lemma_apply_stops(start, all, k as int + 1, all.len() as int);
                }
                return Err(e);
            },
        }
        k += 1;
    }
    Ok(())
}

/// Once a keyword has failed, longer prefixes fail in the same way.
pub proof fn lemma_apply_stops(p: PatternModel, keywords: Seq<Seq<u8>>, at: int, upto: int)
    requires
        0 <= at <= upto,
        apply_upto(p, keywords, at).error.is_some(),
    ensures
        apply_upto(p, keywords, upto) == apply_upto(p, keywords, at),
    decreases upto - at,
{
    if at < upto {
        lemma_apply_stops(p, keywords, at, upto - 1);
    }
}

/// The pattern that `input` spells out. An empty pathspec is none. After a
/// leading `:` come the short keywords, then, in parentheses, the long ones;
/// what is left is the path.
pub open spec fn parsed(input: Seq<u8>) -> Result<PatternModel, ErrorModel> {
    let plain = PatternModel {
        path: Seq::empty(),
        signature: MagicSignature::spec_empty(),
        search_mode: SearchMode::ShellGlob,
        attributes: Seq::empty(),
    };
    if input.len() == 0 {
        Err(ErrorModel::EmptyString)
    } else if input[0] != COLON {
        Ok(PatternModel { path: input, ..plain })
    } else {
        let short = scan_short(input, 1, MagicSignature::spec_empty());
        match short.result {
            Err(e) => Err(e),
            Ok(signature) => {
                let signed = PatternModel { signature, ..plain };
                if short.cursor < input.len() && input[short.cursor] == OPEN {
                    let long = long_keywords(input, signed, short.cursor + 1);
                    match long.applied.error {
                        Some(e) => Err(e),
                        None => Ok(
                            PatternModel {
                                path: input.subrange(long.cursor, input.len() as int),
                                ..long.applied.pattern
                            },
                        ),
                    }
                } else {
                    Ok(
                        PatternModel {
                            path: input.subrange(short.cursor, input.len() as int),
                            ..signed
                        },
                    )
                }
            },
        }
    }
}

impl Pattern {
    /// Parses a pathspec.
    pub fn from_bytes(input: &[u8]) -> (r: Result<Pattern, Error>)
        ensures
            match parsed(input@) {
                Ok(pattern) => r.is_ok() && r.unwrap()@ == pattern,
                Err(e) => r.is_err() && r.unwrap_err()@ == e,
            },
    {
        if input.len() == 0 {
            return Err(Error::EmptyString);
        }
        let mut p = Pattern {
            path: Vec::new(),
            signature: MagicSignature::empty(),
            search_mode: SearchMode::ShellGlob,
            attributes: Vec::new(),
        };
        proof {
            assert(assignment_models(p.attributes@) =~= Seq::<AssignmentModel>::empty());
        }
        let mut cursor: usize = 0;
        if input[0] == COLON {
            cursor = 1;
            match parse_short_keywords(input, &mut cursor) {
                Ok(signature) => {
                    p.signature = p.signature.union(signature);
                },
                Err(e) => {
                    return Err(e);
                },
            }
            if cursor < input.len() && input[cursor] == OPEN {
                cursor += 1;
                match parse_long_keywords(input, &mut p, &mut cursor) {
                    Ok(()) => {},
                    Err(e) => {
                        return Err(e);
                    },
                }
            }
        }
        p.path = vstd::slice::slice_to_vec(slice_subrange(input, cursor, input.len()));
        proof {
            if cursor == 0 {
                assert(input@.subrange(0, input@.len() as int) =~= input@);
            }
        }
        Ok(p)
    }
}

} // verus!
