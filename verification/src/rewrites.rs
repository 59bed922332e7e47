//! How rewrites (renames and copies) are to be found.
use vstd::prelude::*;

verus! {

/// From where to source copies.
#[derive(Clone, Copy, Debug, PartialEq, Eq, Hash)]
pub enum CopySource {
    /// Find copies from the set of changed files only.
    FromSetOfChangedFiles,
}

/// A similarity threshold, held as the exact fraction `numerator / denominator`.
/// A threshold of one or more asks for identical content.
#[derive(Clone, Copy, Debug, PartialEq, Eq, Hash)]
pub struct Percentage {
    pub numerator: u64,
    pub denominator: u64,
}

impl Percentage {
    /// The threshold `numerator / denominator`, if that is a fraction above zero.
    pub fn new(numerator: u64, denominator: u64) -> (r: Option<Percentage>)
        ensures
            r.is_some() <==> (numerator > 0 && denominator > 0),
            r.is_some() ==> r.unwrap() == (Percentage { numerator, denominator }),
    {
        if numerator > 0 && denominator > 0 {
            Some(Percentage { numerator, denominator })
        } else {
            None
        }
    }

    /// One half, the threshold that applies when none is configured.
    pub fn half() -> (r: Percentage)
        ensures
            r == (Percentage { numerator: 1, denominator: 2 }),
    {
        Percentage { numerator: 1, denominator: 2 }
    }

    /// Whether the threshold is one or more, so that only identical content meets it.
    pub open spec fn spec_is_exact(&self) -> bool {
        self.numerator >= self.denominator
    }

    /// Whether the threshold is one or more, so that only identical content meets it.
    #[verifier::when_used_as_spec(spec_is_exact)]
    pub fn is_exact(&self) -> (r: bool)
        ensures
            r == self.spec_is_exact(),
    {
        self.numerator >= self.denominator
    }

    /// Whether the fraction `part / whole` is at least the threshold. Nothing is
    /// a fraction of an empty whole, and less than nothing meets no threshold.
    pub open spec fn met_by(&self, part: int, whole: int) -> bool {
        part >= 0 && whole > 0 && part * self.denominator >= self.numerator * whole
    }
}

/// Whether matching has to go by identity alone: no threshold is set, or it is one or more.
pub open spec fn spec_needs_exact_match(percentage: Option<Percentage>) -> bool {
    match percentage {
        None => true,
        Some(p) => p.spec_is_exact(),
    }
}

/// Whether matching has to go by identity alone: no threshold is set, or it is one or more.
#[verifier::when_used_as_spec(spec_needs_exact_match)]
pub fn needs_exact_match(percentage: Option<Percentage>) -> (r: bool)
    ensures
        r == spec_needs_exact_match(percentage),
{
    match percentage {
        None => true,
        Some(p) => p.is_exact(),
    }
}

/// How to determine copied files.
#[derive(Clone, Copy, Debug, PartialEq, Eq, Hash)]
pub struct Copies {
    /// The set of files to search when finding the source of copies.
    pub source: CopySource,
    /// The threshold for copies. Without one, the threshold for renames applies.
    pub percentage: Option<Percentage>,
}

/// The settings of rewrite tracking.
#[derive(Clone, Copy, Debug, PartialEq, Eq, Hash)]
pub struct Rewrites {
    /// If set, copies are looked for as well as renames.
    pub copies: Option<Copies>,
    /// How similar two files must be to count as a rewrite of one another. Without a
    /// threshold, or with one of one or more, only identical files do.
    pub percentage: Option<Percentage>,
    /// The largest number of pairs of an added and a deleted file for which
    /// content is still compared. Above it, only identical files match.
    pub limit: usize,
}

impl Rewrites {
    /// The threshold that applies to copies: their own if one is set, else that of renames.
    pub open spec fn spec_copy_percentage(&self) -> Option<Percentage> {
        match self.copies {
            Some(copies) => match copies.percentage {
                Some(p) => Some(p),
                None => self.percentage,
            },
            None => self.percentage,
        }
    }

    /// The threshold that applies to copies: their own if one is set, else that of renames.
    #[verifier::when_used_as_spec(spec_copy_percentage)]
    pub fn copy_percentage(&self) -> (r: Option<Percentage>)
        ensures
            r == self.spec_copy_percentage(),
    {
        match self.copies {
            Some(copies) => match copies.percentage {
                Some(p) => Some(p),
                None => self.percentage,
            },
            None => self.percentage,
        }
    }
}

impl Default for Rewrites {
    /// Renames only, at a threshold of one half, with a limit of 1000 pairs.
    fn default() -> (r: Rewrites)
        ensures
            r == (Rewrites {
                copies: None,
                percentage: Some(Percentage { numerator: 1, denominator: 2 }),
                limit: 1000,
            }),
    {
        Rewrites { copies: None, percentage: Some(Percentage::half()), limit: 1000 }
    }
}

/// Why the settings could not be read from a configuration. Each error comes
/// with the value as it is written, if it can be had.
#[derive(Clone, Debug, PartialEq, Eq, Hash)]
pub enum Error {
    /// `diff.renames` is neither a boolean nor `copy` nor `copies`.
    DiffRenames(Option<Vec<u8>>),
    /// `diff.renameLimit` is not an integer from zero up that fits.
    DiffRenameLimit(Option<Vec<u8>>),
}

/// An error as contracts speak of it.
pub enum ErrorModel {
    DiffRenames(Option<Seq<u8>>),
    DiffRenameLimit(Option<Seq<u8>>),
}

/// The bytes of a value as contracts speak of them.
pub open spec fn written(value: Option<Vec<u8>>) -> Option<Seq<u8>> {
    match value {
        Some(v) => Some(v@),
        None => None,
    }
}

impl View for Error {
    type V = ErrorModel;

    open spec fn view(&self) -> ErrorModel {
        match *self {
            Error::DiffRenames(value) => ErrorModel::DiffRenames(written(value)),
            Error::DiffRenameLimit(value) => ErrorModel::DiffRenameLimit(written(value)),
        }
    }
}

/// What `diff.renames` asks for.
#[derive(Clone, Copy, Debug, PartialEq, Eq, Hash)]
pub enum Tracking {
    /// Rewrites are not looked for.
    Disabled,
    /// Renames are looked for.
    Renames,
    /// Renames and copies are looked for.
    RenamesAndCopies,
}

/// A configuration file as `gix_config` holds it.
#[verifier::external_type_specification]
#[verifier::external_body]
pub struct ExFile<'a>(gix_config::File<'a>);

/// The value at `key` of `config` read as a boolean: `None` where there is no
/// such value, an error where it is no boolean.
pub uninterp spec fn boolean_of(config: gix_config::File<'static>, key: Seq<char>) -> Option<
    Result<bool, ()>,
>;

/// The value at `key` of `config` as it is written, if there is one.
pub uninterp spec fn string_of(config: gix_config::File<'static>, key: Seq<char>) -> Option<Seq<u8>>;

/// The value at `key` of `config` read as an integer: `None` where there is
/// no such value, an error where it is no integer.
pub uninterp spec fn integer_of(config: gix_config::File<'static>, key: Seq<char>) -> Option<
    Result<i64, ()>,
>;

/// `gix_config::File::boolean_by_key`, without what its error holds.
#[verifier::external_body]
fn boolean_at(config: &gix_config::File<'static>, key: &str) -> (r: Option<Result<bool, ()>>)
    ensures
        r == boolean_of(*config, key@),
{
    config.boolean_by_key(key).map(|value| value.map_err(|_| ()))
}

/// `gix_config::File::string_by_key`, the value copied out.
#[verifier::external_body]
fn string_at(config: &gix_config::File<'static>, key: &str) -> (r: Option<Vec<u8>>)
    ensures
        r.is_some() == string_of(*config, key@).is_some(),
        r.is_some() ==> r.unwrap()@ == string_of(*config, key@).unwrap(),
{
    config.string_by_key(key).map(|value| value.to_vec())
}

/// `gix_config::File::integer_by_key`, without what its error holds.
#[verifier::external_body]
fn integer_at(config: &gix_config::File<'static>, key: &str) -> (r: Option<Result<i64, ()>>)
    ensures
        r == integer_of(*config, key@),
{
    config.integer_by_key(key).map(|value| value.map_err(|_| ()))
}

/// `copy`
pub open spec fn word_copy() -> Seq<u8> {
    seq![0x63u8, 0x6fu8, 0x70u8, 0x79u8]
}

/// `copies`
pub open spec fn word_copies() -> Seq<u8> {
    seq![0x63u8, 0x6fu8, 0x70u8, 0x69u8, 0x65u8, 0x73u8]
}

/// What a value of `diff.renames` asks for. `flag` is the value read as a
/// boolean, `text` the value as it is written. A boolean switches renames on
/// or off; `copy` and `copies` ask for copies too; anything else is an error.
pub open spec fn tracking_for(flag: Result<bool, ()>, text: Option<Seq<u8>>) -> Result<
    Tracking,
    ErrorModel,
> {
    match flag {
        Ok(true) => Ok(Tracking::Renames),
        Ok(false) => Ok(Tracking::Disabled),
        Err(_) => match text {
            Some(t) => if t == word_copy() || t == word_copies() {
                Ok(Tracking::RenamesAndCopies)
            } else {
                Err(ErrorModel::DiffRenames(text))
            },
            None => Err(ErrorModel::DiffRenames(text)),
        },
    }
}

/// The limit that a value of `diff.renameLimit` stands for: the integer
/// itself, if it is not negative and fits. `text` is the value as it is written.
pub open spec fn limit_for(value: Result<i64, ()>, text: Option<Seq<u8>>) -> Result<
    usize,
    ErrorModel,
> {
    match value {
        Ok(v) => if 0 <= v <= usize::MAX {
            Ok(v as usize)
        } else {
            Err(ErrorModel::DiffRenameLimit(text))
        },
        Err(_) => Err(ErrorModel::DiffRenameLimit(text)),
    }
}

/// The settings that a configuration asks for, from what it holds at
/// `diff.renames` (`flag`, and `text` as it is written) and at
/// `diff.renameLimit` (`limit`, and `limit_text` as it is written). Without
/// `diff.renames`, or with it switched off, there are none. A value that
/// cannot be used is an error, or counts as absent where `lenient` holds.
/// What is not configured is as `Rewrites::default` has it.
pub open spec fn configured(
    flag: Option<Result<bool, ()>>,
    text: Option<Seq<u8>>,
    limit: Option<Result<i64, ()>>,
    limit_text: Option<Seq<u8>>,
    lenient: bool,
) -> Result<Option<Rewrites>, ErrorModel> {
    let tracking = match flag {
        None => Ok(None),
        Some(f) => match tracking_for(f, text) {
            Ok(t) => Ok(Some(t)),
            Err(e) => if lenient {
                Ok(None)
            } else {
                Err(e)
            },
        },
    };
    let limit = match limit {
        None => Ok(1000usize),
        Some(l) => match limit_for(l, limit_text) {
            Ok(n) => Ok(n),
            Err(e) => if lenient {
                Ok(1000usize)
            } else {
                Err(e)
            },
        },
    };
    match tracking {
        Err(e) => Err(e),
        Ok(None) => Ok(None),
        Ok(Some(Tracking::Disabled)) => Ok(None),
        Ok(Some(t)) => match limit {
            Err(e) => Err(e),
            Ok(limit) => Ok(
                Some(
                    Rewrites {
                        copies: if t is RenamesAndCopies {
                            Some(
                                Copies {
                                    source: CopySource::FromSetOfChangedFiles,
                                    percentage: None,
                                },
                            )
                        } else {
                            None
                        },
                        percentage: Some(Percentage { numerator: 1, denominator: 2 }),
                        limit,
                    },
                ),
            ),
        },
    }
}

/// Whether an executable result says what `planned` says.
pub open spec fn tracking_is(r: Result<Tracking, Error>, planned: Result<Tracking, ErrorModel>) -> bool {
    match planned {
        Ok(t) => r == Ok::<Tracking, Error>(t),
        Err(e) => r.is_err() && r.unwrap_err()@ == e,
    }
}

/// Whether an executable result says what `planned` says.
pub open spec fn limit_is(r: Result<usize, Error>, planned: Result<usize, ErrorModel>) -> bool {
    match planned {
        Ok(n) => r == Ok::<usize, Error>(n),
        Err(e) => r.is_err() && r.unwrap_err()@ == e,
    }
}

/// Whether an executable result says what `planned` says.
pub open spec fn settings_are(r: Result<Option<Rewrites>, Error>, planned: Result<
    Option<Rewrites>,
    ErrorModel,
>) -> bool {
    match planned {
        Ok(settings) => r == Ok::<Option<Rewrites>, Error>(settings),
        Err(e) => r.is_err() && r.unwrap_err()@ == e,
    }
}

/// What a value of `diff.renames` asks for: see `tracking_for`.
pub fn try_into_renames(flag: Result<bool, ()>, text: Option<Vec<u8>>) -> (r: Result<Tracking, Error>)
    ensures
        tracking_is(r, tracking_for(flag, written(text))),
{
    match flag {
        Ok(true) => Ok(Tracking::Renames),
        Ok(false) => Ok(Tracking::Disabled),
        Err(_) => {
            let asks_for_copies = match &text {
                Some(t) => {
                    let copy: [u8; 4] = [0x63, 0x6f, 0x70, 0x79];
                    let copies: [u8; 6] = [0x63, 0x6f, 0x70, 0x69, 0x65, 0x73];
                    proof {
                        assert(copy@ =~= word_copy());
                        assert(copies@ =~= word_copies());
                    }
                    crate::pathspec::is_word(t.as_slice(), copy.as_slice())
                        || crate::pathspec::is_word(t.as_slice(), copies.as_slice())
                },
                None => false,
            };
            if asks_for_copies {
                Ok(Tracking::RenamesAndCopies)
            } else {
                Err(Error::DiffRenames(text))
            }
        },
    }
}

/// The limit that a value of `diff.renameLimit` stands for: see `limit_for`.
pub fn try_into_usize(value: Result<i64, ()>, text: Option<Vec<u8>>) -> (r: Result<usize, Error>)
    ensures
        limit_is(r, limit_for(value, written(text))),
{
    match value {
        Ok(v) => {
            if v < 0 {
                return Err(Error::DiffRenameLimit(text));
            }
            let wide: u64 = v as u64;
            if wide <= usize::MAX as u64 {
                Ok(wide as usize)
            } else {
                Err(Error::DiffRenameLimit(text))
            }
        },
        Err(_) => Err(Error::DiffRenameLimit(text)),
    }
}

/// The settings that the values found in a configuration ask for: see `configured`.
pub fn from_values(
    flag: Option<Result<bool, ()>>,
    text: Option<Vec<u8>>,
    limit: Option<Result<i64, ()>>,
    limit_text: Option<Vec<u8>>,
    lenient: bool,
) -> (r: Result<Option<Rewrites>, Error>)
    ensures
        settings_are(r, configured(flag, written(text), limit, written(limit_text), lenient)),
{
    let tracking = match flag {
        None => {
            return Ok(None);
        },
        Some(f) => match try_into_renames(f, text) {
            Ok(t) => t,
            Err(e) => {
                if lenient {
                    return Ok(None);
                }
                return Err(e);
            },
        },
    };
    let copies = match tracking {
        Tracking::Disabled => {
            return Ok(None);
        },
        Tracking::Renames => None,
        Tracking::RenamesAndCopies => Some(
            Copies { source: CopySource::FromSetOfChangedFiles, percentage: None },
        ),
    };
    let default = Rewrites::default();
    let limit = match limit {
        None => default.limit,
        Some(l) => match try_into_usize(l, limit_text) {
            Ok(n) => n,
            Err(e) => {
                if lenient {
                    default.limit
                } else {
                    return Err(e);
                }
            },
        },
    };
    Ok(Some(Rewrites { copies, percentage: default.percentage, limit }))
}

impl Rewrites {
    /// Reads the settings from `config`, being `lenient` towards values that
    /// cannot be used, or not. Returns `Ok(None)` if nothing is configured.
    /// What is not configured is as `Rewrites::default` has it.
    pub fn try_from_config(config: &gix_config::File<'static>, lenient: bool) -> (r: Result<
        Option<Rewrites>,
        Error,
    >)
        ensures
            settings_are(
                r,
                configured(
                    boolean_of(*config, "diff.renames"@),
                    string_of(*config, "diff.renames"@),
                    integer_of(*config, "diff.renameLimit"@),
                    string_of(*config, "diff.renameLimit"@),
                    lenient,
                ),
            ),
    {
        let flag = boolean_at(config, "diff.renames");
        let text = string_at(config, "diff.renames");
        let limit = integer_at(config, "diff.renameLimit");
        let limit_text = string_at(config, "diff.renameLimit");
        from_values(flag, text, limit, limit_text, lenient)
    }
}

} // verus!
