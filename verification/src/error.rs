//! Error and diagnostic types.
use vstd::prelude::*;
use crate::text::{comma_joined, from_chars, join_commas, strings_view, to_chars};

verus! {

/// Anything that can go wrong while building or configuring a filter.
#[derive(Debug)]
pub enum Error {
    /// The language code is neither a known language nor a known alias.
    UnknownLanguage { code: String, available: Vec<String> },
    /// A resource file could not be read; `message` is the I/O error's text.
    Io { path: String, message: String },
    /// A resource file could not be parsed; `message` is the parser's text.
    Json { resource: String, message: String },
    /// A resource the filter cannot work without is absent.
    MissingResource { what: String },
    /// The requested combination of options cannot be honoured.
    InvalidOptions(String),
}

/// A non-fatal diagnostic raised while loading languages.
#[derive(Debug, Clone, PartialEq, Eq)]
pub enum LanguageWarning {
    /// A deprecated alias was used. `note` explains why it is deprecated.
    DeprecatedAlias { requested: String, canonical: String, note: String },
    /// The language was already loaded; the request was a no-op.
    AlreadyLoaded { code: String },
    /// The language loaded, but its word list is empty.
    EmptyWordList { code: String },
}

/// Legacy error type of the 2.x API.
#[derive(Debug, Clone, Copy, PartialEq, Eq)]
pub struct NotSupportedLanguage;


/// What a warning says, as character sequences.
pub enum WarningModel {
    DeprecatedAlias(Seq<char>, Seq<char>, Seq<char>),
    AlreadyLoaded(Seq<char>),
    EmptyWordList(Seq<char>),
}

impl LanguageWarning {
    /// What the warning says.
    pub open spec fn model(&self) -> WarningModel {
        match self {
            LanguageWarning::DeprecatedAlias { requested, canonical, note } => WarningModel::DeprecatedAlias(
                requested@,
                canonical@,
                note@,
            ),
            LanguageWarning::AlreadyLoaded { code } => WarningModel::AlreadyLoaded(code@),
            LanguageWarning::EmptyWordList { code } => WarningModel::EmptyWordList(code@),
        }
    }
}

/// The characters of `a`, then of `b`, then of `c`.
fn concat3(a: &str, b: &str, c: &str) -> (r: Vec<char>)
    ensures
        r@ == a@ + b@ + c@,
{
    let mut out = to_chars(a);
    let mut x = to_chars(b);
    out.append(&mut x);
    let mut y = to_chars(c);
    out.append(&mut y);
    out
}

impl Error {
    /// What the error says.
    pub open spec fn text(&self) -> Seq<char> {
        match self {
            Error::UnknownLanguage { code, available } => "unsupported language `"@ + code@ + "`"@ + if available@.len()
                == 0 {
                Seq::<char>::empty()
            } else {
                " (available: "@ + comma_joined(strings_view(available@)) + ")"@
            },
            Error::Io { path, message } => "cannot read `"@ + path@ + "`: "@ + message@,
            Error::Json { resource, message } => "cannot parse `"@ + resource@ + "`: "@ + message@,
            Error::MissingResource { what } => "missing resource: "@ + what@,
            Error::InvalidOptions(why) => "invalid options: "@ + why@,
        }
    }

    /// The error as a sentence, e.g. ``unsupported language `xx` (available: de, en)``.
    pub fn to_string(&self) -> (r: String)
        ensures
            r@ == self.text(),
    {
        match self {
            Error::UnknownLanguage { code, available } => {
                let mut out = concat3("unsupported language `", code.as_str(), "`");
                if available.len() > 0 {
                    let list = join_commas(available.as_slice());
                    let mut tail = concat3(" (available: ", list.as_str(), ")");
                    out.append(&mut tail);
                }
                from_chars(out.as_slice())
            },
            Error::Io { path, message } => {
                let mut out = concat3("cannot read `", path.as_str(), "`: ");
                let mut m = to_chars(message.as_str());
                out.append(&mut m);
                from_chars(out.as_slice())
            },
            Error::Json { resource, message } => {
                let mut out = concat3("cannot parse `", resource.as_str(), "`: ");
                let mut m = to_chars(message.as_str());
                out.append(&mut m);
                from_chars(out.as_slice())
            },
            Error::MissingResource { what } => {
                let out = concat3("missing resource: ", what.as_str(), "");
                proof {
                    reveal_strlit("");
                }
                assert(out@ =~= "missing resource: "@ + what@);
                from_chars(out.as_slice())
            },
            Error::InvalidOptions(why) => {
                let out = concat3("invalid options: ", why.as_str(), "");
                proof {
                    reveal_strlit("");
                }
                assert(out@ =~= "invalid options: "@ + why@);
                from_chars(out.as_slice())
            },
        }
    }
}

impl LanguageWarning {
    /// What the warning says.
    pub open spec fn text(&self) -> Seq<char> {
        match self {
            LanguageWarning::DeprecatedAlias { requested, canonical, note } => "language code `"@ + requested@
                + "` is deprecated, use `"@ + canonical@ + "`: "@ + note@,
            LanguageWarning::AlreadyLoaded { code } => "language `"@ + code@ + "` was already loaded"@,
            LanguageWarning::EmptyWordList { code } => "language `"@ + code@ + "` has an empty word list"@,
        }
    }

    /// The warning as a sentence.
    pub fn to_string(&self) -> (r: String)
        ensures
            r@ == self.text(),
    {
        match self {
            LanguageWarning::DeprecatedAlias { requested, canonical, note } => {
                let mut out = concat3("language code `", requested.as_str(), "` is deprecated, use `");
                let mut rest = concat3(canonical.as_str(), "`: ", note.as_str());
                out.append(&mut rest);
                from_chars(out.as_slice())
            },
            LanguageWarning::AlreadyLoaded { code } => {
                let out = concat3("language `", code.as_str(), "` was already loaded");
                from_chars(out.as_slice())
            },
            LanguageWarning::EmptyWordList { code } => {
                let out = concat3("language `", code.as_str(), "` has an empty word list");
                from_chars(out.as_slice())
            },
        }
    }
}

impl LanguageWarning {
    /// The warning's kind as bindings spell it.
    pub open spec fn kind_spec(&self) -> Seq<char> {
        match self {
            LanguageWarning::DeprecatedAlias { .. } => "deprecated_alias"@,
            LanguageWarning::AlreadyLoaded { .. } => "already_loaded"@,
            LanguageWarning::EmptyWordList { .. } => "empty_word_list"@,
        }
    }

    /// The warning's kind: `deprecated_alias`, `already_loaded` or
    /// `empty_word_list`.
    pub fn kind_name(&self) -> (r: &'static str)
        ensures
            r@ == self.kind_spec(),
    {
        match self {
            LanguageWarning::DeprecatedAlias { .. } => "deprecated_alias",
            LanguageWarning::AlreadyLoaded { .. } => "already_loaded",
            LanguageWarning::EmptyWordList { .. } => "empty_word_list",
        }
    }
}

impl NotSupportedLanguage {
    /// The legacy message.
    pub fn to_string(&self) -> (r: String)
        ensures
            r@ == "This language is not supported"@,
    {
        "This language is not supported".to_string()
    }
}

} // verus!
