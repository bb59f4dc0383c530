//! High-performance profanity filter.
//!
//! Detection is normalization plus dictionary lookup: text is folded to a
//! canonical form (NFKC, case, confusable characters, homoglyphs,
//! transliteration) and looked up in the dictionary, with optional fuzzy,
//! phrase and substring matching on top.
//!
//! [`Options::default`] reproduces 2.x behaviour: exact whole-token matching.
//! Every evasion detector added in 3.0.0 is opt-in, because each one trades
//! false negatives for false positives - see the field docs on [`Options`].
use vstd::prelude::*;

pub mod bignum;
pub mod text;
pub mod tokenize;
pub mod processor;
pub mod error;
pub mod lang;
pub mod dict;
pub mod fuzzy;
pub mod options;
pub mod substring;
pub mod matcher;
pub mod resources;
pub mod wordlist;
pub mod filter;
pub mod compat;
pub mod ml;

pub use error::{Error, LanguageWarning, NotSupportedLanguage};
pub use filter::{ProfanityFilter, ProfanityFilterBuilder};
pub use fuzzy::Score;
pub use lang::{LanguageInfo, LanguageRegistry, Resolved};
pub use matcher::{Match, MatchKind, Scratch};
pub use options::{MatchMode, Options, Processing, Threshold};
pub use processor::TextProcessor;
pub use resources::ResourceSource;

verus! {

} // verus!
