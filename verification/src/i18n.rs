//! Supported user-interface languages and translation errors.

use vstd::prelude::*;
use vstd::string::StringExecFns;
use crate::text::{ascii_lowercase, str_chars, chars_eq_ignore_ascii_case};

verus! {

broadcast use vstd::string::group_string_axioms;

/// Supported languages.
#[derive(Debug, Clone, Copy, PartialEq, Eq, Hash, Structural)]
pub enum Language {
    /// English (the default)
    English,
    /// Czech
    Czech,
}

/// The identifier of a language ("en", "cs").
pub open spec fn language_code(l: Language) -> Seq<char> {
    match l {
        Language::English => seq!['e', 'n'],
        Language::Czech => seq!['c', 's'],
    }
}

/// The name under which a language is offered to users.
pub open spec fn language_display_name(l: Language) -> Seq<char> {
    match l {
        Language::English => seq!['E', 'n', 'g', 'l', 'i', 's', 'h'],
        Language::Czech => seq!['\u{10c}', 'e', '\u{161}', 't', 'i', 'n', 'a'],
    }
}

/// The language that a code names, compared without regard to ASCII case:
/// "en" or "english" for English, "cs", "czech" or "cz" for Czech.
pub open spec fn language_for_code(code: Seq<char>) -> Option<Language> {
    let lower = ascii_lowercase(code);
    if lower == seq!['e', 'n'] || lower == seq!['e', 'n', 'g', 'l', 'i', 's', 'h'] {
        Some(Language::English)
    } else if lower == seq!['c', 's'] || lower == seq!['c', 'z', 'e', 'c', 'h'] || lower
        == seq!['c', 'z'] {
        Some(Language::Czech)
    } else {
        None
    }
}

impl Language {
    /// All supported languages.
    pub const ALL: [Language; 2] = [Language::English, Language::Czech];

    /// The language identifier string (e.g. "en", "cs").
    pub fn code(&self) -> (r: &'static str)
        ensures
            r@ == language_code(*self),
    {
        match self {
            Language::English => {
                proof {
                    reveal_strlit("en");
                }
                "en"
            },
            Language::Czech => {
                proof {
                    reveal_strlit("cs");
                }
                "cs"
            },
        }
    }

    /// The language's display name.
    pub fn display_name(&self) -> (r: &'static str)
        ensures
            r@ == language_display_name(*self),
    {
        match self {
            Language::English => {
                proof {
                    reveal_strlit("English");
                }
                "English"
            },
            Language::Czech => {
                proof {
                    reveal_strlit("\u{10c}e\u{161}tina");
                }
                "\u{10c}e\u{161}tina"
            },
        }
    }

    /// Parses a language from its code. Upper- and lower-case letters are not
    /// told apart.
    pub fn from_code(code: &str) -> (r: Result<Language, I18nError>)
        ensures
            language_for_code(code@) matches Some(l) ==> r == Ok::<Language, I18nError>(l),
            language_for_code(code@) is None ==> (r matches Err(
                I18nError::UnsupportedLanguage(s),
            ) && s@ == code@),
    {
        let chars = str_chars(code);
        proof {
            reveal_strlit("en");
            reveal_strlit("english");
            reveal_strlit("cs");
            reveal_strlit("czech");
            reveal_strlit("cz");
            assert(ascii_lowercase("en"@) =~= "en"@);
            assert(ascii_lowercase("english"@) =~= "english"@);
            assert(ascii_lowercase("cs"@) =~= "cs"@);
            assert(ascii_lowercase("czech"@) =~= "czech"@);
            assert(ascii_lowercase("cz"@) =~= "cz"@);
            assert("en"@ =~= seq!['e', 'n']);
            assert("english"@ =~= seq!['e', 'n', 'g', 'l', 'i', 's', 'h']);
            assert("cs"@ =~= seq!['c', 's']);
            assert("czech"@ =~= seq!['c', 'z', 'e', 'c', 'h']);
            assert("cz"@ =~= seq!['c', 'z']);
        }
        if chars_eq_ignore_ascii_case(&chars, "en") || chars_eq_ignore_ascii_case(
            &chars,
            "english",
        ) {
            Ok(Language::English)
        } else if chars_eq_ignore_ascii_case(&chars, "cs") || chars_eq_ignore_ascii_case(
            &chars,
            "czech",
        ) || chars_eq_ignore_ascii_case(&chars, "cz") {
            Ok(Language::Czech)
        } else {
            Err(I18nError::UnsupportedLanguage(code.to_string()))
        }
    }

    /// The language code as an owned string (what the language prints as).
    pub fn to_string(&self) -> (r: String)
        ensures
            r@ == language_code(*self),
    {
        self.code().to_string()
    }
}

impl Default for Language {
    fn default() -> (r: Language)
        ensures
            r == Language::English,
    {
        Language::English
    }
}

/// Translation errors.
#[derive(Debug)]
pub enum I18nError {
    /// Translation key not found
    KeyNotFound(String),
    /// Failed to load translation resource
    LoadError(String),
    /// Unsupported language
    UnsupportedLanguage(String),
    /// Formatting error
    FormatError(String),
}

/// The text an error prints as: a fixed prefix for its kind, then its detail.
pub open spec fn i18n_error_message(e: I18nError) -> Seq<char> {
    match e {
        I18nError::KeyNotFound(s) => "Translation key not found: "@ + s@,
        I18nError::LoadError(s) => "Failed to load translation resource: "@ + s@,
        I18nError::UnsupportedLanguage(s) => "Unsupported language: "@ + s@,
        I18nError::FormatError(s) => "Failed to format translation: "@ + s@,
    }
}

impl I18nError {
    /// The human-readable description of the error.
    pub fn message(&self) -> (r: String)
        ensures
            r@ == i18n_error_message(*self),
    {
        match self {
            I18nError::KeyNotFound(s) => {
                let mut m = String::from_str("Translation key not found: ");
                m.append(s.as_str());
                m
            },
            I18nError::LoadError(s) => {
                let mut m = String::from_str("Failed to load translation resource: ");
                m.append(s.as_str());
                m
            },
            I18nError::UnsupportedLanguage(s) => {
                let mut m = String::from_str("Unsupported language: ");
                m.append(s.as_str());
                m
            },
            I18nError::FormatError(s) => {
                let mut m = String::from_str("Failed to format translation: ");
                m.append(s.as_str());
                m
            },
        }
    }
}

impl std::str::FromStr for Language {
    type Err = I18nError;

    fn from_str(s: &str) -> (r: Result<Language, I18nError>)
        ensures
            language_for_code(s@) matches Some(l) ==> r == Ok::<Language, I18nError>(l),
            language_for_code(s@) is None ==> (r matches Err(I18nError::UnsupportedLanguage(t)) && t@
                == s@),
    {
        Language::from_code(s)
    }
}

/// Parsing the code of a language gives that language back.
pub proof fn lemma_code_round_trip(l: Language)
    ensures
        language_for_code(language_code(l)) == Some(l),
{
    let c = language_code(l);
    assert(ascii_lowercase(c) =~= c);
    match l {
        Language::English => {
            assert(c != seq!['c', 's']);
        },
        Language::Czech => {
            assert(c != seq!['e', 'n']);
            assert(c != seq!['e', 'n', 'g', 'l', 'i', 's', 'h']);
        },
    }
}

/// The language a code names does not depend on the case of its letters.
pub proof fn lemma_code_case_insensitive(code: Seq<char>)
    ensures
        language_for_code(ascii_lowercase(code)) == language_for_code(code),
{
    crate::text::lemma_ascii_lowercase_idempotent(code);
}

} // verus!
