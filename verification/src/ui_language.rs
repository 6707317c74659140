//! The interface language, independent of the ASR and summary languages.
//!
//! The language is a value the caller holds; `text` picks the string for it.
use vstd::prelude::*;
use crate::text::str_eq;

verus! {

/// The two interface languages the application ships.
#[derive(Clone, Copy, Debug, PartialEq, Eq, Structural)]
pub enum UiLanguage {
    English,
    Chinese,
}

/// The interface string for `language`: `zh` in Chinese, `en` otherwise.
pub fn text(language: UiLanguage, en: &'static str, zh: &'static str) -> (result: &'static str)
    ensures
        result@ == (if language == UiLanguage::Chinese { zh@ } else { en@ }),
{
    match language {
        UiLanguage::Chinese => zh,
        UiLanguage::English => en,
    }
}

pub fn is_chinese(language: UiLanguage) -> (result: bool)
    ensures
        result == (language == UiLanguage::Chinese),
{
    match language {
        UiLanguage::Chinese => true,
        UiLanguage::English => false,
    }
}

/// The language a settings tag selects: `zh-CN` and `en`, nothing else.
pub open spec fn language_for_tag(tag: Seq<char>) -> Option<UiLanguage> {
    if tag == "zh-CN"@ {
        Some(UiLanguage::Chinese)
    } else if tag == "en"@ {
        Some(UiLanguage::English)
    } else {
        None
    }
}

/// Reads a settings tag; any other tag is refused with the message the
/// settings command reports.
pub fn parse_ui_language(tag: &str) -> (result: Result<UiLanguage, String>)
    ensures
        match result {
            Ok(language) => language_for_tag(tag@) == Some(language),
            Err(e) => language_for_tag(tag@) is None && e@ == "Unsupported interface language"@,
        },
{
    if str_eq(tag, "zh-CN") {
        Ok(UiLanguage::Chinese)
    } else if str_eq(tag, "en") {
        Ok(UiLanguage::English)
    } else {
        Err(crate::text::owned("Unsupported interface language"))
    }
}

} // verus!
