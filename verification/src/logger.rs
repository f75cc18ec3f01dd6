//! The choice of the log level.

use crate::settings::Logger;
use tracing::Level;
use vstd::prelude::*;
use vstd::string::StringExecFns;

verus! {

/// A log level, from the most to the least urgent.
#[derive(Clone, Copy, Debug, PartialEq, Eq, Structural)]
pub enum LogLevel {
    Error,
    Warn,
    Info,
    Debug,
    Trace,
}

/// The lower-case form of an ASCII letter; any other character is its own.
pub open spec fn ascii_lower(c: char) -> char {
    if 'A' <= c <= 'Z' {
        ((c as u32) + 32) as char
    } else {
        c
    }
}

/// `text` is `name` up to the case of ASCII letters.
pub open spec fn names(text: Seq<char>, name: Seq<char>) -> bool {
    text.len() == name.len() && forall|i: int|
        0 <= i < text.len() ==> ascii_lower(#[trigger] text[i]) == name[i]
}

/// `text` is the decimal numeral of `value`: an optional plus sign, any number
/// of zeros, and the digit.
pub open spec fn numeral_of(text: Seq<char>, value: char) -> bool {
    let digits = if text.len() > 0 && text[0] == '+' {
        text.skip(1)
    } else {
        text
    };
    digits.len() > 0 && digits.last() == value && forall|i: int|
        0 <= i < digits.len() - 1 ==> #[trigger] digits[i] == '0'
}

/// The level that `text` stands for: its name in any case, or its number from
/// 1, the most urgent, to 5.
pub open spec fn level_of(text: Seq<char>) -> Option<LogLevel> {
    if names(text, "error"@) || numeral_of(text, '1') {
        Some(LogLevel::Error)
    } else if names(text, "warn"@) || numeral_of(text, '2') {
        Some(LogLevel::Warn)
    } else if names(text, "info"@) || numeral_of(text, '3') {
        Some(LogLevel::Info)
    } else if names(text, "debug"@) || numeral_of(text, '4') {
        Some(LogLevel::Debug)
    } else if names(text, "trace"@) || numeral_of(text, '5') {
        Some(LogLevel::Trace)
    } else {
        None
    }
}

/// Calls `tracing::Level`'s `FromStr`. Claims that it accepts the five level
/// names in any ASCII case and the numerals of 1 to 5, as [`level_of`] states,
/// and nothing else.
#[verifier::external_body]
fn parse_level(text: &str) -> (level: Option<LogLevel>)
    ensures
        level == level_of(text@),
{
    match text.parse::<Level>() {
        Ok(Level::ERROR) => Some(LogLevel::Error),
        Ok(Level::WARN) => Some(LogLevel::Warn),
        Ok(Level::INFO) => Some(LogLevel::Info),
        Ok(Level::DEBUG) => Some(LogLevel::Debug),
        Ok(Level::TRACE) => Some(LogLevel::Trace),
        Err(_) => None,
    }
}

/// The level to log at, and the complaint about a configured level that stands
/// for none.
#[derive(Clone, Debug)]
pub struct LevelChoice {
    pub level: LogLevel,
    pub complaint: Option<String>,
}

/// The level that `logger` configures, or `Info` with a complaint where its
/// text stands for no level.
pub fn choose_level(logger: &Logger) -> (choice: LevelChoice)
    ensures
        level_of(logger.level@) matches Some(level) ==> choice.level == level
            && choice.complaint is None,
        level_of(logger.level@) is None ==> choice.level == LogLevel::Info && (
        choice.complaint matches Some(complaint) && complaint@ == "Invalid log level: "@
            + logger.level@ + ", defaulting to INFO"@),
{
    match parse_level(logger.level.as_str()) {
        Some(level) => LevelChoice { level, complaint: None },
        None => {
            let mut complaint: String = String::from_str("Invalid log level: ");
            complaint.append(logger.level.as_str());
            complaint.append(", defaulting to INFO");
            LevelChoice { level: LogLevel::Info, complaint: Some(complaint) }
        },
    }
}

/// The case of ASCII letters does not matter in a name: two texts that end with a
/// letter and differ in case alone stand for the same level, or both for none.
pub proof fn case_does_not_matter_in_names(left: Seq<char>, right: Seq<char>)
    requires
        left.len() == right.len(),
        left.len() > 0,
        'A' <= left.last() <= 'Z' || 'a' <= left.last() <= 'z',
        forall|i: int|
            0 <= i < left.len() ==> #[trigger] left[i] == right[i] || ('A' <= left[i] <= 'Z'
                && right[i] as int == left[i] as int + 32) || ('A' <= right[i] <= 'Z'
                && left[i] as int == right[i] as int + 32),
    ensures
        level_of(left) == level_of(right),
{
    assert forall|i: int| 0 <= i < left.len() implies ascii_lower(#[trigger] left[i])
        == ascii_lower(right[i]) by {}
    assert forall|name: Seq<char>| #[trigger] names(left, name) == names(right, name) by {
        if names(left, name) {
            assert forall|i: int| 0 <= i < right.len() implies ascii_lower(#[trigger] right[i])
                == name[i] by {
                assert(ascii_lower(left[i]) == name[i]);
            }
        }
        if names(right, name) {
            assert forall|i: int| 0 <= i < left.len() implies ascii_lower(#[trigger] left[i])
                == name[i] by {
                assert(ascii_lower(right[i]) == name[i]);
            }
        }
    }
    let n = left.len() as int;
    assert(left.last() == left[n - 1]);
    assert(left.len() > 1 ==> left.skip(1).last() == left[n - 1]);
    assert(right.len() > 1 ==> right.skip(1).last() == right[n - 1]);
    assert(right[n - 1] == right.last());
}

} // verus!
