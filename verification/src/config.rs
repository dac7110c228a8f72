//! What a run of the cutting tool is set up with: the delimiter of its
//! fields and the one kind of extraction that was asked for.

use std::ops::Range;
use vstd::prelude::*;
use vstd::string::*;
use vstd::utf8::encode_utf8;
use crate::positions::{
    failure_message,
    parse_outcome,
    parse_pos,
    ranges_view,
    ParseError,
    ParseFailure,
};

verus! {

/// The kind of extraction, with its position list.
#[derive(Debug, PartialEq, Eq)]
pub enum Extract {
    Fields(Vec<Range<usize>>),
    Bytes(Vec<Range<usize>>),
    Chars(Vec<Range<usize>>),
}

/// The mathematical value of an `Extract`.
pub enum ExtractView {
    Fields(Seq<(nat, nat)>),
    Bytes(Seq<(nat, nat)>),
    Chars(Seq<(nat, nat)>),
}

impl View for Extract {
    type V = ExtractView;

    open spec fn view(&self) -> ExtractView {
        match *self {
            Extract::Fields(ranges) => ExtractView::Fields(ranges_view(ranges@)),
            Extract::Bytes(ranges) => ExtractView::Bytes(ranges_view(ranges@)),
            Extract::Chars(ranges) => ExtractView::Chars(ranges_view(ranges@)),
        }
    }
}

/// Why a run cannot be set up.
#[derive(Debug, PartialEq, Eq)]
pub enum ConfigError {
    /// The delimiter is not one byte long. Carries the delimiter.
    Delimiter(String),
    /// Not exactly one of fields, bytes and characters was asked for.
    Mode,
    /// The position list was refused.
    Positions(ParseError),
}

/// The mathematical value of a `ConfigError`.
pub enum ConfigFailure {
    Delimiter(Seq<char>),
    Mode,
    Positions(ParseFailure),
}

impl View for ConfigError {
    type V = ConfigFailure;

    open spec fn view(&self) -> ConfigFailure {
        match *self {
            ConfigError::Delimiter(delimiter) => ConfigFailure::Delimiter(delimiter@),
            ConfigError::Mode => ConfigFailure::Mode,
            ConfigError::Positions(e) => ConfigFailure::Positions(e@),
        }
    }
}

/// The message that reports a failure.
pub open spec fn config_message(failure: ConfigFailure) -> Seq<char> {
    match failure {
        ConfigFailure::Delimiter(delimiter) => "--delim \""@ + delimiter
            + "\" must be a single byte"@,
        ConfigFailure::Mode => "Must have --fields, --bytes, or -- chars"@,
        ConfigFailure::Positions(e) => failure_message(e),
    }
}

impl ConfigError {
    /// The message that reports this error.
    pub fn message(&self) -> (text: String)
        ensures
            text@ == config_message(self@),
    {
        match self {
            ConfigError::Delimiter(delimiter) => String::from_str("--delim \"").concat(
                delimiter.as_str(),
            ).concat("\" must be a single byte"),
            ConfigError::Mode => String::from_str("Must have --fields, --bytes, or -- chars"),
            ConfigError::Positions(e) => e.message(),
        }
    }
}

/// What a delimiter gives: its one byte, or the failure that names it.
pub open spec fn delimiter_outcome(delimiter: Seq<char>) -> Result<u8, ConfigFailure> {
    let bytes = encode_utf8(delimiter);
    if bytes.len() == 1 {
        Ok(bytes[0])
    } else {
        Err(ConfigFailure::Delimiter(delimiter))
    }
}

/// The byte of a delimiter. A delimiter whose UTF-8 form is not exactly one
/// byte long is refused.
pub fn delimiter_byte(delimiter: &str) -> (res: Result<u8, ConfigError>)
    ensures
        match res {
            Ok(b) => delimiter_outcome(delimiter@) == Ok::<u8, ConfigFailure>(b),
            Err(e) => delimiter_outcome(delimiter@) == Err::<u8, ConfigFailure>(e@),
        },
{
    let bytes = delimiter.as_bytes();
    if bytes.len() != 1 {
        Err(ConfigError::Delimiter(delimiter.to_owned()))
    } else {
        Ok(bytes[0])
    }
}

/// What the three options give: if exactly one is there, the extraction of
/// its kind with its list parsed, or the failure of that list; else the
/// failure that asks for one.
pub open spec fn extract_outcome(
    fields: Option<Seq<char>>,
    bytes: Option<Seq<char>>,
    chars: Option<Seq<char>>,
) -> Result<ExtractView, ConfigFailure> {
    match (fields, bytes, chars) {
        (Some(list), None, None) => match parse_outcome(list) {
            Ok(ranges) => Ok(ExtractView::Fields(ranges)),
            Err(e) => Err(ConfigFailure::Positions(e)),
        },
        (None, Some(list), None) => match parse_outcome(list) {
            Ok(ranges) => Ok(ExtractView::Bytes(ranges)),
            Err(e) => Err(ConfigFailure::Positions(e)),
        },
        (None, None, Some(list)) => match parse_outcome(list) {
            Ok(ranges) => Ok(ExtractView::Chars(ranges)),
            Err(e) => Err(ConfigFailure::Positions(e)),
        },
        _ => Err(ConfigFailure::Mode),
    }
}

/// The text of an option that may be absent.
pub open spec fn option_text(option: Option<String>) -> Option<Seq<char>> {
    match option {
        Some(text) => Some(text@),
        None => None,
    }
}

/// Chooses the extraction from the three options, of which exactly one
/// must be there, and parses its position list.
pub fn choose_extract(fields: Option<String>, bytes: Option<String>, chars: Option<String>) -> (res:
    Result<Extract, ConfigError>)
    ensures
        match res {
            Ok(extract) => extract_outcome(
                option_text(fields),
                option_text(bytes),
                option_text(chars),
            ) == Ok::<ExtractView, ConfigFailure>(extract@),
            Err(e) => extract_outcome(option_text(fields), option_text(bytes), option_text(chars))
                == Err::<ExtractView, ConfigFailure>(e@),
        },
{
    match (fields, bytes, chars) {
        (Some(list), None, None) => match parse_pos(list) {
            Ok(ranges) => Ok(Extract::Fields(ranges)),
            Err(e) => Err(ConfigError::Positions(e)),
        },
        (None, Some(list), None) => match parse_pos(list) {
            Ok(ranges) => Ok(Extract::Bytes(ranges)),
            Err(e) => Err(ConfigError::Positions(e)),
        },
        (None, None, Some(list)) => match parse_pos(list) {
            Ok(ranges) => Ok(Extract::Chars(ranges)),
            Err(e) => Err(ConfigError::Positions(e)),
        },
        _ => Err(ConfigError::Mode),
    }
}

} // verus!
