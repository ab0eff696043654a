//! What can go wrong when a minefield is loaded.

use vstd::prelude::*;
use vstd::string::StringExecFns;
use vstd::std_specs::convert::FromSpecImpl;
use crate::render::{decimal_text, push_decimal};

verus! {

/// `std::io::Error`: the error of a failed read or write, as the operating
/// system reported it.
#[verifier::external_type_specification]
#[verifier::external_body]
pub struct ExIoError(std::io::Error);

/// Why a text is no minefield.
#[derive(Debug, PartialEq, Eq, Structural)]
pub enum ParseGameError {
    /// The text holds no row: it is empty or all white space.
    EmptyInput,
    /// Row `row_index` is `actual` characters long where the first row is
    /// `expected` long.
    InconsistentRowLength { expected: usize, actual: usize, row_index: usize },
}

impl ParseGameError {
    /// The error in words.
    pub open spec fn text(&self) -> Seq<char> {
        match self {
            ParseGameError::EmptyInput => "Input text cannot be empty."@,
            ParseGameError::InconsistentRowLength { expected, actual, row_index } => {
                "Inconsistent row length at row "@ + decimal_text(*row_index as nat)
                    + ": expected "@ + decimal_text(*expected as nat) + ", but got "@
                    + decimal_text(*actual as nat)
            },
        }
    }

    /// The error in words.
    pub fn to_string(&self) -> (text: String)
        ensures
            text@ == self.text(),
    {
        match self {
            ParseGameError::EmptyInput => String::from_str("Input text cannot be empty."),
            ParseGameError::InconsistentRowLength { expected, actual, row_index } => {
                let mut text = String::from_str("Inconsistent row length at row ");
                push_decimal(&mut text, *row_index);
                text.append(": expected ");
                push_decimal(&mut text, *expected);
                text.append(", but got ");
                push_decimal(&mut text, *actual);
                text
            },
        }
    }
}

/// Why a minefield could not be loaded from a file.
#[derive(Debug)]
pub enum LoadGameError {
    /// The file could not be read.
    Io(std::io::Error),
    /// What the file holds is no minefield.
    Parse(ParseGameError),
}

/// Formats an `std::io::Error` with its `Display`. What it says is up to the
/// operating system, so nothing is claimed of it.
#[verifier::external_body]
fn io_error_text(err: &std::io::Error) -> String {
    format!("{}", err)
}

impl LoadGameError {
    /// The error in words: `I/O error: ` or `Parse error: `, and then what
    /// the error inside says.
    pub fn to_string(&self) -> (text: String)
        ensures
            match self {
                LoadGameError::Io(_) => "I/O error: "@.is_prefix_of(text@),
                LoadGameError::Parse(err) => text@ == "Parse error: "@ + err.text(),
            },
    {
        match self {
            LoadGameError::Io(err) => {
                let mut text = String::from_str("I/O error: ");
                let what = io_error_text(err);
                text.append(what.as_str());
                text
            },
            LoadGameError::Parse(err) => {
                let mut text = String::from_str("Parse error: ");
                let what = err.to_string();
                text.append(what.as_str());
                text
            },
        }
    }
}

impl From<std::io::Error> for LoadGameError {
    fn from(err: std::io::Error) -> (error: LoadGameError) {
        LoadGameError::Io(err)
    }
}

impl FromSpecImpl<std::io::Error> for LoadGameError {
    open spec fn obeys_from_spec() -> bool {
        true
    }

    open spec fn from_spec(err: std::io::Error) -> LoadGameError {
        LoadGameError::Io(err)
    }
}

impl From<ParseGameError> for LoadGameError {
    fn from(err: ParseGameError) -> (error: LoadGameError) {
        LoadGameError::Parse(err)
    }
}

impl FromSpecImpl<ParseGameError> for LoadGameError {
    open spec fn obeys_from_spec() -> bool {
        true
    }

    open spec fn from_spec(err: ParseGameError) -> LoadGameError {
        LoadGameError::Parse(err)
    }
}

} // verus!
