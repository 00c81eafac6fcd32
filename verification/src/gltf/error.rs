//! What is wrong with a document.

use crate::json;
use crate::text::{decimal_digits, decimal_text, join2, join3};
use vstd::prelude::*;
use vstd::string::*;

verus! {

/// Why a document was refused, with a byte offset where its text is at fault.
#[derive(Clone, Debug, PartialEq, Eq)]
pub struct GltfError {
    pub offset: Option<usize>,
    pub message: String,
}

impl GltfError {
    /// Whether this is the error without an offset that says `message`.
    pub open spec fn says(self, message: Seq<char>) -> bool {
        self.offset is None && self.message@ == message
    }

    pub fn new(message: &str) -> (result: GltfError)
        ensures
            result.says(message@),
    {
        GltfError { offset: None, message: message.to_owned() }
    }

    /// The error with this message, built from two pieces.
    pub fn about(first: &str, second: &str) -> (result: GltfError)
        ensures
            result.says(first@ + second@),
    {
        GltfError { offset: None, message: join2(first, second) }
    }

    /// The error with this message, built from three pieces.
    pub fn joined(first: &str, second: &str, third: &str) -> (result: GltfError)
        ensures
            result.says(first@ + second@ + third@),
    {
        GltfError { offset: None, message: join3(first, second, third) }
    }

    /// The error whose message holds a number.
    pub fn numbered(first: &str, number: usize, third: &str) -> (result: GltfError)
        ensures
            result.says(first@ + decimal_digits(number as nat) + third@),
    {
        let digits: String = decimal_text(number as u64);
        GltfError { offset: None, message: join3(first, digits.as_str(), third) }
    }

    pub fn at(offset: usize, message: &str) -> (result: GltfError)
        ensures
            result.offset == Some(offset),
            result.message@ == message@,
    {
        GltfError { offset: Some(offset), message: message.to_owned() }
    }

    /// A JSON error as a document error.
    pub fn from_json(error: json::Error) -> (result: GltfError)
        ensures
            result.offset == Some(error.offset),
            result.message@ == error.message@,
    {
        GltfError { offset: Some(error.offset), message: error.message }
    }

    /// The error as text, with its byte offset where it has one.
    pub fn to_text(&self) -> (result: String)
        ensures
            result@ == (match self.offset {
                Some(offset) => "byte "@ + decimal_digits(offset as nat) + ": "@ + self.message@,
                None => self.message@,
            }),
    {
        match self.offset {
            Some(offset) => {
                let mut text: String = join3("byte ", decimal_text(offset as u64).as_str(), ": ");
                text.append(self.message.as_str());
                text
            },
            None => self.message.clone(),
        }
    }
}

/// The message of a refusal, or what was found.
pub type Outcome<T> = Result<T, Seq<char>>;

/// Whether a result is the expected outcome.
pub open spec fn gives<T>(result: Result<T, GltfError>, expected: Outcome<T>) -> bool {
    match result {
        Ok(value) => expected == Ok::<T, Seq<char>>(value),
        Err(error) => error.offset is None && expected == Err::<T, Seq<char>>(error.message@),
    }
}

/// Whether a result, seen through `view`, is the expected outcome.
pub open spec fn yields<T, U>(
    result: Result<T, GltfError>,
    expected: Outcome<U>,
    view: spec_fn(T) -> U,
) -> bool {
    match result {
        Ok(value) => expected == Ok::<U, Seq<char>>(view(value)),
        Err(error) => error.offset is None && expected == Err::<U, Seq<char>>(error.message@),
    }
}

} // verus!
