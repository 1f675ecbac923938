//! What can go wrong while an index file is loaded.

use vstd::prelude::*;
use vstd::std_specs::convert::FromSpecImpl;
use vstd::string::StringExecFns;

verus! {

/// A line that does not have the form that was expected.
#[derive(Debug)]
pub struct FormatError(String);

impl FormatError {
    /// The offending text.
    pub closed spec fn trouble(&self) -> Seq<char> {
        self.0@
    }

    /// The error for the offending text `trouble`.
    pub fn new(trouble: &str) -> (e: Self)
        ensures
            e.trouble() == trouble@,
    {
        FormatError(trouble.to_owned())
    }

    /// The sentence that names the offending text.
    pub fn message(&self) -> (m: String)
        ensures
            m@ == "illformed: "@ + self.trouble(),
    {
        String::from_str("illformed: ").concat(self.0.as_str())
    }

    /// What kind of error this is, in a few words.
    pub fn description(&self) -> (m: &'static str)
        ensures
            m@ == "unknown format."@,
    {
        "unknown format."
    }
}

/// The error of std's input and output, carried through as it came.
#[verifier::external_type_specification]
#[verifier::external_body]
pub struct ExIoError(std::io::Error);

/// The error of std's integer parsing, carried through as it came.
#[verifier::external_type_specification]
#[verifier::external_body]
pub struct ExParseIntError(std::num::ParseIntError);

/// Why an index file could not be loaded.
#[derive(Debug)]
pub enum LoadError {
    /// The file could not be read.
    Io(std::io::Error),
    /// A number in the file could not be parsed.
    Parse(std::num::ParseIntError),
    /// A line of the file has the wrong form.
    Format(FormatError),
}

impl From<std::io::Error> for LoadError {
    fn from(err: std::io::Error) -> (e: LoadError) {
        LoadError::Io(err)
    }
}

impl FromSpecImpl<std::io::Error> for LoadError {
    open spec fn obeys_from_spec() -> bool {
        true
    }

    open spec fn from_spec(err: std::io::Error) -> LoadError {
        LoadError::Io(err)
    }
}

impl From<std::num::ParseIntError> for LoadError {
    fn from(err: std::num::ParseIntError) -> (e: LoadError) {
        LoadError::Parse(err)
    }
}

impl FromSpecImpl<std::num::ParseIntError> for LoadError {
    open spec fn obeys_from_spec() -> bool {
        true
    }

    open spec fn from_spec(err: std::num::ParseIntError) -> LoadError {
        LoadError::Parse(err)
    }
}

impl From<FormatError> for LoadError {
    fn from(err: FormatError) -> (e: LoadError) {
        LoadError::Format(err)
    }
}

impl FromSpecImpl<FormatError> for LoadError {
    open spec fn obeys_from_spec() -> bool {
        true
    }

    open spec fn from_spec(err: FormatError) -> LoadError {
        LoadError::Format(err)
    }
}

} // verus!
