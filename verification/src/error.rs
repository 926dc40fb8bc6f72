//! The failure kinds of loading and exporting: an I/O failure reported
//! by the caller, unparsable input, or a missing input directory or file.

use vstd::prelude::*;

verus! {

/// Why a run failed.
#[derive(Clone, Debug)]
pub enum Error {
    /// A filesystem read, write or create failed; holds the reported text.
    Io(String),
    /// The input file is not a JSON array of records; holds a diagnostic.
    Parse(String),
    /// The input directory is absent or not a directory; holds its path.
    InputDir(String),
    /// The input file is absent or not a file; holds its path.
    InputFile(String),
}

/// The diagnostic text for `e`: a fixed prefix naming the kind, then the
/// detail the variant carries.
pub open spec fn error_message_spec(e: Error) -> Seq<char> {
    match e {
        Error::Io(m) => ("IO Error: ")@ + m@,
        Error::Parse(m) => ("Parse Error: ")@ + m@,
        Error::InputDir(p) => ("Input Directory Error: ")@ + p@,
        Error::InputFile(p) => ("Input File Error: ")@ + p@,
    }
}

impl Error {
    /// The human-readable diagnostic for this error.
    pub fn message(&self) -> (r: String)
        ensures
            r@ == error_message_spec(*self),
    {
        match self {
            Error::Io(m) => String::from_str("IO Error: ").concat(m.as_str()),
            Error::Parse(m) => String::from_str("Parse Error: ").concat(m.as_str()),
            Error::InputDir(p) => String::from_str("Input Directory Error: ").concat(p.as_str()),
            Error::InputFile(p) => String::from_str("Input File Error: ").concat(p.as_str()),
        }
    }
}

} // verus!
