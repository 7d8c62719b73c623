use vstd::prelude::*;

verus! {

/// An error from one of this crate's parsers.
#[derive(Debug)]
pub enum Error {
    Todo(String),
}

/// The result type of this crate's parsers.
pub type Result<T> = core::result::Result<T, Error>;

impl Error {
    /// The message carried by this error.
    pub open spec fn message(&self) -> Seq<char> {
        match self {
            Error::Todo(s) => s@,
        }
    }

    /// The message carried by this error, as a string.
    pub fn to_message(&self) -> (s: String)
        ensures
            s@ == self.message(),
    {
        match self {
            Error::Todo(s) => s.clone(),
        }
    }
}

impl From<String> for Error {
    fn from(err: String) -> (e: Error) {
        Error::Todo(err)
    }
}

impl vstd::std_specs::convert::FromSpecImpl<String> for Error {
    open spec fn obeys_from_spec() -> bool {
        true
    }

    open spec fn from_spec(v: String) -> Error {
        Error::Todo(v)
    }
}

} // verus!
