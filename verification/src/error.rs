use vstd::prelude::*;

verus! {

/// The error kinds the conversion surfaces. Every error is terminal: the run
/// aborts, no row is skipped and nothing is retried.
#[derive(Debug)]
pub enum Error {
    /// Reading the input stream or writing the output sink failed.
    Io(String),
    /// The header or a row cannot be parsed under the configured tabular
    /// format, or a row's width differs from the header's.
    MalformedInput(String),
    /// The configuration was rejected before any input was read, such as a
    /// non-ASCII delimiter or an unknown record-kind literal.
    ConfigurationError(String),
}

impl Error {
    /// The diagnostic text carried by the error.
    pub open spec fn message_view(&self) -> Seq<char> {
        match self {
            Error::Io(m) => m@,
            Error::MalformedInput(m) => m@,
            Error::ConfigurationError(m) => m@,
        }
    }

    /// The human-readable diagnostic carried by this error.
    pub fn message(&self) -> (m: &String)
        ensures
            m@ == self.message_view(),
    {
        match self {
            Error::Io(m) => m,
            Error::MalformedInput(m) => m,
            Error::ConfigurationError(m) => m,
        }
    }
}

} // verus!
