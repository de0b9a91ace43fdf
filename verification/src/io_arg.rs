use vstd::prelude::*;
use vstd::string::*;

use crate::error::Error;

verus! {

/// IO argument for command-line use: either a standard stream or a file
/// path. The standard stream is written as "-" on the command line, so a
/// file actually named "-" cannot be addressed.
#[derive(Debug)]
pub enum IoArg {
    /// Connected to the standard input or output stream.
    StdStream,
    /// Connected to the file at the contained path.
    File(String),
}

impl IoArg {
    /// The argument names a file rather than a standard stream.
    pub fn is_file(&self) -> (r: bool)
        ensures
            r == (self matches IoArg::File(_)),
    {
        match self {
            IoArg::StdStream => false,
            IoArg::File(_) => true,
        }
    }

    /// Parses a command-line IO argument: "-" selects the standard stream,
    /// anything else is a file path. Parsing cannot fail.
    pub fn from_str(s: &str) -> (r: IoArg)
        ensures
            s@ == "-"@ ==> r is StdStream,
            s@ != "-"@ ==> (r matches IoArg::File(p) && p@ == s@),
    {
        let owned = s.to_owned();
        if owned == String::from_str("-") {
            IoArg::StdStream
        } else {
            IoArg::File(owned)
        }
    }
}

/// The path's final component ends in a `.gz` extension with a non-empty
/// stem. Trailing separators are not stripped.
pub open spec fn has_gz_extension_spec(path: Seq<char>) -> bool {
    &&& path.len() >= 4
    &&& path[path.len() - 3] == '.'
    &&& path[path.len() - 2] == 'g'
    &&& path[path.len() - 1] == 'z'
    &&& path[path.len() - 4] != '/'
}

/// Returns true if the path ends in a `.gz` extension: the magic ending that
/// selects transparent gzip coding for a file argument.
pub fn has_gz_extension(path: &str) -> (r: bool)
    ensures
        r == has_gz_extension_spec(path@),
{
    let n = path.unicode_len();
    if n < 4 {
        return false;
    }
    path.get_char(n - 3) == '.' && path.get_char(n - 2) == 'g' && path.get_char(n - 1) == 'z'
        && path.get_char(n - 4) != '/'
}

/// Narrows a delimiter character to its single byte. Only ASCII delimiters
/// are supported: the parser matches the delimiter on raw bytes while
/// interpreting content as UTF-8, so any wider character is rejected with a
/// configuration error before any I/O begins.
pub fn delimiter_byte(c: char) -> (r: Result<u8, Error>)
    ensures
        (c as u32) < 128 ==> r is Ok,
        (c as u32) >= 128 ==> r is Err,
        r matches Ok(b) ==> b as u32 == c as u32,
        r matches Err(e) ==> e is ConfigurationError,
{
    let code = c as u32;
    if code < 128 {
        Ok(code as u8)
    } else {
        Err(Error::ConfigurationError(String::from_str(
            "only ASCII delimiters are supported",
        )))
    }
}

} // verus!
