//! Validation of the delimiter argument, before any file is touched.

use vstd::prelude::*;

use crate::errors::ViewerError;
use crate::parse::is_valid_delimiter;

verus! {

/// Parses the delimiter argument: accepted exactly when it is one printable
/// ASCII character, whose code is returned as the delimiter byte. The
/// argument is rejected before any input is read.
pub fn parse_delimiter(s: &str) -> (r: Result<u8, &'static str>)
    ensures
        r is Ok <==> (s@.len() == 1 && 0x20 <= (s@[0] as u32) <= 0x7e),
        r matches Ok(b) ==> b as int == s@[0] as int && is_valid_delimiter(b),
        r matches Err(e) ==> e@ == "Delimiter should be one ascii character"@,
{
    let err = "Delimiter should be one ascii character";
    let n = s.unicode_len();
    if n != 1 {
        return Err(err);
    }
    let c = s.get_char(0);
    let code = c as u32;
    if 0x20 <= code && code <= 0x7e {
        Ok(code as u8)
    } else {
        Err(err)
    }
}

/// The same validation with the library's error: a delimiter argument that is
/// not one printable ASCII character is a `ConfigError`, raised before any
/// input is read.
pub fn delimiter_from_arg(s: &str) -> (r: Result<u8, ViewerError>)
    ensures
        r is Ok <==> (s@.len() == 1 && 0x20 <= (s@[0] as u32) <= 0x7e),
        r matches Ok(b) ==> b as int == s@[0] as int && is_valid_delimiter(b),
        r matches Err(e) ==> e == ViewerError::ConfigError,
{
    match parse_delimiter(s) {
        Ok(b) => Ok(b),
        Err(_) => Err(ViewerError::ConfigError),
    }
}

} // verus!
