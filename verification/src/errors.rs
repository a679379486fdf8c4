use vstd::prelude::*;

verus! {

/// Error taxonomy of the viewer core.
///
/// `IoError` covers open/read/seek failures on the source or its temporary
/// copy, `ConfigError` an invalid delimiter specification, and `ParseError` a
/// row that could not be split according to the configured delimiter.
#[derive(Clone, Copy, Debug, PartialEq, Eq, Structural)]
pub enum ViewerError {
    IoError,
    ConfigError,
    ParseError,
}

} // verus!
