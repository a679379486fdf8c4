//! Normalizes an input into something seekable: a seekable input is used in
//! place, a non-seekable one (a pipe) is materialized into a temporary file
//! that lives exactly as long as this source.

use vstd::prelude::*;

use crate::errors::ViewerError;

verus! {

/// Declares tempfile::TempPath, the owning handle of a temporary file's path:
/// held only to keep the file alive until this source is dropped.
#[verifier::external_type_specification]
#[verifier::external_body]
pub struct ExTempPath(tempfile::TempPath);

/// Relies on tempfile::NamedTempFile::new, std::io::Write::write_all and
/// tempfile::NamedTempFile::into_temp_path: creates a fresh temporary file
/// holding exactly `bytes` and hands back its keep-alive handle (the file is
/// deleted when the handle drops) together with its path. `None` when
/// creating or writing fails or the path is not UTF-8. The outcome depends on
/// the filesystem, so nothing is promised of it.
#[verifier::external_body]
fn materialize_temp(bytes: &Vec<u8>) -> Option<(tempfile::TempPath, String)> {
    let mut f = tempfile::NamedTempFile::new().ok()?;
    std::io::Write::write_all(&mut f, bytes.as_slice()).ok()?;
    let path = f.path().to_str()?.to_string();
    Some((f.into_temp_path(), path))
}

/// An input normalized for random access: the original path when the input
/// was seekable, else a temporary copy of its content, owned exclusively and
/// removed when this source is dropped.
pub struct SeekableSource {
    original: String,
    temp: Option<tempfile::TempPath>,
    temp_path: Option<String>,
}

impl SeekableSource {
    /// The path the source was opened from.
    pub closed spec fn original_spec(self) -> Seq<char> {
        self.original@
    }

    /// Whether a temporary copy was made (only for non-seekable input).
    pub closed spec fn is_materialized_spec(self) -> bool {
        self.temp_path is Some
    }

    /// The path reads should go to.
    pub closed spec fn effective_spec(self) -> Seq<char> {
        match self.temp_path {
            Some(p) => p@,
            None => self.original@,
        }
    }

    /// The temporary handle and its recorded path exist together.
    pub closed spec fn wf(self) -> bool {
        self.temp is Some <==> self.temp_path is Some
    }

    /// Normalizes the input at `filename`. The caller probes seekability:
    /// `piped` is `None` for a seekable input (used in place, no copy), and
    /// holds the input's entire content otherwise, which is materialized
    /// into a temporary file. Fails with `IoError` exactly when that copy
    /// cannot be created.
    pub fn open(filename: String, piped: Option<Vec<u8>>) -> (r: Result<SeekableSource, ViewerError>)
        ensures
            piped is None ==> r is Ok,
            r matches Err(e) ==> e == ViewerError::IoError && piped is Some,
            r matches Ok(src) ==> {
                &&& src.wf()
                &&& src.original_spec() == filename@
                &&& (src.is_materialized_spec() <==> piped is Some)
                &&& (piped is None ==> src.effective_spec() == filename@)
            },
    {
        match piped {
            None => Ok(SeekableSource { original: filename, temp: None, temp_path: None }),
            Some(content) => match materialize_temp(&content) {
                Some((handle, path)) => Ok(
                    SeekableSource {
                        original: filename,
                        temp: Some(handle),
                        temp_path: Some(path),
                    },
                ),
                None => Err(ViewerError::IoError),
            },
        }
    }

    /// The path to read from: the temporary copy when one was made, else the
    /// original path.
    pub fn effective_path(&self) -> (r: &String)
        requires
            self.wf(),
        ensures
            r@ == self.effective_spec(),
            !self.is_materialized_spec() ==> r@ == self.original_spec(),
    {
        match &self.temp_path {
            Some(p) => p,
            None => &self.original,
        }
    }

    /// Whether this source reads from a temporary copy.
    pub fn is_materialized(&self) -> (r: bool)
        ensures
            r == self.is_materialized_spec(),
    {
        self.temp_path.is_some()
    }
}

} // verus!
