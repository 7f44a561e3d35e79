//! The errors of the matcher.

use vstd::prelude::*;

verus! {

/// The two ways a run can fail: a malformed pattern or a subject outside
/// ASCII (`ErrRegex`), and an unreadable input file (`ErrArchivo`).
#[derive(Debug, Clone, Copy, PartialEq, Eq, Structural)]
pub enum GrepError {
    ErrRegex,
    ErrArchivo,
}

impl GrepError {
    /// The text shown to the user for this error.
    pub open spec fn message(self) -> Seq<char> {
        match self {
            GrepError::ErrRegex => ""@,
            GrepError::ErrArchivo => "No existe el archivo o el directorio"@,
        }
    }

    /// Renders the error as the text shown to the user.
    pub fn to_string(&self) -> (text: String)
        ensures
            text@ == self.message(),
    {
        match self {
            GrepError::ErrRegex => "".to_owned(),
            GrepError::ErrArchivo => "No existe el archivo o el directorio".to_owned(),
        }
    }
}

} // verus!
