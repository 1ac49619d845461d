use vstd::prelude::*;

use crate::text::{dec_str, usize_to_string};

verus! {

/// Everything that can go wrong in one invocation of the navigation core.
///
/// Each variant carries the offending input or attempted path, so the
/// caller can surface it verbatim. All failures are terminal for the
/// current invocation; nothing is retried.
#[derive(Debug, PartialEq, Eq)]
pub enum CdxError {
    /// A path does not exist, or a history lookup came up empty.
    /// Carries the offending input (path, shortcut or revision text).
    NotFound(String),
    /// The path exists but is not a directory.
    NotADirectory(String),
    /// A revision outside `[1, search_size]`: carries the revision and
    /// the window bound it was checked against.
    OutOfRange(usize, usize),
    /// The filesystem could not resolve or write a path.
    IoError(String),
    /// The persisted history could not be decoded.
    CorruptStore(String),
}

impl CdxError {
    /// The message shown to the user, context included.
    pub open spec fn spec_message(&self) -> Seq<char> {
        match self {
            CdxError::NotFound(s) => "[error] not found: "@ + s@,
            CdxError::NotADirectory(s) => "[error] not a directory: "@ + s@,
            CdxError::OutOfRange(rv, n) => "[error] revision "@ + dec_str(*rv as nat)
                + " is out of range. (0 < r <= "@ + dec_str(*n as nat) + ")"@,
            CdxError::IoError(s) => "[error] io: "@ + s@,
            CdxError::CorruptStore(s) => "[fatal] corrupt history store: "@ + s@,
        }
    }

    /// Renders the error for the user, naming the offending input or
    /// attempted path.
    pub fn message(&self) -> (r: String)
        ensures
            r@ == self.spec_message(),
    {
        match self {
            CdxError::NotFound(s) => {
                let mut m = String::from_str("[error] not found: ");
                m.append(s.as_str());
                m
            },
            CdxError::NotADirectory(s) => {
                let mut m = String::from_str("[error] not a directory: ");
                m.append(s.as_str());
                m
            },
            CdxError::OutOfRange(rv, n) => {
                let mut m = String::from_str("[error] revision ");
                let rv_text = usize_to_string(*rv);
                m.append(rv_text.as_str());
                m.append(" is out of range. (0 < r <= ");
                let n_text = usize_to_string(*n);
                m.append(n_text.as_str());
                m.append(")");
                m
            },
            CdxError::IoError(s) => {
                let mut m = String::from_str("[error] io: ");
                m.append(s.as_str());
                m
            },
            CdxError::CorruptStore(s) => {
                let mut m = String::from_str("[fatal] corrupt history store: ");
                m.append(s.as_str());
                m
            },
        }
    }
}

} // verus!
