use vstd::prelude::*;

use crate::errors::CdxError;

verus! {

/// `suffix` matches the tail of `path` component-wise: it is a
/// character suffix whose match starts at the beginning of the path or
/// right after a `/`. On canonical paths (absolute, `/`-separated, no
/// empty components) this is exactly the path-segment suffix test, so
/// `name` does not spuriously match `/a/longname`.
pub open spec fn is_component_suffix(path: Seq<char>, suffix: Seq<char>) -> bool {
    &&& suffix.len() > 0
    &&& suffix.len() <= path.len()
    &&& path.skip(path.len() - suffix.len()) == suffix
    &&& (path.len() == suffix.len() || path[path.len() - suffix.len() - 1] == '/')
}

/// The component-wise suffix test used by the shortcut strategy.
pub fn component_ends_with(path: &str, suffix: &str) -> (r: bool)
    ensures
        r == is_component_suffix(path@, suffix@),
{
    let plen = path.unicode_len();
    let slen = suffix.unicode_len();
    if slen == 0 || slen > plen {
        return false;
    }
    let off = plen - slen;
    let mut i: usize = 0;
    while i < slen
        invariant
            plen == path@.len(),
            slen == suffix@.len(),
            0 < slen <= plen,
            off == plen - slen,
            i <= slen,
            forall|j: int| 0 <= j < i ==> path@[off + j] == suffix@[j],
        decreases slen - i,
    {
        if path.get_char(off + i) != suffix.get_char(i) {
            proof {
                assert(path@.skip(off as int)[i as int] == path@[off + i]);
            }
            return false;
        }
        i += 1;
    }
    proof {
        assert(path@.skip(off as int) =~= suffix@);
    }
    if off == 0 {
        return true;
    }
    path.get_char(off - 1) == '/'
}

/// A directory path that was confirmed reachable: it existed, was a
/// directory and was canonicalized (absolute, symlink-free) at the
/// moment it was built.
#[derive(Debug, PartialEq, Eq)]
pub struct CanonicalPath {
    path: String,
}

impl View for CanonicalPath {
    type V = Seq<char>;

    closed spec fn view(&self) -> Seq<char> {
        self.path@
    }
}

/// Relies on std::path::Path::exists: whether the path exists on disk
/// at this moment. The filesystem alone decides, so nothing is promised
/// of the result.
#[verifier::external_body]
fn fs_exists(path: &String) -> bool {
    std::path::Path::new(path.as_str()).exists()
}

/// Relies on std::path::Path::is_dir: whether the path names a
/// directory on disk at this moment. The filesystem alone decides, so
/// nothing is promised of the result.
#[verifier::external_body]
fn fs_is_dir(path: &String) -> bool {
    std::path::Path::new(path.as_str()).is_dir()
}

/// Relies on std::path::Path::canonicalize: resolves symlinks and
/// relative segments to an absolute path. The result depends on the
/// disk, so nothing is promised of it beyond the shape.
#[verifier::external_body]
fn fs_canonicalize(path: &String) -> Result<String, String> {
    match std::path::Path::new(path.as_str()).canonicalize() {
        Ok(resolved) => Ok(resolved.display().to_string()),
        Err(e) => Err(e.to_string()),
    }
}

impl CanonicalPath {
    /// The canonical path as a string.
    pub fn as_string(&self) -> (r: &String)
        ensures
            r@ == self@,
    {
        &self.path
    }

    /// Rebuilds the handle from a canonical path the history recorded
    /// earlier: entries only ever hold paths that were validated when
    /// they were created.
    pub(crate) fn from_recorded(path: String) -> (r: CanonicalPath)
        ensures
            r@ == path@,
    {
        CanonicalPath { path }
    }

    /// Validates and canonicalizes `path`: fails with `NotFound` when
    /// nothing exists there, `NotADirectory` when it is not a
    /// directory, and `IoError` when the filesystem cannot resolve it.
    /// What canonical form comes back is the filesystem's to decide.
    pub fn from_path(path: String) -> (r: Result<CanonicalPath, CdxError>)
        ensures
            match r {
                Ok(_) => true,
                Err(e) => match e {
                    CdxError::NotFound(p) => p@ == path@,
                    CdxError::NotADirectory(p) => p@ == path@,
                    CdxError::IoError(_) => true,
                    _ => false,
                },
            },
    {
        if !fs_exists(&path) {
            return Err(CdxError::NotFound(path));
        }
        if !fs_is_dir(&path) {
            return Err(CdxError::NotADirectory(path));
        }
        match fs_canonicalize(&path) {
            Ok(resolved) => Ok(CanonicalPath { path: resolved }),
            Err(message) => Err(CdxError::IoError(message)),
        }
    }

    /// Validates and canonicalizes the path in `path`, borrowed form.
    pub fn from_string(path: &String) -> (r: Result<CanonicalPath, CdxError>)
        ensures
            match r {
                Ok(_) => true,
                Err(e) => match e {
                    CdxError::NotFound(p) => p@ == path@,
                    CdxError::NotADirectory(p) => p@ == path@,
                    CdxError::IoError(_) => true,
                    _ => false,
                },
            },
    {
        CanonicalPath::from_path(path.clone())
    }

    /// Component-wise suffix test against this path.
    pub fn ends_with(&self, suffix: &str) -> (r: bool)
        ensures
            r == is_component_suffix(self@, suffix@),
    {
        component_ends_with(self.path.as_str(), suffix)
    }
}

} // verus!
