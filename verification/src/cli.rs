use vstd::prelude::*;

use crate::opts::Opts;
use crate::text::{is_usize_numeral, numeral_val, parse_usize};

verus! {

/// The typed form of the positional argument, following the `^` sigil
/// convention: plain text is a literal path (empty meaning home, `-`
/// meaning the previous directory), `^` alone asks for the interactive
/// pick, `^<int>` for a revision, and any other `^<text>` for a
/// path-suffix shortcut.
#[derive(Debug, PartialEq, Eq)]
pub enum DirArgs {
    /// A literal path, the empty string, or `-`.
    BulitIn(String),
    /// `^` alone: pick from the displayed window.
    Interactive,
    /// `^<text>`: a path-suffix shortcut.
    Shortcut(String),
    /// `^<int>`: a 1-based revision.
    Revision(usize),
}

impl Clone for DirArgs {
    fn clone(&self) -> (r: Self)
        ensures
            r == *self,
    {
        match self {
            DirArgs::BulitIn(s) => DirArgs::BulitIn(s.clone()),
            DirArgs::Interactive => DirArgs::Interactive,
            DirArgs::Shortcut(s) => DirArgs::Shortcut(s.clone()),
            DirArgs::Revision(v) => DirArgs::Revision(*v),
        }
    }
}

/// `r` is the request variant that the raw argument `s` denotes.
pub open spec fn classifies(s: Seq<char>, r: DirArgs) -> bool {
    if s.len() == 0 || s[0] != '^' {
        r matches DirArgs::BulitIn(d) && d@ == s
    } else {
        let rest = s.skip(1);
        if rest.len() == 0 {
            r == DirArgs::Interactive
        } else if is_usize_numeral(rest) {
            r matches DirArgs::Revision(v) && v as nat == numeral_val(rest)
        } else {
            r matches DirArgs::Shortcut(t) && t@ == rest
        }
    }
}

impl DirArgs {
    /// Maps a raw positional argument to its request variant. A `^`
    /// followed by text that is not a numeral fitting `usize` is a
    /// shortcut, exactly as the numeral parser decides it.
    pub fn parse(s: &str) -> (r: DirArgs)
        ensures
            classifies(s@, r),
    {
        let len = s.unicode_len();
        if len == 0 || s.get_char(0) != '^' {
            return DirArgs::BulitIn(s.to_owned());
        }
        let rest = s.substring_char(1, len);
        proof {
            assert(rest@ =~= s@.skip(1));
        }
        if rest.unicode_len() == 0 {
            DirArgs::Interactive
        } else {
            match parse_usize(rest) {
                Some(v) => DirArgs::Revision(v),
                None => DirArgs::Shortcut(rest.to_owned()),
            }
        }
    }
}

/// The parsed command line, shorn of flag syntax: the optional
/// directory request, and the non-navigation options.
pub struct Cli {
    pub dir: Option<DirArgs>,
    pub show_history: bool,
    pub learn: Option<String>,
}

impl Cli {
    /// The directory request; an absent argument means the empty
    /// literal, which resolves to the home directory.
    pub fn dir(&self) -> (r: DirArgs)
        ensures
            match self.dir {
                Some(d) => r == d,
                None => r matches DirArgs::BulitIn(s) && s@ == Seq::<char>::empty(),
            },
    {
        match &self.dir {
            Some(d) => d.clone(),
            None => DirArgs::BulitIn(String::new()),
        }
    }

    /// The non-navigation option asked for, listing taking precedence
    /// over learning.
    pub fn opt(&self) -> (r: Option<Opts>)
        ensures
            match r {
                Some(o) => if self.show_history {
                    o == Opts::ShowHistory
                } else {
                    o matches Opts::Learn(d) && self.learn matches Some(l) && d@ == l@
                },
                None => !self.show_history && self.learn is None,
            },
    {
        if self.show_history {
            Some(Opts::ShowHistory)
        } else {
            match &self.learn {
                Some(learn) => Some(Opts::Learn(learn.clone())),
                None => None,
            }
        }
    }
}

} // verus!
