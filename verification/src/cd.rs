use vstd::prelude::*;

use crate::config::CdxConfig;
use crate::errors::CdxError;
use crate::history::{promote, views_of, window, Entry, EntryV, History};
use crate::path::{component_ends_with, is_component_suffix, CanonicalPath};
use crate::text::{dec_str, is_single_char, push_char, usize_to_string};

verus! {

/// The resolution engine: each strategy turns a user request plus the
/// current history window into a validated directory, and records the
/// visit through the store's one mutation primitive.
pub struct CD;

/// The index of the first entry of `w` (a most-recent-first window)
/// whose canonical path ends, component-wise, with `s`.
pub open spec fn shortcut_match(w: Seq<EntryV>, s: Seq<char>) -> Option<int>
    decreases w.len(),
{
    if w.len() == 0 {
        None
    } else if is_component_suffix(w[0].canonical, s) {
        Some(0int)
    } else {
        match shortcut_match(w.skip(1), s) {
            None => None,
            Some(i) => Some(i + 1),
        }
    }
}

proof fn lemma_shortcut_match_at(w: Seq<EntryV>, s: Seq<char>, i: int)
    requires
        0 <= i < w.len(),
        is_component_suffix(w[i].canonical, s),
        forall|j: int| 0 <= j < i ==> !is_component_suffix(#[trigger] w[j].canonical, s),
    ensures
        shortcut_match(w, s) == Some(i),
    decreases i,
{
    if i == 0 {
    } else {
        assert(!is_component_suffix(w[0].canonical, s));
        assert(w.skip(1)[i - 1] == w[i]);
        assert(forall|j: int|
            0 <= j < i - 1 ==> !is_component_suffix(#[trigger] w.skip(1)[j].canonical, s)) by {
            assert forall|j: int|
                0 <= j < i - 1 implies !is_component_suffix(
                #[trigger] w.skip(1)[j].canonical,
                s,
            ) by {
                assert(w.skip(1)[j] == w[j + 1]);
            }
        }
        lemma_shortcut_match_at(w.skip(1), s, i - 1);
    }
}

proof fn lemma_shortcut_match_none(w: Seq<EntryV>, s: Seq<char>)
    requires
        forall|j: int| 0 <= j < w.len() ==> !is_component_suffix(#[trigger] w[j].canonical, s),
    ensures
        shortcut_match(w, s) is None,
    decreases w.len(),
{
    if w.len() > 0 {
        assert(forall|j: int|
            0 <= j < w.skip(1).len() ==> !is_component_suffix(
                #[trigger] w.skip(1)[j].canonical,
                s,
            )) by {
            assert forall|j: int|
                0 <= j < w.skip(1).len() implies !is_component_suffix(
                #[trigger] w.skip(1)[j].canonical,
                s,
            ) by {
                assert(w.skip(1)[j] == w[j + 1]);
            }
        }
        lemma_shortcut_match_none(w.skip(1), s);
    }
}

/// What resolving revision `rev` against history `pre` under window
/// bound `n` returns and leaves behind: `OutOfRange` outside
/// `[1, n]`, the entry at index `rev` of the most-recent-first window
/// re-tagged `^<rev>` and promoted when it exists, `NotFound`
/// otherwise. Index `rev`, not `rev - 1`: the freshest entry is the
/// directory the user is coming from, and revision 1 is the one
/// before it.
pub open spec fn revision_outcome(
    pre: Seq<EntryV>,
    n: usize,
    rev: usize,
    r: Result<CanonicalPath, CdxError>,
    post: Seq<EntryV>,
) -> bool {
    let w = window(pre, n as nat);
    if rev < 1 || rev > n {
        &&& r matches Err(e) && e == CdxError::OutOfRange(rev, n)
        &&& post == pre
    } else if (rev as int) < w.len() {
        &&& r matches Ok(p) && p@ == w[rev as int].canonical
        &&& post == promote(
            pre,
            EntryV {
                raw: seq!['^'] + dec_str(rev as nat),
                canonical: w[rev as int].canonical,
            },
        )
    } else {
        &&& r matches Err(e) && e matches CdxError::NotFound(t) && t@ == dec_str(rev as nat)
        &&& post == pre
    }
}

impl CD {
    /// The direct strategy: an empty request goes to the home
    /// directory, `-` is the alias for revision 1 (one entry before
    /// the most recent), and anything else is a literal path. The
    /// confirmed directory is recorded with `raw` = the literal input.
    pub fn builtin(config: &CdxConfig, history: &mut History, dest: String, home: String) -> (r:
        Result<CanonicalPath, CdxError>)
        ensures
            ({
                if dest@ == seq!['-'] {
                    revision_outcome(
                        old(history)@,
                        config.spec_search_size(),
                        1,
                        r,
                        final(history)@,
                    )
                } else {
                    let target = if dest@.len() == 0 {
                        home@
                    } else {
                        dest@
                    };
                    match r {
                        Ok(p) => final(history)@ == promote(
                            old(history)@,
                            EntryV { raw: dest@, canonical: p@ },
                        ),
                        Err(e) => {
                            &&& final(history)@ == old(history)@
                            &&& match e {
                                CdxError::NotFound(t) => t@ == target,
                                CdxError::NotADirectory(t) => t@ == target,
                                CdxError::IoError(_) => true,
                                _ => false,
                            }
                        },
                    }
                }
            }),
    {
        if is_single_char(dest.as_str(), '-') {
            return Self::revision(config, history, 1);
        }
        let resolved = if dest.as_str().unicode_len() == 0 {
            CanonicalPath::from_path(home)
        } else {
            CanonicalPath::from_string(&dest)
        };
        match resolved {
            Ok(p) => {
                let entry = Entry::new(dest, p.as_string().clone());
                history.append_last(entry);
                Ok(p)
            },
            Err(e) => Err(e),
        }
    }

    /// The shortcut strategy: scan the window most-recent-first and
    /// take the first entry whose canonical path ends with `input`
    /// component-wise; re-promote it tagged `^<input>`. No match
    /// fails with `NotFound` naming the shortcut.
    pub fn shortcut(config: &CdxConfig, history: &mut History, input: String) -> (r: Result<
        CanonicalPath,
        CdxError,
    >)
        ensures
            ({
                let w = window(old(history)@, config.spec_search_size() as nat);
                match shortcut_match(w, input@) {
                    Some(i) => {
                        &&& r matches Ok(p) && p@ == w[i].canonical
                        &&& final(history)@ == promote(
                            old(history)@,
                            EntryV { raw: seq!['^'] + input@, canonical: w[i].canonical },
                        )
                    },
                    None => {
                        &&& r matches Err(e) && e matches CdxError::NotFound(t) && t@ == input@
                        &&& final(history)@ == old(history)@
                    },
                }
            }),
    {
        let search_size = config.search_size();
        let entries = history.read(search_size);
        let ghost w = window(history@, config.spec_search_size() as nat);
        let mut i: usize = 0;
        while i < entries.len()
            invariant
                i <= entries@.len(),
                views_of(entries@) == w,
                history@ == old(history)@,
                w == window(old(history)@, config.spec_search_size() as nat),
                forall|j: int|
                    0 <= j < i ==> !is_component_suffix(#[trigger] w[j].canonical, input@),
            decreases entries@.len() - i,
        {
            if component_ends_with(entries[i].canonical.as_str(), input.as_str()) {
                proof {
                    assert(entries@[i as int]@ == w[i as int]);
                    lemma_shortcut_match_at(w, input@, i as int);
                }
                let mut tag = String::new();
                push_char(&mut tag, '^');
                tag.append(input.as_str());
                proof {
                    assert(tag@ =~= seq!['^'] + input@);
                }
                let entry = &entries[i];
                let to_append = entry.with_raw(tag);
                let p = CanonicalPath::from_recorded(entry.canonical.clone());
                history.append_last(to_append);
                return Ok(p);
            }
            proof {
                assert(entries@[i as int]@ == w[i as int]);
            }
            i += 1;
        }
        proof {
            lemma_shortcut_match_none(w, input@);
        }
        Err(CdxError::NotFound(input))
    }

    /// The revision strategy: see [`revision_outcome`].
    pub fn revision(config: &CdxConfig, history: &mut History, revision: usize) -> (r: Result<
        CanonicalPath,
        CdxError,
    >)
        ensures
            revision_outcome(
                old(history)@,
                config.spec_search_size(),
                revision,
                r,
                final(history)@,
            ),
    {
        let search_size = config.search_size();
        if revision < 1 || revision > search_size {
            return Err(CdxError::OutOfRange(revision, search_size));
        }
        let entries = history.read(search_size);
        if revision < entries.len() {
            let mut tag = String::new();
            push_char(&mut tag, '^');
            let num = usize_to_string(revision);
            tag.append(num.as_str());
            proof {
                assert(tag@ =~= seq!['^'] + dec_str(revision as nat));
                assert(entries@[revision as int]@ == window(
                    history@,
                    config.spec_search_size() as nat,
                )[revision as int]);
            }
            let entry = &entries[revision];
            let to_append = entry.with_raw(tag);
            let p = CanonicalPath::from_recorded(entry.canonical.clone());
            history.append_last(to_append);
            Ok(p)
        } else {
            Err(CdxError::NotFound(usize_to_string(revision)))
        }
    }

    /// The record step of the interactive strategy: the presentation
    /// adapter displayed the window and returned the chosen entry
    /// unchanged; it is re-promoted tagged `^(selected)`.
    pub fn interactive(history: &mut History, selection: Entry) -> (r: CanonicalPath)
        ensures
            r@ == selection@.canonical,
            final(history)@ == promote(
                old(history)@,
                EntryV { raw: "^(selected)"@, canonical: selection@.canonical },
            ),
    {
        let tag = String::from_str("^(selected)");
        let to_append = selection.with_raw(tag);
        let p = CanonicalPath::from_recorded(selection.canonical.clone());
        history.append_last(to_append);
        p
    }
}

} // verus!
