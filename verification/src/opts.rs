use vstd::prelude::*;

use crate::config::CdxConfig;
use crate::errors::CdxError;
use crate::history::{views_of, window, EntryV, History};
use crate::text::{dec_str, push_char, usize_to_string};

verus! {

/// The non-navigation modes of the tool.
pub enum Opts {
    /// List the recency window of the history.
    ShowHistory,
    /// Remember a directory by name (not offered by this core).
    Learn(String),
}

/// One listing line: `<index>: <canonical> <<raw>>`, the index being
/// the position in the most-recent-first window.
pub open spec fn render_entry(i: nat, e: EntryV) -> Seq<char> {
    dec_str(i) + seq![':', ' '] + e.canonical + seq![' ', '<'] + e.raw + seq!['>']
}

/// The listing of `w` starting at index `i`, one line per entry,
/// joined with newlines.
pub open spec fn render_lines(w: Seq<EntryV>, i: nat) -> Seq<char>
    decreases w.len(),
{
    if w.len() == 0 {
        Seq::empty()
    } else if w.len() == 1 {
        render_entry(i, w[0])
    } else {
        render_entry(i, w[0]) + seq!['\n'] + render_lines(w.skip(1), i + 1)
    }
}

proof fn lemma_render_lines_snoc(w: Seq<EntryV>, e: EntryV, i: nat)
    ensures
        render_lines(w.push(e), i) == if w.len() == 0 {
            render_entry(i, e)
        } else {
            render_lines(w, i) + seq!['\n'] + render_entry(i + w.len(), e)
        },
    decreases w.len(),
{
    if w.len() == 0 {
        assert(w.push(e)[0] == e);
    } else {
        lemma_render_lines_snoc(w.skip(1), e, i + 1);
        assert(w.push(e).skip(1) =~= w.skip(1).push(e));
        assert(w.push(e)[0] == w[0]);
        if w.len() == 1 {
            assert(w.skip(1).len() == 0);
        } else {
            assert((render_entry(i, w[0]) + seq!['\n']) + (render_lines(w.skip(1), i + 1)
                + seq!['\n'] + render_entry(i + w.len(), e)) =~= (render_entry(i, w[0])
                + seq!['\n'] + render_lines(w.skip(1), i + 1)) + seq!['\n'] + render_entry(
                i + w.len(),
                e,
            ));
        }
    }
}

impl Opts {
    /// Renders the recency window of `history`, most recent first, one
    /// entry per line as `<index>: <canonical> <<raw>>`.
    pub fn show_history(config: CdxConfig, history: History) -> (r: Result<String, CdxError>)
        ensures
            r matches Ok(s) && s@ == render_lines(
                window(history@, config.spec_search_size() as nat),
                0,
            ),
    {
        let entries = history.read(config.search_size());
        let ghost w = window(history@, config.spec_search_size() as nat);
        let mut out = String::new();
        let mut i: usize = 0;
        proof {
            assert(w.take(0) =~= Seq::<EntryV>::empty());
        }
        while i < entries.len()
            invariant
                i <= entries@.len(),
                views_of(entries@) == w,
                out@ == render_lines(w.take(i as int), 0),
            decreases entries@.len() - i,
        {
            proof {
                reveal_strlit(": ");
                reveal_strlit(" <");
                assert(": "@ =~= seq![':', ' ']);
                assert(" <"@ =~= seq![' ', '<']);
            }
            if i > 0 {
                push_char(&mut out, '\n');
            }
            let num = usize_to_string(i);
            out.append(num.as_str());
            out.append(": ");
            out.append(entries[i].canonical.as_str());
            out.append(" <");
            out.append(entries[i].raw.as_str());
            push_char(&mut out, '>');
            proof {
                let ghost pre = w.take(i as int);
                lemma_render_lines_snoc(pre, w[i as int], 0);
                assert(entries@[i as int]@ == w[i as int]);
                assert(pre.push(w[i as int]) =~= w.take(i + 1));
                if i == 0 {
                    assert(out@ =~= render_entry(0, w[0]));
                } else {
                    assert(out@ =~= render_lines(pre, 0) + seq!['\n'] + render_entry(
                        i as nat,
                        w[i as int],
                    ));
                }
            }
            i += 1;
        }
        proof {
            assert(w.take(entries@.len() as int) =~= w);
        }
        Ok(out)
    }
}

} // verus!
