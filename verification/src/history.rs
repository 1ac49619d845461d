use vstd::prelude::*;

verus! {

/// One recorded navigation event, as the contracts see it: the exact
/// user input (`raw`) and the fully resolved directory it led to
/// (`canonical`), both as character sequences.
pub ghost struct EntryV {
    pub raw: Seq<char>,
    pub canonical: Seq<char>,
}

/// One recorded navigation event.
///
/// `raw` is the exact user input that produced the entry (a literal
/// path, or a synthetic tag such as `^<shortcut>`); it is informational
/// only and never re-parsed. `canonical` is the fully resolved absolute
/// path the visit confirmed.
#[derive(Debug, PartialEq, Eq)]
pub struct Entry {
    pub raw: String,
    pub canonical: String,
}

impl View for Entry {
    type V = EntryV;

    open spec fn view(&self) -> EntryV {
        EntryV { raw: self.raw@, canonical: self.canonical@ }
    }
}

impl Clone for Entry {
    fn clone(&self) -> (r: Self)
        ensures
            r == *self,
    {
        Entry { raw: self.raw.clone(), canonical: self.canonical.clone() }
    }
}

impl Entry {
    /// A fresh entry recording that `raw` resolved to `canonical`.
    pub fn new(raw: String, canonical: String) -> (r: Entry)
        ensures
            r@ == (EntryV { raw: raw@, canonical: canonical@ }),
    {
        Entry { raw, canonical }
    }

    /// The same directory re-tagged with a new provenance note: the
    /// canonical path is kept, only `raw` changes.
    pub fn with_raw(&self, raw: String) -> (r: Entry)
        ensures
            r@ == (EntryV { raw: raw@, canonical: self@.canonical }),
    {
        Entry { raw, canonical: self.canonical.clone() }
    }
}

/// The entry views of a sequence of entries.
pub open spec fn views_of(s: Seq<Entry>) -> Seq<EntryV> {
    Seq::new(s.len(), |i: int| s[i]@)
}

/// No two entries share a canonical path.
pub open spec fn deduped(h: Seq<EntryV>) -> bool {
    forall|i: int, j: int|
        #![trigger h[i].canonical, h[j].canonical]
        0 <= i < j < h.len() ==> h[i].canonical != h[j].canonical
}

/// `h` with every entry for canonical path `c` removed, order kept.
pub open spec fn without(h: Seq<EntryV>, c: Seq<char>) -> Seq<EntryV> {
    h.filter(|x: EntryV| x.canonical != c)
}

/// The promote-to-most-recent append: any previous entry for the same
/// canonical path is removed, then the new entry goes to the end.
pub open spec fn promote(h: Seq<EntryV>, e: EntryV) -> Seq<EntryV> {
    without(h, e.canonical).push(e)
}

/// The `n` most recent entries of `h`, most recent first.
pub open spec fn window(h: Seq<EntryV>, n: nat) -> Seq<EntryV> {
    let k = if n <= h.len() { n } else { h.len() };
    Seq::new(k, |i: int| h[h.len() - 1 - i])
}

/// An ordered sequence of entries, oldest first; insertion order is
/// recency order. The store keeps at most one entry per canonical path
/// (see [`History::append_last`] and [`lemma_promote_preserves_dedup`]).
pub struct History {
    entries: Vec<Entry>,
}

impl View for History {
    type V = Seq<EntryV>;

    closed spec fn view(&self) -> Seq<EntryV> {
        views_of(self.entries@)
    }
}

impl History {
    /// At most one entry per canonical path.
    pub open spec fn wf(self) -> bool {
        deduped(self@)
    }

    /// The entries in storage order, for the store's codec.
    pub(crate) fn entries(&self) -> (r: &Vec<Entry>)
        ensures
            views_of(r@) == self@,
    {
        &self.entries
    }

    /// Rebuilds a history from decoded entries, for the store's codec.
    pub(crate) fn from_entries(entries: Vec<Entry>) -> (r: History)
        ensures
            r@ == views_of(entries@),
    {
        History { entries }
    }

    /// The empty history: what a first run starts from.
    pub fn new() -> (r: History)
        ensures
            r@ == Seq::<EntryV>::empty(),
            r.wf(),
    {
        let h = History { entries: Vec::new() };
        proof {
            assert(h@ =~= Seq::<EntryV>::empty());
        }
        h
    }

    /// The `size` most recent entries, most recent first: a pure
    /// snapshot of exactly `min(size, len)` entries, the history itself
    /// untouched.
    pub fn read(&self, size: usize) -> (r: Vec<Entry>)
        ensures
            views_of(r@) == window(self@, size as nat),
            r@.len() == if size as nat <= self@.len() { size as nat } else { self@.len() },
    {
        let n = self.entries.len();
        let k = if size <= n { size } else { n };
        let mut r: Vec<Entry> = Vec::new();
        let mut j: usize = 0;
        while j < k
            invariant
                k <= n,
                n == self.entries.len(),
                j <= k,
                r@.len() == j as nat,
                forall|m: int| 0 <= m < j ==> #[trigger] r@[m]@ == self@[n - 1 - m],
            decreases k - j,
        {
            let e = &self.entries[n - 1 - j];
            r.push(e.clone());
            j += 1;
        }
        proof {
            assert(views_of(r@) =~= window(self@, size as nat));
        }
        r
    }

    /// The sole mutation primitive: removes any entry with the new
    /// entry's canonical path, then appends the new entry at the end,
    /// so a revisited directory is promoted to most recent instead of
    /// duplicated.
    pub fn append_last(&mut self, new_entry: Entry)
        ensures
            final(self)@ == promote(old(self)@, new_entry@),
            old(self).wf() ==> final(self).wf(),
    {
        let ghost c: Seq<char> = new_entry@.canonical;
        let n = self.entries.len();
        let mut kept: Vec<Entry> = Vec::new();
        let mut i: usize = 0;
        proof {
            assert(views_of(kept@) =~= views_of(self.entries@.take(0)));
            lemma_without_empty(c);
            assert(views_of(self.entries@.take(0)) =~= Seq::<EntryV>::empty());
        }
        while i < n
            invariant
                i <= n,
                n == self.entries.len(),
                views_of(kept@) == without(views_of(self.entries@.take(i as int)), c),
                c == new_entry@.canonical,
            decreases n - i,
        {
            let ghost pre = views_of(self.entries@.take(i as int));
            let e = &self.entries[i];
            proof {
                assert(views_of(self.entries@.take(i + 1)) =~= pre.push(e@));
                lemma_without_push(pre, e@, c);
            }
            if e.canonical != new_entry.canonical {
                kept.push(e.clone());
                proof {
                    assert(views_of(kept@) =~= without(pre, c).push(e@));
                }
            }
            i += 1;
        }
        proof {
            assert(self.entries@.take(n as int) =~= self.entries@);
        }
        kept.push(new_entry);
        proof {
            assert(views_of(kept@) =~= promote(views_of(self.entries@), new_entry@));
        }
        self.entries = kept;
        proof {
            if old(self).wf() {
                lemma_promote_preserves_dedup(old(self)@, new_entry@);
            }
        }
    }
}

proof fn lemma_without_empty(c: Seq<char>)
    ensures
        without(Seq::<EntryV>::empty(), c) == Seq::<EntryV>::empty(),
{
    reveal(Seq::filter);
}

proof fn lemma_without_push(h: Seq<EntryV>, x: EntryV, c: Seq<char>)
    ensures
        x.canonical != c ==> without(h.push(x), c) == without(h, c).push(x),
        x.canonical == c ==> without(h.push(x), c) == without(h, c),
{
    reveal(Seq::filter);
    assert(h.push(x).drop_last() =~= h);
    assert(h.push(x).last() == x);
}

proof fn lemma_without_facts(h: Seq<EntryV>, c: Seq<char>)
    ensures
        deduped(h) ==> deduped(without(h, c)),
        forall|x: EntryV| #[trigger] without(h, c).contains(x) ==> h.contains(x),
        forall|i: int| 0 <= i < without(h, c).len() ==> #[trigger] without(h, c)[i].canonical != c,
    decreases h.len(),
{
    reveal(Seq::filter);
    if h.len() == 0 {
        assert(without(h, c).len() == 0);
    } else {
        let hd = h.drop_last();
        let last = h.last();
        lemma_without_facts(hd, c);
        assert(forall|x: EntryV| #[trigger] hd.contains(x) ==> h.contains(x)) by {
            assert forall|x: EntryV| #[trigger] hd.contains(x) implies h.contains(x) by {
                let i = choose|i: int| 0 <= i < hd.len() && hd[i] == x;
                assert(h[i] == x);
            }
        }
        assert forall|x: EntryV| #[trigger] without(h, c).contains(x) implies h.contains(x) by {
            if last.canonical != c {
                let w = without(hd, c);
                assert(without(h, c) == w.push(last));
                let i = choose|i: int| 0 <= i < w.push(last).len() && w.push(last)[i] == x;
                if i < w.len() {
                    assert(w[i] == x);
                    assert(w.contains(x));
                    assert(hd.contains(x));
                } else {
                    assert(x == last);
                    assert(h[h.len() - 1] == x);
                }
            } else {
                assert(without(h, c) == without(hd, c));
                assert(without(hd, c).contains(x));
                assert(hd.contains(x));
            }
        }
        if deduped(h) {
            assert(deduped(hd));
            if last.canonical != c {
                // `without(h, c)` is `without(hd, c).push(last)`; the new
                // last element's canonical differs from everything kept
                // from `hd`, because it differs from everything in `hd`.
                let w = without(hd, c);
                assert forall|i: int, j: int|
                    0 <= i < j < w.push(last).len() implies #[trigger] w.push(last)[i].canonical
                    != #[trigger] w.push(last)[j].canonical by {
                    if j < w.len() {
                        assert(w[i].canonical != w[j].canonical);
                    } else {
                        assert(w.push(last)[j] == last);
                        assert(w.contains(w[i]));
                        assert(hd.contains(w[i]));
                        let m = choose|m: int| 0 <= m < hd.len() && hd[m] == w[i];
                        assert(h[m].canonical != h[h.len() - 1].canonical);
                    }
                }
            }
        }
    }
}

/// Law: the promote-to-most-recent append keeps the history free of
/// duplicate canonical paths. However a history was built by appends,
/// no two of its entries ever share a canonical path.
pub proof fn lemma_promote_preserves_dedup(h: Seq<EntryV>, e: EntryV)
    requires
        deduped(h),
    ensures
        deduped(promote(h, e)),
{
    lemma_without_facts(h, e.canonical);
    let w = without(h, e.canonical);
    assert forall|i: int, j: int|
        0 <= i < j < w.push(e).len() implies #[trigger] w.push(e)[i].canonical
        != #[trigger] w.push(e)[j].canonical by {
        if j < w.len() {
            assert(w[i].canonical != w[j].canonical);
        } else {
            assert(w.push(e)[j] == e);
            assert(w[i].canonical != e.canonical);
        }
    }
}

} // verus!
