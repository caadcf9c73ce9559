//! The search session: the typed query, the current matches and the cursor.

use vstd::prelude::*;
use crate::frecency::Selection;
use crate::highlight::{build_highlight_segments, highlighted, HighlightSegment};
use crate::matcher::{entry_matches, entry_matches_terms};
use crate::rank::{is_top, lemma_top_unique, top_ranked};
use crate::text::{fields, lower_of, lowercase, push_char, split_fields, split_words, strings_view, words};

verus! {

/// How many matches are shown at most.
pub const NUM_SLOTS: usize = 5;

/// The state behind the picker: the corpus of `"glyph| description| code"`
/// entries, the selection history, the typed letters, the matches (indices
/// into the corpus, best first) and the cursor into the matches.
pub struct SearchSession {
    pub corpus: Vec<String>,
    pub selections: Vec<Selection>,
    pub letters: Vec<char>,
    pub matches: Vec<usize>,
    pub selected_index: usize,
}

/// An entry split for display, with its description highlighted.
pub struct EntryView {
    pub glyph: String,
    pub description: String,
    pub code: String,
    pub segments: Vec<HighlightSegment>,
}

/// The search terms of the typed letters: the words of their lowercase form.
pub open spec fn query_terms(letters: Seq<char>) -> Seq<Seq<char>> {
    words(lower_of(letters))
}

/// For each corpus entry, whether it matches the terms.
pub open spec fn eligibility(corpus: Seq<Seq<char>>, terms: Seq<Seq<char>>) -> Seq<bool> {
    Seq::new(corpus.len(), |k: int| entry_matches(corpus[k], terms))
}

pub open spec fn none_eligible(elig: Seq<bool>) -> bool {
    forall|k: int| 0 <= k < elig.len() ==> !#[trigger] elig[k]
}

/// `r` is the match list for the typed letters: the best matching entries by
/// `query_keys`; when nothing in a non-empty corpus matches, the best entries
/// of the whole corpus by `all_keys`.
pub open spec fn ranked_matches(
    r: Seq<usize>,
    corpus: Seq<Seq<char>>,
    letters: Seq<char>,
    query_keys: Seq<u64>,
    all_keys: Seq<u64>,
) -> bool {
    let elig = eligibility(corpus, query_terms(letters));
    if corpus.len() > 0 && none_eligible(elig) {
        is_top(r, all_keys, Seq::new(corpus.len(), |k: int| true), NUM_SLOTS as nat)
    } else {
        is_top(r, query_keys, elig, NUM_SLOTS as nat)
    }
}

/// The cursor `i` clamped into a list of `len` items (0 for an empty list).
pub open spec fn clamped(i: usize, len: nat) -> usize {
    if len == 0 {
        0
    } else if i < len {
        i
    } else {
        (len - 1) as usize
    }
}

/// `code` is the third field of `entry`, when it has one.
pub open spec fn code_of(entry: Seq<char>, code: Option<String>) -> bool {
    match code {
        Some(c) => fields(entry).len() >= 3 && c@ == fields(entry)[2],
        None => fields(entry).len() < 3,
    }
}

/// Searching twice on unchanged letters and keys gives what searching once
/// gave: the same matches and the same cursor.
pub proof fn lemma_search_idempotent(
    corpus: Seq<Seq<char>>,
    letters: Seq<char>,
    query_keys: Seq<u64>,
    all_keys: Seq<u64>,
    cursor0: usize,
    m1: Seq<usize>,
    cursor1: usize,
    m2: Seq<usize>,
    cursor2: usize,
)
    requires
        ranked_matches(m1, corpus, letters, query_keys, all_keys),
        cursor1 == clamped(cursor0, m1.len()),
        ranked_matches(m2, corpus, letters, query_keys, all_keys),
        cursor2 == clamped(cursor1, m2.len()),
    ensures
        m2 == m1,
        cursor2 == cursor1,
{
    let elig = eligibility(corpus, query_terms(letters));
    if corpus.len() > 0 && none_eligible(elig) {
        lemma_top_unique(m1, m2, all_keys, Seq::new(corpus.len(), |k: int| true), NUM_SLOTS as nat);
    } else {
        lemma_top_unique(m1, m2, query_keys, elig, NUM_SLOTS as nat);
    }
}

/// Whether two strings hold the same characters.
fn same_text(a: &str, b: &str) -> (r: bool)
    ensures
        r == (a@ == b@),
{
    let n = a.unicode_len();
    if n != b.unicode_len() {
        return false;
    }
    let mut k: usize = 0;
    while k < n
        invariant
            n == a@.len(),
            n == b@.len(),
            k <= n,
            forall|q: int| 0 <= q < k ==> a@[q] == b@[q],
        decreases n - k,
    {
        if a.get_char(k) != b.get_char(k) {
            return false;
        }
        k = k + 1;
    }
    assert(a@ =~= b@);
    true
}

impl SearchSession {
    /// Matches stay within the slot count and point into the corpus; the
    /// cursor is a valid index, or 0 when there are no matches.
    pub open spec fn wf(&self) -> bool {
        &&& self.matches@.len() <= NUM_SLOTS
        &&& forall|k: int| 0 <= k < self.matches@.len() ==> #[trigger] self.matches@[k] < self.corpus@.len()
        &&& self.selected_index == clamped(self.selected_index, self.matches@.len())
    }

    /// A session over `corpus` and `selections`, with nothing typed and no
    /// matches yet.
    pub fn new(corpus: Vec<String>, selections: Vec<Selection>) -> (r: SearchSession)
        ensures
            r.wf(),
            r.corpus@ == corpus@,
            r.selections@ == selections@,
            r.letters@.len() == 0,
            r.matches@.len() == 0,
            r.selected_index == 0,
    {
        SearchSession { corpus, selections, letters: Vec::new(), matches: Vec::new(), selected_index: 0 }
    }

    /// The typed letters as a string.
    pub fn search_text(&self) -> (r: String)
        ensures
            r@ == self.letters@,
    {
        let mut r = String::new();
        let mut k: usize = 0;
        while k < self.letters.len()
            invariant
                k <= self.letters@.len(),
                r@ == self.letters@.take(k as int),
            decreases self.letters@.len() - k,
        {
            push_char(&mut r, self.letters[k]);
            assert(self.letters@.take(k + 1) =~= self.letters@.take(k as int).push(self.letters@[k as int]));
            k = k + 1;
        }
        assert(self.letters@.take(k as int) =~= self.letters@);
        r
    }

    /// The typed letters, lowercased.
    pub fn query(&self) -> (r: String)
        ensures
            r@ == lower_of(self.letters@),
    {
        let text = self.search_text();
        lowercase(text.as_str())
    }

    /// The search terms of the typed letters.
    pub fn terms(&self) -> (r: Vec<String>)
        ensures
            strings_view(r@) == query_terms(self.letters@),
    {
        let q = self.query();
        split_words(q.as_str())
    }

    /// Recomputes the matches for the typed letters and clamps the cursor.
    /// `query_keys[k]` orders entry `k` by its frecency for the current query,
    /// `all_keys[k]` by its frecency over all selections; higher ranks first.
    pub fn search(&mut self, query_keys: &Vec<u64>, all_keys: &Vec<u64>)
        requires
            query_keys@.len() == old(self).corpus@.len(),
            all_keys@.len() == old(self).corpus@.len(),
        ensures
            final(self).wf(),
            final(self).corpus == old(self).corpus,
            final(self).selections == old(self).selections,
            final(self).letters == old(self).letters,
            ranked_matches(
                final(self).matches@,
                strings_view(old(self).corpus@),
                old(self).letters@,
                query_keys@,
                all_keys@,
            ),
            final(self).selected_index == clamped(old(self).selected_index, final(self).matches@.len()),
    {
        let terms = self.terms();
        let ghost cv = strings_view(self.corpus@);
        let ghost el = eligibility(cv, query_terms(self.letters@));
        let n = self.corpus.len();
        let mut elig: Vec<bool> = Vec::new();
        let mut any = false;
        let mut k: usize = 0;
        while k < n
            invariant
                n == self.corpus@.len(),
                cv == strings_view(self.corpus@),
                el == eligibility(cv, query_terms(self.letters@)),
                strings_view(terms@) == query_terms(self.letters@),
                k <= n,
                elig@ == el.take(k as int),
                any == exists|q: int| 0 <= q < k && #[trigger] el[q],
            decreases n - k,
        {
            assert(cv[k as int] == self.corpus@[k as int]@);
            let m = entry_matches_terms(self.corpus[k].as_str(), &terms);
            assert(m == el[k as int]);
            elig.push(m);
            if m {
                any = true;
            }
            assert(any == exists|q: int| 0 <= q < k + 1 && #[trigger] el[q]) by {
                if el[k as int] {
                    assert(0 <= k < k + 1 && el[k as int]);
                }
            }
            assert(elig@ =~= el.take(k + 1));
            k = k + 1;
        }
        assert(elig@ =~= el);
        let top = if any || n == 0 {
            top_ranked(query_keys, &elig, NUM_SLOTS)
        } else {
            let mut all: Vec<bool> = Vec::new();
            let mut q: usize = 0;
            while q < n
                invariant
                    q <= n,
                    all@ == Seq::new(q as nat, |j: int| true),
                decreases n - q,
            {
                all.push(true);
                q = q + 1;
                assert(all@ =~= Seq::new(q as nat, |j: int| true));
            }
            top_ranked(all_keys, &all, NUM_SLOTS)
        };
        self.matches = top;
        let len = self.matches.len();
        if len == 0 {
            self.selected_index = 0;
        } else if self.selected_index >= len {
            self.selected_index = len - 1;
        }
    }

    /// Appends the characters of `text` to the letters and resets the cursor.
    pub fn insert_text(&mut self, text: &str)
        requires
            old(self).wf(),
        ensures
            final(self).wf(),
            final(self).letters@ == old(self).letters@ + text@,
            final(self).selected_index == 0,
            final(self).corpus == old(self).corpus,
            final(self).selections == old(self).selections,
            final(self).matches == old(self).matches,
    {
        let n = text.unicode_len();
        let ghost start = self.letters@;
        let mut k: usize = 0;
        while k < n
            invariant
                n == text@.len(),
                k <= n,
                self.letters@ == start + text@.take(k as int),
                self.corpus == old(self).corpus,
                self.selections == old(self).selections,
                self.matches == old(self).matches,
                self.selected_index == old(self).selected_index,
            decreases n - k,
        {
            self.letters.push(text.get_char(k));
            assert(start + text@.take(k + 1) =~= (start + text@.take(k as int)).push(text@[k as int]));
            k = k + 1;
        }
        assert(text@.take(n as int) =~= text@);
        self.selected_index = 0;
    }

    /// Removes the last letter, if any, and resets the cursor.
    pub fn delete_last(&mut self)
        requires
            old(self).wf(),
        ensures
            final(self).wf(),
            final(self).letters@ == if old(self).letters@.len() > 0 {
                old(self).letters@.drop_last()
            } else {
                old(self).letters@
            },
            final(self).selected_index == 0,
            final(self).corpus == old(self).corpus,
            final(self).selections == old(self).selections,
            final(self).matches == old(self).matches,
    {
        self.letters.pop();
        self.selected_index = 0;
    }

    /// Removes all letters and resets the cursor.
    pub fn clear_all(&mut self)
        requires
            old(self).wf(),
        ensures
            final(self).wf(),
            final(self).letters@.len() == 0,
            final(self).selected_index == 0,
            final(self).corpus == old(self).corpus,
            final(self).selections == old(self).selections,
            final(self).matches == old(self).matches,
    {
        self.letters.clear();
        self.selected_index = 0;
    }

    /// Moves the cursor one match up, stopping at the first.
    pub fn move_up(&mut self)
        requires
            old(self).wf(),
        ensures
            final(self).wf(),
            final(self).selected_index == if old(self).selected_index > 0 {
                (old(self).selected_index - 1) as usize
            } else {
                0
            },
            final(self).letters == old(self).letters,
            final(self).corpus == old(self).corpus,
            final(self).selections == old(self).selections,
            final(self).matches == old(self).matches,
    {
        if self.selected_index > 0 {
            self.selected_index = self.selected_index - 1;
        }
    }

    /// Moves the cursor one match down, stopping at the last.
    pub fn move_down(&mut self)
        requires
            old(self).wf(),
        ensures
            final(self).wf(),
            final(self).selected_index == clamped(
                (old(self).selected_index + 1) as usize,
                old(self).matches@.len(),
            ),
            final(self).letters == old(self).letters,
            final(self).corpus == old(self).corpus,
            final(self).selections == old(self).selections,
            final(self).matches == old(self).matches,
    {
        if self.selected_index + 1 < self.matches.len() {
            self.selected_index = self.selected_index + 1;
        }
    }

    /// Applies one key press: `"up"` and `"down"` move the cursor, `"shift"`
    /// does nothing, `"backspace"` deletes the last letter, `"ctrl-backspace"`
    /// clears the letters, and any other key types its characters. Returns
    /// whether the letters changed, so that the matches must be recomputed.
    pub fn handle_key(&mut self, key: &str) -> (needs_search: bool)
        requires
            old(self).wf(),
        ensures
            final(self).wf(),
            final(self).corpus == old(self).corpus,
            final(self).selections == old(self).selections,
            final(self).matches == old(self).matches,
            key@ == "up"@ ==> !needs_search && final(self).letters == old(self).letters
                && final(self).selected_index == if old(self).selected_index > 0 {
                (old(self).selected_index - 1) as usize
            } else {
                0
            },
            key@ == "down"@ ==> !needs_search && final(self).letters == old(self).letters
                && final(self).selected_index == clamped(
                (old(self).selected_index + 1) as usize,
                old(self).matches@.len(),
            ),
            key@ == "shift"@ ==> !needs_search && final(self).letters == old(self).letters
                && final(self).selected_index == old(self).selected_index,
            key@ == "backspace"@ ==> needs_search && final(self).selected_index == 0
                && final(self).letters@ == if old(self).letters@.len() > 0 {
                old(self).letters@.drop_last()
            } else {
                old(self).letters@
            },
            key@ == "ctrl-backspace"@ ==> needs_search && final(self).selected_index == 0
                && final(self).letters@.len() == 0,
            key@ != "up"@ && key@ != "down"@ && key@ != "shift"@ && key@ != "backspace"@
                && key@ != "ctrl-backspace"@ ==> needs_search && final(self).selected_index == 0
                && final(self).letters@ == old(self).letters@ + key@,
    {
        proof {
            reveal_strlit("up");
            reveal_strlit("down");
            reveal_strlit("shift");
            reveal_strlit("backspace");
            reveal_strlit("ctrl-backspace");
            assert("up"@.len() == 2);
            assert("down"@.len() == 4);
            assert("shift"@.len() == 5);
            assert("backspace"@.len() == 9);
            assert("ctrl-backspace"@.len() == 14);
        }
        if same_text(key, "up") {
            self.move_up();
            false
        } else if same_text(key, "down") {
            self.move_down();
            false
        } else if same_text(key, "backspace") {
            self.delete_last();
            true
        } else if same_text(key, "ctrl-backspace") {
            self.clear_all();
            true
        } else if same_text(key, "shift") {
            false
        } else {
            self.insert_text(key);
            true
        }
    }

    /// The code (third field) of an entry, when it has one.
    pub fn get_code(entry: &str) -> (r: Option<String>)
        ensures
            code_of(entry@, r),
    {
        let parts = split_fields(entry);
        if parts.len() >= 3 {
            assert(strings_view(parts@)[2] == parts@[2]@);
            Some(parts[2].clone())
        } else {
            None
        }
    }

    /// The code of the match under the cursor, when there is one and it has
    /// a code.
    pub fn selected_code(&self) -> (r: Option<String>)
        requires
            self.wf(),
        ensures
            self.matches@.len() == 0 ==> r is None,
            self.matches@.len() > 0 ==> code_of(
                self.corpus@[self.matches@[self.selected_index as int] as int]@,
                r,
            ),
    {
        if self.matches.len() == 0 {
            return None;
        }
        let entry = self.corpus[self.matches[self.selected_index]].as_str();
        Self::get_code(entry)
    }
}

/// Splits an entry into glyph, description and code and highlights the
/// description for `terms`; `None` for an entry with fewer than three fields.
pub fn entry_view(entry: &str, terms: &Vec<String>) -> (r: Option<EntryView>)
    ensures
        match r {
            Some(v) => fields(entry@).len() >= 3 && v.glyph@ == fields(entry@)[0]
                && v.description@ == fields(entry@)[1] && v.code@ == fields(entry@)[2]
                && highlighted(v.segments@, v.description@, strings_view(terms@)),
            None => fields(entry@).len() < 3,
        },
{
    let parts = split_fields(entry);
    if parts.len() < 3 {
        return None;
    }
    assert(strings_view(parts@)[0] == parts@[0]@);
    assert(strings_view(parts@)[1] == parts@[1]@);
    assert(strings_view(parts@)[2] == parts@[2]@);
    let segments = build_highlight_segments(parts[1].as_str(), terms);
    Some(EntryView {
        glyph: parts[0].clone(),
        description: parts[1].clone(),
        code: parts[2].clone(),
        segments,
    })
}

} // verus!
