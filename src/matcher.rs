//! Anchored fuzzy matching of query terms against corpus entries.

use vstd::prelude::*;
use crate::text::{fields, lower_char, lower_first, lower_of, lowercase, split_fields, split_words, strings_view, words};

verus! {

/// Greedy left-to-right subsequence test: every character of `t` is found,
/// in order, in `w`, each character of `w` consumed at most once.
pub open spec fn subseq_in(t: Seq<char>, w: Seq<char>) -> bool
    decreases w.len(),
{
    if t.len() == 0 {
        true
    } else if w.len() == 0 {
        false
    } else if t[0] == w[0] {
        subseq_in(t.drop_first(), w.drop_first())
    } else {
        subseq_in(t, w.drop_first())
    }
}

/// A term matches a word when it is empty, or when their first characters are
/// equal and the rest of the term is a subsequence of the rest of the word.
pub open spec fn term_matches(t: Seq<char>, w: Seq<char>) -> bool {
    t.len() == 0 || (w.len() > 0 && t[0] == w[0] && subseq_in(t.drop_first(), w.drop_first()))
}

/// A term is satisfied by a list of words when it is empty or matches one of them.
pub open spec fn term_hits(t: Seq<char>, ws: Seq<Seq<char>>) -> bool {
    t.len() == 0 || exists|k: int| 0 <= k < ws.len() && term_matches(t, #[trigger] ws[k])
}

/// Every term is satisfied by the words.
pub open spec fn all_terms_hit(terms: Seq<Seq<char>>, ws: Seq<Seq<char>>) -> bool {
    forall|k: int| 0 <= k < terms.len() ==> term_hits(#[trigger] terms[k], ws)
}

/// An entry matches when it has a description field and each term is
/// satisfied by the words of the lowercased description.
pub open spec fn entry_matches(entry: Seq<char>, terms: Seq<Seq<char>>) -> bool {
    fields(entry).len() >= 2 && all_terms_hit(terms, words(lower_of(fields(entry)[1])))
}

/// Greedy case-insensitive match of `t[j..]` in `w[i..]`, giving the
/// positions in `w` that were consumed.
pub open spec fn greedy_from(t: Seq<char>, w: Seq<char>, j: int, i: int) -> Option<Seq<int>>
    decreases w.len() - i,
{
    if j >= t.len() {
        Some(Seq::empty())
    } else if i >= w.len() || i < 0 {
        None
    } else if lower_char(t[j]) == lower_char(w[i]) {
        prefixed(seq![i], greedy_from(t, w, j + 1, i + 1))
    } else {
        greedy_from(t, w, j, i + 1)
    }
}

pub open spec fn prefixed(acc: Seq<int>, o: Option<Seq<int>>) -> Option<Seq<int>> {
    match o {
        Some(r) => Some(acc + r),
        None => None,
    }
}

/// Positions of `w` consumed by a case-insensitive anchored fuzzy match of
/// `t`; `None` when `t` or `w` is empty or when the match fails.
pub open spec fn fuzzy_indices(t: Seq<char>, w: Seq<char>) -> Option<Seq<int>> {
    if t.len() == 0 || w.len() == 0 || lower_char(t[0]) != lower_char(w[0]) {
        None
    } else {
        prefixed(seq![0int], greedy_from(t, w, 1, 1))
    }
}

pub open spec fn index_view(v: Seq<usize>) -> Seq<int> {
    v.map_values(|x: usize| x as int)
}

/// Whether `term` matches `word` by the anchored fuzzy rule.
pub fn term_matches_word(term: &str, word: &str) -> (r: bool)
    ensures
        r == term_matches(term@, word@),
{
    let tn = term.unicode_len();
    let wn = word.unicode_len();
    if tn == 0 {
        return true;
    }
    if wn == 0 || term.get_char(0) != word.get_char(0) {
        return false;
    }
    let mut j: usize = 1;
    let mut i: usize = 1;
    proof {
        assert(term@.drop_first() =~= term@.subrange(1, tn as int));
        assert(word@.drop_first() =~= word@.subrange(1, wn as int));
    }
    while j < tn
        invariant
            tn == term@.len(),
            wn == word@.len(),
            1 <= j <= tn,
            1 <= i <= wn,
            term_matches(term@, word@) == subseq_in(
                term@.subrange(j as int, tn as int),
                word@.subrange(i as int, wn as int),
            ),
        decreases wn - i,
    {
        let ghost t = term@.subrange(j as int, tn as int);
        let ghost w = word@.subrange(i as int, wn as int);
        if i >= wn {
            return false;
        }
        proof {
            assert(w.drop_first() =~= word@.subrange(i + 1, wn as int));
            assert(t.drop_first() =~= term@.subrange(j + 1, tn as int));
        }
        if word.get_char(i) == term.get_char(j) {
            j = j + 1;
        }
        i = i + 1;
    }
    true
}

proof fn lemma_prefixed_push(acc: Seq<int>, i: int, o: Option<Seq<int>>)
    ensures
        prefixed(acc, prefixed(seq![i], o)) == prefixed(acc.push(i), o),
{
    if let Some(r) = o {
        assert(acc + (seq![i] + r) =~= acc.push(i) + r);
    }
}

/// Positions in `word` consumed by a case-insensitive anchored fuzzy match of
/// `term`.
pub fn find_fuzzy_match_indices(term: &str, word: &str) -> (r: Option<Vec<usize>>)
    ensures
        match r {
            Some(v) => fuzzy_indices(term@, word@) == Some(index_view(v@)),
            None => fuzzy_indices(term@, word@) is None,
        },
{
    let tn = term.unicode_len();
    let wn = word.unicode_len();
    if tn == 0 || wn == 0 {
        return None;
    }
    let first_term = match lower_first(term.get_char(0)) {
        Some(c) => c,
        None => return None,
    };
    let first_word = match lower_first(word.get_char(0)) {
        Some(c) => c,
        None => return None,
    };
    if first_term != first_word {
        return None;
    }
    let mut indices: Vec<usize> = Vec::new();
    indices.push(0);
    proof {
        assert(index_view(indices@) =~= seq![0int]);
    }
    let mut j: usize = 1;
    let mut i: usize = 1;
    while j < tn
        invariant
            tn == term@.len(),
            wn == word@.len(),
            1 <= j <= tn,
            1 <= i <= wn,
            fuzzy_indices(term@, word@) == prefixed(
                index_view(indices@),
                greedy_from(term@, word@, j as int, i as int),
            ),
        decreases wn - i,
    {
        if i >= wn {
            return None;
        }
        let tc = match lower_first(term.get_char(j)) {
            Some(c) => c,
            None => return None,
        };
        let wc = match lower_first(word.get_char(i)) {
            Some(c) => c,
            None => return None,
        };
        if wc == tc {
            let ghost before = indices@;
            indices.push(i);
            proof {
                lemma_prefixed_push(
                    index_view(before),
                    i as int,
                    greedy_from(term@, word@, j + 1, i + 1),
                );
                assert(index_view(indices@) =~= index_view(before).push(i as int));
            }
            j = j + 1;
        }
        i = i + 1;
    }
    proof {
        let o = greedy_from(term@, word@, j as int, i as int);
        assert(o == Some(Seq::<int>::empty()));
        assert(index_view(indices@) + Seq::<int>::empty() =~= index_view(indices@));
    }
    Some(indices)
}

/// Whether every non-empty term matches some word of the entry's lowercased
/// description; entries without a description field never match.
pub fn entry_matches_terms(entry: &str, terms: &Vec<String>) -> (r: bool)
    ensures
        r == entry_matches(entry@, strings_view(terms@)),
{
    let parts = split_fields(entry);
    if parts.len() < 2 {
        return false;
    }
    assert(strings_view(parts@)[1] == parts@[1]@);
    let description = lowercase(parts[1].as_str());
    let desc_words = split_words(description.as_str());
    let ghost ws = strings_view(desc_words@);
    let ghost ts = strings_view(terms@);
    let mut k: usize = 0;
    while k < terms.len()
        invariant
            k <= terms@.len(),
            ts == strings_view(terms@),
            ws == strings_view(desc_words@),
            ws == words(lower_of(fields(entry@)[1])),
            forall|q: int| 0 <= q < k ==> term_hits(#[trigger] ts[q], ws),
        decreases terms@.len() - k,
    {
        let term = terms[k].as_str();
        if term.unicode_len() != 0 {
            let mut found = false;
            let mut w: usize = 0;
            while w < desc_words.len() && !found
                invariant
                    k < terms@.len(),
                    w <= desc_words@.len(),
                    ws == strings_view(desc_words@),
                    term@ == ts[k as int],
                    ts[k as int].len() > 0,
                    found ==> term_hits(ts[k as int], ws),
                    !found ==> forall|q: int| 0 <= q < w ==> !term_matches(ts[k as int], #[trigger] ws[q]),
                decreases desc_words@.len() - w,
            {
                assert(ws[w as int] == desc_words@[w as int]@);
                if term_matches_word(term, desc_words[w].as_str()) {
                    found = true;
                }
                w = w + 1;
            }
            if !found {
                assert(!all_terms_hit(ts, ws)) by {
                    assert(!term_hits(ts[k as int], ws));
                }
                return false;
            }
        }
        k = k + 1;
    }
    assert(all_terms_hit(ts, ws));
    true
}

} // verus!
