//! Bold/plain segmentation of a description by the characters that the
//! query terms matched.

use vstd::prelude::*;
use crate::matcher::{find_fuzzy_match_indices, fuzzy_indices, index_view};
use crate::text::{span_view, strings_view, word_bounds, word_spans};

verus! {

/// A run of characters of a description, shown bold or plain.
pub struct HighlightSegment {
    pub text: String,
    pub bold: bool,
}

/// `m` with every position `start + x`, for `x` in `ix`, set.
pub open spec fn mark(m: Seq<bool>, start: int, ix: Seq<int>) -> Seq<bool> {
    Seq::new(m.len(), |k: int| m[k] || ix.contains(k - start))
}

/// `m` after the first `j` terms were matched against the word of `text` at
/// span `sp`.
pub open spec fn mark_terms(
    m: Seq<bool>,
    text: Seq<char>,
    sp: (int, int),
    terms: Seq<Seq<char>>,
    j: int,
) -> Seq<bool>
    decreases j,
{
    if j <= 0 {
        m
    } else {
        let prev = mark_terms(m, text, sp, terms, j - 1);
        match fuzzy_indices(terms[j - 1], text.subrange(sp.0, sp.1)) {
            Some(ix) => mark(prev, sp.0, ix),
            None => prev,
        }
    }
}

/// The highlight marks after the first `i` words of `text` were processed.
pub open spec fn mark_words(text: Seq<char>, terms: Seq<Seq<char>>, i: int) -> Seq<bool>
    decreases i,
{
    if i <= 0 {
        Seq::new(text.len(), |k: int| false)
    } else {
        mark_terms(
            mark_words(text, terms, i - 1),
            text,
            word_spans(text)[i - 1],
            terms,
            terms.len() as int,
        )
    }
}

/// One flag per character of `text`: whether some term matched it within
/// its word.
pub open spec fn highlight_mask(text: Seq<char>, terms: Seq<Seq<char>>) -> Seq<bool> {
    mark_words(text, terms, word_spans(text).len() as int)
}

proof fn lemma_mark_terms_len(m: Seq<bool>, text: Seq<char>, sp: (int, int), terms: Seq<Seq<char>>, j: int)
    ensures
        mark_terms(m, text, sp, terms, j).len() == m.len(),
    decreases j,
{
    if j > 0 {
        lemma_mark_terms_len(m, text, sp, terms, j - 1);
    }
}

proof fn lemma_mark_words_len(text: Seq<char>, terms: Seq<Seq<char>>, i: int)
    ensures
        mark_words(text, terms, i).len() == text.len(),
    decreases i,
{
    if i > 0 {
        lemma_mark_words_len(text, terms, i - 1);
        lemma_mark_terms_len(mark_words(text, terms, i - 1), text, word_spans(text)[i - 1], terms, terms.len() as int);
    }
}

pub open spec fn has_live_term(terms: Seq<Seq<char>>) -> bool {
    exists|k: int| 0 <= k < terms.len() && #[trigger] terms[k].len() > 0
}

/// The segments' texts, concatenated in order.
pub open spec fn joined(segs: Seq<HighlightSegment>) -> Seq<char>
    decreases segs.len(),
{
    if segs.len() == 0 {
        Seq::empty()
    } else {
        joined(segs.drop_last()) + segs.last().text@
    }
}

/// One flag per character of the concatenation: the segment's boldness.
pub open spec fn bold_marks(segs: Seq<HighlightSegment>) -> Seq<bool>
    decreases segs.len(),
{
    if segs.len() == 0 {
        Seq::empty()
    } else {
        bold_marks(segs.drop_last()) + Seq::new(segs.last().text@.len(), |k: int| segs.last().bold)
    }
}

/// `segs` are the maximal runs of `text` that share one flag of `mask`.
pub open spec fn runs_of(segs: Seq<HighlightSegment>, text: Seq<char>, mask: Seq<bool>) -> bool {
    &&& joined(segs) == text
    &&& bold_marks(segs) == mask
    &&& forall|s: int| 0 <= s < segs.len() ==> (#[trigger] segs[s]).text@.len() > 0
    &&& forall|s: int| 0 <= s < segs.len() - 1 ==> (#[trigger] segs[s]).bold != segs[s + 1].bold
}

/// What the segments of `text` for `terms` are: their texts concatenate to
/// `text`; without a non-empty term, or for an empty text, they are one plain
/// segment; otherwise they are the maximal runs of the highlight mask.
pub open spec fn highlighted(r: Seq<HighlightSegment>, text: Seq<char>, terms: Seq<Seq<char>>) -> bool {
    &&& joined(r) == text
    &&& (!has_live_term(terms) || text.len() == 0 ==> r.len() == 1 && r[0].text@ == text && !r[0].bold)
    &&& (has_live_term(terms) && text.len() > 0 ==> runs_of(r, text, highlight_mask(text, terms)))
}

/// The text and boldness of each segment.
pub open spec fn segment_view(segs: Seq<HighlightSegment>) -> Seq<(Seq<char>, bool)> {
    segs.map_values(|x: HighlightSegment| (x.text@, x.bold))
}

proof fn lemma_bold_marks_len(segs: Seq<HighlightSegment>)
    ensures
        bold_marks(segs).len() == joined(segs).len(),
    decreases segs.len(),
{
    if segs.len() > 0 {
        lemma_bold_marks_len(segs.drop_last());
    }
}

proof fn lemma_runs_drop_last(segs: Seq<HighlightSegment>, text: Seq<char>, mask: Seq<bool>)
    requires
        runs_of(segs, text, mask),
        segs.len() > 0,
    ensures
        ({
            let k = text.len() - segs.last().text@.len();
            &&& 0 <= k < text.len()
            &&& runs_of(segs.drop_last(), text.take(k), mask.take(k))
            &&& segs.last().text@ == text.subrange(k, text.len() as int)
            &&& forall|q: int| k <= q < text.len() ==> mask[q] == segs.last().bold
            &&& segs.len() > 1 ==> mask[k - 1] != segs.last().bold
        }),
{
    let a = segs.drop_last();
    let l = segs.last();
    lemma_bold_marks_len(a);
    let k = joined(a).len() as int;
    assert(segs[segs.len() - 1].text@.len() > 0);
    assert(text == joined(a) + l.text@);
    assert(mask == bold_marks(a) + Seq::new(l.text@.len(), |q: int| l.bold));
    assert(text.take(k) =~= joined(a));
    assert(mask.take(k) =~= bold_marks(a));
    assert(l.text@ =~= text.subrange(k, text.len() as int));
    assert forall|q: int| 0 <= q < a.len() implies (#[trigger] a[q]).text@.len() > 0 by {
        assert(a[q] == segs[q]);
    }
    assert forall|q: int| 0 <= q < a.len() - 1 implies (#[trigger] a[q]).bold != a[q + 1].bold by {
        assert(a[q] == segs[q]);
        assert(a[q + 1] == segs[q + 1]);
    }
    if segs.len() > 1 {
        let a2 = a.drop_last();
        assert(a.last() == segs[segs.len() - 2]);
        assert(segs[segs.len() - 2].bold != segs[segs.len() - 1].bold);
        assert(a[a.len() - 1].text@.len() > 0);
        lemma_bold_marks_len(a2);
        assert(bold_marks(a) == bold_marks(a2) + Seq::new(a.last().text@.len(), |q: int| a.last().bold));
        assert(mask[k - 1] == bold_marks(a)[k - 1]);
    }
}

proof fn lemma_runs_unique(a: Seq<HighlightSegment>, b: Seq<HighlightSegment>, text: Seq<char>, mask: Seq<bool>)
    requires
        runs_of(a, text, mask),
        runs_of(b, text, mask),
    ensures
        segment_view(a) == segment_view(b),
    decreases a.len(),
{
    if a.len() == 0 || b.len() == 0 {
        if a.len() > 0 {
            lemma_runs_drop_last(a, text, mask);
        }
        if b.len() > 0 {
            lemma_runs_drop_last(b, text, mask);
        }
        assert(segment_view(a) =~= segment_view(b));
    } else {
        lemma_runs_drop_last(a, text, mask);
        lemma_runs_drop_last(b, text, mask);
        let n = text.len() as int;
        let ka = n - a.last().text@.len();
        let kb = n - b.last().text@.len();
        assert(mask[n - 1] == a.last().bold);
        assert(mask[n - 1] == b.last().bold);
        if ka < kb {
            assert(b.len() > 1) by {
                if b.len() == 1 {
                    assert(kb == 0);
                }
            }
            assert(mask[kb - 1] == a.last().bold);
        } else if kb < ka {
            assert(a.len() > 1) by {
                if a.len() == 1 {
                    assert(ka == 0);
                }
            }
            assert(mask[ka - 1] == b.last().bold);
        }
        assert(ka == kb);
        lemma_runs_unique(a.drop_last(), b.drop_last(), text.take(ka), mask.take(ka));
        assert(segment_view(a) =~= segment_view(a.drop_last()).push((a.last().text@, a.last().bold)));
        assert(segment_view(b) =~= segment_view(b.drop_last()).push((b.last().text@, b.last().bold)));
    }
}

/// Highlighting is a function of the text and the terms: two segment lists
/// that both meet the contract hold the same texts with the same boldness.
pub proof fn lemma_highlight_deterministic(
    r1: Seq<HighlightSegment>,
    r2: Seq<HighlightSegment>,
    text: Seq<char>,
    terms: Seq<Seq<char>>,
)
    requires
        highlighted(r1, text, terms),
        highlighted(r2, text, terms),
    ensures
        segment_view(r1) == segment_view(r2),
{
    if has_live_term(terms) && text.len() > 0 {
        lemma_runs_unique(r1, r2, text, highlight_mask(text, terms));
    } else {
        assert(segment_view(r1) =~= segment_view(r2));
    }
}

/// One flag per character of `text`: set where a term matched.
pub fn highlight_positions(text: &str, terms: &Vec<String>) -> (r: Vec<bool>)
    ensures
        r@ == highlight_mask(text@, strings_view(terms@)),
{
    let ghost ts = strings_view(terms@);
    let n = text.unicode_len();
    let mut mask: Vec<bool> = Vec::new();
    let mut q: usize = 0;
    while q < n
        invariant
            q <= n,
            mask@ == Seq::new(q as nat, |k: int| false),
        decreases n - q,
    {
        mask.push(false);
        q = q + 1;
        assert(mask@ =~= Seq::new(q as nat, |k: int| false));
    }
    let spans = word_bounds(text);
    let mut i: usize = 0;
    while i < spans.len()
        invariant
            n == text@.len(),
            i <= spans@.len(),
            span_view(spans@) == word_spans(text@),
            forall|k: int| 0 <= k < spans@.len() ==> (#[trigger] spans@[k]).0 < spans@[k].1 <= text@.len(),
            ts == strings_view(terms@),
            mask@ == mark_words(text@, ts, i as int),
        decreases spans@.len() - i,
    {
        let (a, b) = spans[i];
        assert(span_view(spans@)[i as int] == (a as int, b as int));
        let word = text.substring_char(a, b);
        let ghost m0 = mask@;
        proof {
            lemma_mark_words_len(text@, ts, i as int);
        }
        let mut j: usize = 0;
        while j < terms.len()
            invariant
                n == text@.len(),
                a < b <= n,
                word@ == text@.subrange(a as int, b as int),
                j <= terms@.len(),
                ts == strings_view(terms@),
                mask@ == mark_terms(m0, text@, (a as int, b as int), ts, j as int),
                mask@.len() == n,
            decreases terms@.len() - j,
        {
            assert(ts[j as int] == terms@[j as int]@);
            match find_fuzzy_match_indices(terms[j].as_str(), word) {
                Some(ix) => {
                    let ghost m1 = mask@;
                    let ghost iv = index_view(ix@);
                    let mut p: usize = 0;
                    assert(mask@ =~= Seq::new(n as nat, |k: int| m1[k] || iv.take(0).contains(k - a)));
                    while p < ix.len()
                        invariant
                            n == text@.len(),
                            a < n,
                            p <= ix@.len(),
                            iv == index_view(ix@),
                            m1.len() == n,
                            mask@ == Seq::new(n as nat, |k: int| m1[k] || iv.take(p as int).contains(k - a)),
                        decreases ix@.len() - p,
                    {
                        let x = ix[p];
                        let ghost prev = mask@;
                        if x < n - a {
                            mask.set(a + x, true);
                        }
                        assert forall|k: int| 0 <= k < n implies #[trigger] mask@[k] == (m1[k] || iv.take(p + 1).contains(k - a)) by {
                            if iv.take(p + 1).contains(k - a) {
                                let w = choose|w: int| 0 <= w < p + 1 && #[trigger] iv.take(p + 1)[w] == k - a;
                                if w < p {
                                    assert(iv.take(p as int)[w] == k - a);
                                }
                            }
                            if iv.take(p as int).contains(k - a) {
                                let w = choose|w: int| 0 <= w < p && #[trigger] iv.take(p as int)[w] == k - a;
                                assert(iv.take(p + 1)[w] == k - a);
                            }
                            if k - a == x {
                                assert(iv.take(p + 1)[p as int] == k - a);
                            }
                        }
                        assert(mask@ =~= Seq::new(n as nat, |k: int| m1[k] || iv.take(p + 1).contains(k - a)));
                        p = p + 1;
                    }
                    assert(iv.take(p as int) =~= iv);
                    assert(mask@ =~= mark(m1, a as int, iv));
                },
                None => {},
            }
            j = j + 1;
        }
        assert(mark_words(text@, ts, i + 1) == mark_terms(m0, text@, (a as int, b as int), ts, terms@.len() as int));
        i = i + 1;
    }
    mask
}

/// The maximal runs of `text` that share one flag of `mask`; an empty text
/// gives one empty plain segment.
pub fn segments_from_mask(text: &str, mask: &Vec<bool>) -> (r: Vec<HighlightSegment>)
    requires
        mask@.len() == text@.len(),
    ensures
        text@.len() > 0 ==> runs_of(r@, text@, mask@),
        text@.len() == 0 ==> r@.len() == 1 && r@[0].text@ == text@ && !r@[0].bold,
{
    let n = text.unicode_len();
    let mut segs: Vec<HighlightSegment> = Vec::new();
    if n == 0 {
        segs.push(HighlightSegment { text: text.to_owned(), bold: false });
        return segs;
    }
    let mut start: usize = 0;
    let mut cur_bold = mask[0];
    let mut i: usize = 1;
    proof {
        assert(text@.take(0) =~= Seq::<char>::empty());
        assert(mask@.take(0) =~= Seq::<bool>::empty());
    }
    while i < n
        invariant
            n == text@.len(),
            mask@.len() == n,
            start < i <= n,
            forall|q: int| start <= q < i ==> #[trigger] mask@[q] == cur_bold,
            joined(segs@) == text@.take(start as int),
            bold_marks(segs@) == mask@.take(start as int),
            forall|s: int| 0 <= s < segs@.len() ==> (#[trigger] segs@[s]).text@.len() > 0,
            forall|s: int| 0 <= s < segs@.len() - 1 ==> (#[trigger] segs@[s]).bold != segs@[s + 1].bold,
            segs@.len() > 0 ==> segs@.last().bold != cur_bold,
        decreases n - i,
    {
        if mask[i] != cur_bold {
            let ghost before = segs@;
            let piece = text.substring_char(start, i).to_owned();
            segs.push(HighlightSegment { text: piece, bold: cur_bold });
            proof {
                assert(segs@.drop_last() =~= before);
                assert(text@.take(start as int) + text@.subrange(start as int, i as int) =~= text@.take(i as int));
                assert(mask@.take(start as int) + Seq::new(piece@.len(), |k: int| cur_bold) =~= mask@.take(i as int));
            }
            start = i;
            cur_bold = mask[i];
        }
        i = i + 1;
    }
    let ghost before = segs@;
    let piece = text.substring_char(start, n).to_owned();
    segs.push(HighlightSegment { text: piece, bold: cur_bold });
    proof {
        assert(segs@.drop_last() =~= before);
        assert(text@.take(start as int) + text@.subrange(start as int, n as int) =~= text@);
        assert(mask@.take(start as int) + Seq::new(piece@.len(), |k: int| cur_bold) =~= mask@);
    }
    segs
}

/// Splits `text` into bold and plain segments by the characters that the
/// non-empty `terms` matched, word by word; without a non-empty term the
/// whole text is one plain segment.
pub fn build_highlight_segments(text: &str, terms: &Vec<String>) -> (r: Vec<HighlightSegment>)
    ensures
        joined(r@) == text@,
        highlighted(r@, text@, strings_view(terms@)),
{
    let ghost ts = strings_view(terms@);
    let mut live = false;
    let mut k: usize = 0;
    while k < terms.len()
        invariant
            k <= terms@.len(),
            ts == strings_view(terms@),
            live == exists|q: int| 0 <= q < k && #[trigger] ts[q].len() > 0,
        decreases terms@.len() - k,
    {
        assert(ts[k as int] == terms@[k as int]@);
        if terms[k].unicode_len() > 0 {
            live = true;
        }
        k = k + 1;
    }
    if !live {
        let mut segs: Vec<HighlightSegment> = Vec::new();
        let seg = HighlightSegment { text: text.to_owned(), bold: false };
        segs.push(seg);
        proof {
            assert(segs@.drop_last() =~= Seq::<HighlightSegment>::empty());
            assert(Seq::<char>::empty() + text@ =~= text@);
            assert(joined(segs@) == joined(segs@.drop_last()) + segs@.last().text@);
        }
        return segs;
    }
    let mask = highlight_positions(text, terms);
    proof {
        lemma_mark_words_len(text@, ts, word_spans(text@).len() as int);
    }
    let segs = segments_from_mask(text, &mask);
    proof {
        if text@.len() == 0 {
            assert(segs@.drop_last() =~= Seq::<HighlightSegment>::empty());
            assert(Seq::<char>::empty() + segs@[0].text@ =~= text@);
            assert(joined(segs@) == joined(segs@.drop_last()) + segs@.last().text@);
        }
    }
    segs
}

} // verus!
