//! Character-level text primitives: whitespace words, `"| "` fields and
//! case mapping.

use vstd::prelude::*;

verus! {

/// The Unicode `White_Space` property of a character.
pub uninterp spec fn white_space(c: char) -> bool;

/// The lowercase mapping of a whole string.
pub uninterp spec fn lower_of(s: Seq<char>) -> Seq<char>;

/// The first character of the lowercase mapping of a character.
pub uninterp spec fn lower_char(c: char) -> char;

/// Relies on `char::is_whitespace`: the answer depends on the character alone.
#[verifier::external_body]
pub(crate) fn is_space(c: char) -> (r: bool)
    ensures
        r == white_space(c),
{
    c.is_whitespace()
}

/// Relies on `str::to_lowercase`: the result depends on the characters alone.
#[verifier::external_body]
pub(crate) fn lowercase(s: &str) -> (r: String)
    ensures
        r@ == lower_of(s@),
{
    s.to_lowercase()
}

/// Relies on `char::to_lowercase`, which yields one or more characters; the
/// first of them is returned.
#[verifier::external_body]
pub(crate) fn lower_first(c: char) -> (r: Option<char>)
    ensures
        r == Some(lower_char(c)),
{
    c.to_lowercase().next()
}

/// Relies on `String::push`: appends one character.
#[verifier::external_body]
pub(crate) fn push_char(s: &mut String, c: char)
    ensures
        final(s)@ == old(s)@.push(c),
{
    s.push(c)
}

/// Half-open character ranges `(start, end)` of the maximal runs of
/// non-whitespace characters of `s`, left to right.
pub open spec fn word_spans(s: Seq<char>) -> Seq<(int, int)>
    decreases s.len(),
{
    if s.len() == 0 {
        Seq::empty()
    } else {
        let n = s.len() as int;
        let p = word_spans(s.drop_last());
        if white_space(s[n - 1]) {
            p
        } else if n >= 2 && !white_space(s[n - 2]) {
            p.update(p.len() - 1, (p.last().0, n))
        } else {
            p.push((n - 1, n))
        }
    }
}

/// The whitespace-separated words of `s`, in order; none is empty.
pub open spec fn words(s: Seq<char>) -> Seq<Seq<char>> {
    word_spans(s).map_values(|sp: (int, int)| s.subrange(sp.0, sp.1))
}

/// The pieces of `s` between occurrences of the delimiter `"| "`; there is
/// always at least one.
pub open spec fn fields(s: Seq<char>) -> Seq<Seq<char>>
    decreases s.len(),
{
    if s.len() == 0 {
        seq![Seq::empty()]
    } else {
        let n = s.len() as int;
        if n >= 2 && s[n - 2] == '|' && s[n - 1] == ' ' {
            fields(s.take(n - 2)).push(Seq::empty())
        } else {
            let f = fields(s.drop_last());
            f.update(f.len() - 1, f.last().push(s[n - 1]))
        }
    }
}

pub open spec fn span_view(r: Seq<(usize, usize)>) -> Seq<(int, int)> {
    r.map_values(|p: (usize, usize)| (p.0 as int, p.1 as int))
}

pub open spec fn strings_view(r: Seq<String>) -> Seq<Seq<char>> {
    r.map_values(|s: String| s@)
}

pub proof fn lemma_fields_nonempty(s: Seq<char>)
    ensures
        fields(s).len() >= 1,
    decreases s.len(),
{
    if s.len() > 0 {
        let n = s.len() as int;
        if n >= 2 && s[n - 2] == '|' && s[n - 1] == ' ' {
            lemma_fields_nonempty(s.take(n - 2));
        } else {
            lemma_fields_nonempty(s.drop_last());
        }
    }
}

/// The character ranges of the whitespace-separated words of `s`.
pub fn word_bounds(s: &str) -> (r: Vec<(usize, usize)>)
    ensures
        span_view(r@) == word_spans(s@),
        forall|k: int| 0 <= k < r@.len() ==> #[trigger] r@[k].0 < r@[k].1 <= s@.len(),
{
    let n = s.unicode_len();
    let mut r: Vec<(usize, usize)> = Vec::new();
    let mut start: usize = 0;
    let mut in_word = false;
    let mut i: usize = 0;
    while i < n
        invariant
            n == s@.len(),
            i <= n,
            start <= i,
            in_word ==> start < i,
            in_word <==> (i > 0 && !white_space(s@[i - 1])),
            forall|k: int| 0 <= k < r@.len() ==> (#[trigger] r@[k]).0 < r@[k].1 && r@[k].1 <= i,
            word_spans(s@.take(i as int)) == span_view(r@) + (if in_word {
                seq![(start as int, i as int)]
            } else {
                Seq::empty()
            }),
        decreases n - i,
    {
        let c = s.get_char(i);
        let ghost before = r@;
        proof {
            assert(s@.take(i + 1).drop_last() =~= s@.take(i as int));
        }
        if is_space(c) {
            if in_word {
                r.push((start, i));
                in_word = false;

                assert(span_view(r@) =~= span_view(before).push((start as int, i as int)));
            } else {
                assert(span_view(r@) + Seq::empty() =~= span_view(r@));
            }
        } else {
            if !in_word {
                start = i;
                in_word = true;
                assert(span_view(r@) + Seq::empty() =~= span_view(r@));
            }
            assert(span_view(r@) + seq![(start as int, i + 1)] =~= (span_view(r@) + seq![
                (start as int, i as int),
            ]).update(span_view(r@).len() as int, (start as int, i + 1)));
        }
        assert forall|k: int| 0 <= k < r@.len() implies (#[trigger] r@[k]).0 < r@[k].1 && r@[k].1 <= i + 1 by {
            if k < before.len() {
                assert(r@[k] == before[k]);
            }
        }
        i = i + 1;
    }
    let ghost before = r@;
    if in_word {
        r.push((start, n));
        assert(span_view(r@) =~= span_view(before).push((start as int, n as int)));
    } else {
        assert(span_view(r@) + Seq::empty() =~= span_view(r@));
    }
    proof {
        assert(s@.take(n as int) =~= s@);
    }
    r
}

/// The whitespace-separated words of `s`.
pub fn split_words(s: &str) -> (r: Vec<String>)
    ensures
        strings_view(r@) == words(s@),
{
    let spans = word_bounds(s);
    let mut r: Vec<String> = Vec::new();
    let mut k: usize = 0;
    while k < spans.len()
        invariant
            k <= spans@.len(),
            span_view(spans@) == word_spans(s@),
            forall|q: int| 0 <= q < spans@.len() ==> #[trigger] spans@[q].0 < spans@[q].1 <= s@.len(),
            strings_view(r@) == words(s@).take(k as int),
        decreases spans@.len() - k,
    {
        let (a, b) = spans[k];
        let w = s.substring_char(a, b).to_owned();
        let ghost before = r@;
        r.push(w);
        proof {
            assert(span_view(spans@)[k as int] == (a as int, b as int));
            assert(strings_view(r@) =~= strings_view(before).push(w@));
            assert(words(s@).take(k + 1) =~= words(s@).take(k as int).push(words(s@)[k as int]));
        }
        k = k + 1;
    }
    assert(words(s@).take(k as int) =~= words(s@));
    r
}

/// The pieces of `s` between occurrences of `"| "`.
pub fn split_fields(s: &str) -> (r: Vec<String>)
    ensures
        strings_view(r@) == fields(s@),
{
    let n = s.unicode_len();
    let mut r: Vec<String> = Vec::new();
    let mut start: usize = 0;
    let mut i: usize = 0;
    proof {
        assert(s@.take(0) =~= Seq::<char>::empty());
        assert(strings_view(r@).push(s@.subrange(0, 0)) =~= seq![Seq::<char>::empty()]);
    }
    while i < n
        invariant
            n == s@.len(),
            start <= i <= n,
            start > 0 ==> s@[start - 1] == ' ',
            fields(s@.take(i as int)) == strings_view(r@).push(s@.subrange(start as int, i as int)),
        decreases n - i,
    {
        let c = s.get_char(i);
        let ghost t = s@.take(i + 1);
        proof {
            assert(t.drop_last() =~= s@.take(i as int));
        }
        if c == ' ' && i >= 1 && s.get_char(i - 1) == '|' {
            let ghost f = fields(s@.take(i - 1));
            proof {
                assert(s@.take(i as int).drop_last() =~= s@.take(i - 1));
                assert(t.take(i - 1) =~= s@.take(i - 1));
                lemma_fields_nonempty(s@.take(i - 1));
                assert(i - 1 >= start);
                let cur = fields(s@.take(i as int));
                assert(cur == f.update(f.len() - 1, f.last().push('|')));
                assert(f =~= strings_view(r@).push(s@.subrange(start as int, i - 1))) by {
                    assert(cur.len() == f.len());
                    assert forall|k: int| 0 <= k < f.len() - 1 implies f[k] == strings_view(
                        r@,
                    )[k] by {
                        assert(cur[k] == f[k]);
                    }
                    assert(cur[f.len() - 1] == f.last().push('|'));
                    assert(f.last() =~= cur[f.len() - 1].drop_last());
                    assert(s@.subrange(start as int, i as int).drop_last() =~= s@.subrange(
                        start as int,
                        i - 1,
                    ));
                }
            }
            let ghost before = r@;
            let piece = s.substring_char(start, i - 1).to_owned();
            r.push(piece);
            start = i + 1;
            proof {
                assert(strings_view(r@) =~= strings_view(before).push(piece@));
                assert(s@.subrange(start as int, i + 1) =~= Seq::<char>::empty());
            }
        } else {
            proof {
                lemma_fields_nonempty(s@.take(i as int));
                assert(!(t.len() >= 2 && t[t.len() - 2] == '|' && t[t.len() - 1] == ' '));
                assert(fields(t) == fields(s@.take(i as int)).update(
                    fields(s@.take(i as int)).len() - 1,
                    fields(s@.take(i as int)).last().push(c),
                ));
                assert(s@.subrange(start as int, i + 1) =~= s@.subrange(start as int, i as int).push(c));
                assert(strings_view(r@).push(s@.subrange(start as int, i + 1)) =~= strings_view(
                    r@,
                ).push(s@.subrange(start as int, i as int)).update(
                    r@.len() as int,
                    s@.subrange(start as int, i as int).push(c),
                ));
            }
        }
        i = i + 1;
    }
    let ghost before = r@;
    let last = s.substring_char(start, n).to_owned();
    r.push(last);
    proof {
        assert(strings_view(r@) =~= strings_view(before).push(last@));
        assert(s@.take(n as int) =~= s@);
    }
    r
}

} // verus!
