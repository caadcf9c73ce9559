//! Picking the best few entries by a score key, ties kept in index order.

use vstd::prelude::*;

verus! {

/// Entry `a` ranks before entry `b`: a higher key, or an equal key and a
/// smaller index.
pub open spec fn precedes(keys: Seq<u64>, a: int, b: int) -> bool {
    keys[a] > keys[b] || (keys[a] == keys[b] && a < b)
}

pub open spec fn listed(r: Seq<usize>, x: int) -> bool {
    exists|p: int| 0 <= p < r.len() && r[p] == x
}

/// `r` lists, best first, the `cap` best eligible entries by `precedes`, or
/// all eligible entries when there are fewer.
pub open spec fn is_top(r: Seq<usize>, keys: Seq<u64>, elig: Seq<bool>, cap: nat) -> bool {
    &&& r.len() <= cap
    &&& forall|p: int| 0 <= p < r.len() ==> (#[trigger] r[p]) < keys.len() && elig[r[p] as int]
    &&& forall|p: int, q: int| 0 <= p < q < r.len() ==> precedes(keys, #[trigger] r[p] as int, #[trigger] r[q] as int)
    &&& forall|x: int|
        0 <= x < keys.len() && #[trigger] elig[x] && !listed(r, x) ==> r.len() == cap && forall|p: int|
            0 <= p < r.len() ==> precedes(keys, #[trigger] r[p] as int, x)
}

proof fn lemma_not_before(r1: Seq<usize>, r2: Seq<usize>, keys: Seq<u64>, elig: Seq<bool>, cap: nat, p: int)
    requires
        is_top(r1, keys, elig, cap),
        is_top(r2, keys, elig, cap),
        0 <= p < r1.len(),
        p < r2.len(),
        forall|q: int| 0 <= q < p ==> r1[q] == r2[q],
    ensures
        !precedes(keys, r1[p] as int, r2[p] as int),
{
    let a = r1[p] as int;
    let b = r2[p] as int;
    if precedes(keys, a, b) {
        if listed(r2, a) {
            let w = choose|w: int| 0 <= w < r2.len() && r2[w] == a;
            if w < p {
                assert(r1[w] == r2[w]);
                assert(precedes(keys, r1[w] as int, r1[p] as int));
            } else if w > p {
                assert(precedes(keys, r2[p] as int, r2[w] as int));
            }
        } else {
            assert(elig[a]);
            assert(precedes(keys, r2[p] as int, a));
        }
    }
}

proof fn lemma_top_prefix(r1: Seq<usize>, r2: Seq<usize>, keys: Seq<u64>, elig: Seq<bool>, cap: nat, p: int)
    requires
        is_top(r1, keys, elig, cap),
        is_top(r2, keys, elig, cap),
        0 <= p <= r1.len(),
        p <= r2.len(),
    ensures
        forall|q: int| 0 <= q < p ==> r1[q] == r2[q],
    decreases p,
{
    if p > 0 {
        lemma_top_prefix(r1, r2, keys, elig, cap, p - 1);
        lemma_not_before(r1, r2, keys, elig, cap, p - 1);
        lemma_not_before(r2, r1, keys, elig, cap, p - 1);
    }
}

proof fn lemma_top_len(r1: Seq<usize>, r2: Seq<usize>, keys: Seq<u64>, elig: Seq<bool>, cap: nat)
    requires
        is_top(r1, keys, elig, cap),
        is_top(r2, keys, elig, cap),
    ensures
        r2.len() <= r1.len(),
{
    if r1.len() < r2.len() {
        let n = r1.len() as int;
        lemma_top_prefix(r1, r2, keys, elig, cap, n);
        let x = r2[n] as int;
        assert(elig[x]);
        let w = choose|w: int| 0 <= w < r1.len() && r1[w] == x;
        assert(r2[w] == r1[w]);
        assert(precedes(keys, r2[w] as int, r2[n] as int));
    }
}

/// The best entries are determined by the keys, the eligibility marks and
/// the cap: two lists that both qualify are the same list.
pub proof fn lemma_top_unique(r1: Seq<usize>, r2: Seq<usize>, keys: Seq<u64>, elig: Seq<bool>, cap: nat)
    requires
        is_top(r1, keys, elig, cap),
        is_top(r2, keys, elig, cap),
    ensures
        r1 == r2,
{
    lemma_top_len(r1, r2, keys, elig, cap);
    lemma_top_len(r2, r1, keys, elig, cap);
    lemma_top_prefix(r1, r2, keys, elig, cap, r1.len() as int);
    assert(r1 =~= r2);
}

/// The `cap` best entries among those marked in `elig`, best first; equal
/// keys keep index order.
pub fn top_ranked(keys: &Vec<u64>, elig: &Vec<bool>, cap: usize) -> (r: Vec<usize>)
    requires
        keys@.len() == elig@.len(),
    ensures
        is_top(r@, keys@, elig@, cap as nat),
{
    let n = keys.len();
    let mut r: Vec<usize> = Vec::new();
    let mut done = false;
    while r.len() < cap && !done
        invariant
            n == keys@.len(),
            n == elig@.len(),
            r@.len() <= cap,
            forall|p: int| 0 <= p < r@.len() ==> (#[trigger] r@[p]) < n && elig@[r@[p] as int],
            forall|p: int, q: int| 0 <= p < q < r@.len() ==> precedes(keys@, #[trigger] r@[p] as int, #[trigger] r@[q] as int),
            forall|x: int|
                0 <= x < n && #[trigger] elig@[x] && !listed(r@, x) ==> forall|p: int|
                    0 <= p < r@.len() ==> precedes(keys@, #[trigger] r@[p] as int, x),
            done ==> forall|x: int| 0 <= x < n && #[trigger] elig@[x] ==> listed(r@, x),
        decreases cap - r@.len() + (if done { 0int } else { 1int }),
    {
        let mut best: Option<usize> = None;
        let mut i: usize = 0;
        while i < n
            invariant
                n == keys@.len(),
                n == elig@.len(),
                i <= n,
                r@.len() < cap,
                forall|p: int| 0 <= p < r@.len() ==> (#[trigger] r@[p]) < n,
                match best {
                    Some(b) => b < n && elig@[b as int] && (r@.len() == 0 || precedes(keys@, r@.last() as int, b as int))
                        && forall|c: int| 0 <= c < i && #[trigger] elig@[c] && (r@.len() == 0 || precedes(keys@, r@.last() as int, c))
                            ==> c == b || precedes(keys@, b as int, c),
                    None => forall|c: int| 0 <= c < i && #[trigger] elig@[c] ==> !(r@.len() == 0 || precedes(keys@, r@.last() as int, c)),
                },
            decreases n - i,
        {
            if elig[i] && (r.len() == 0 || {
                let l = r[r.len() - 1];
                keys[l] > keys[i] || (keys[l] == keys[i] && l < i)
            }) {
                let better = match best {
                    None => true,
                    Some(b) => keys[i] > keys[b] || (keys[i] == keys[b] && i < b),
                };
                if better {
                    best = Some(i);
                }
            }
            i = i + 1;
        }
        match best {
            None => {
                done = true;
                assert forall|x: int| 0 <= x < n && #[trigger] elig@[x] implies listed(r@, x) by {
                    if !listed(r@, x) && r@.len() > 0 {
                        assert(precedes(keys@, r@[r@.len() - 1] as int, x));
                    }
                }
            },
            Some(b) => {
                let ghost before = r@;
                r.push(b);
                proof {
                    assert forall|p: int| 0 <= p < r@.len() implies (#[trigger] r@[p]) < n && elig@[r@[p] as int] by {
                        if p < before.len() {
                            assert(r@[p] == before[p]);
                        }
                    }
                    assert forall|p: int, q: int| 0 <= p < q < r@.len() implies precedes(keys@, #[trigger] r@[p] as int, #[trigger] r@[q] as int) by {
                        assert(r@[p] == before[p]);
                        if q < before.len() {
                            assert(r@[q] == before[q]);
                        } else if p < before.len() - 1 {
                            assert(precedes(keys@, before[p] as int, before[before.len() - 1] as int));
                        }
                    }
                    assert forall|x: int| 0 <= x < n && #[trigger] elig@[x] && !listed(r@, x) implies forall|p: int|
                        0 <= p < r@.len() ==> precedes(keys@, #[trigger] r@[p] as int, x) by {
                        assert(!listed(before, x)) by {
                            if listed(before, x) {
                                let w = choose|w: int| 0 <= w < before.len() && before[w] == x;
                                assert(r@[w] == x);
                            }
                        }
                        assert(x != b) by {
                            assert(r@[before.len() as int] == b);
                        }
                        if before.len() > 0 {
                            assert(precedes(keys@, before[before.len() - 1] as int, x));
                        }
                        assert forall|p: int| 0 <= p < r@.len() implies precedes(keys@, #[trigger] r@[p] as int, x) by {
                            if p < before.len() {
                                assert(r@[p] == before[p]);
                            }
                        }
                    }
                }
            },
        }
    }
    proof {
        assert forall|x: int|
            0 <= x < n && #[trigger] elig@[x] && !listed(r@, x) implies r@.len() == cap && forall|p: int|
                0 <= p < r@.len() ==> precedes(keys@, #[trigger] r@[p] as int, x) by {
        }
    }
    r
}

} // verus!
