//! Selection history and the part of frecency scoring that decides which
//! past selections count for a query and how old they are.

use vstd::prelude::*;
use crate::text::{lower_of, lowercase};

verus! {

/// One committed pick: the entry's code, the query it was picked under
/// (lowercased), and when (seconds since the Unix epoch).
pub struct Selection {
    pub code: String,
    pub query: String,
    pub ts: u64,
}

/// A selection that counts for the current query, with its age in seconds.
pub struct Contribution {
    pub code: String,
    pub age: u64,
}

/// Whether `b` is a literal prefix of `a`.
pub open spec fn is_prefix(b: Seq<char>, a: Seq<char>) -> bool {
    b.len() <= a.len() && a.subrange(0, b.len() as int) == b
}

/// One query is a prefix of the other.
pub open spec fn prefix_related(a: Seq<char>, b: Seq<char>) -> bool {
    is_prefix(b, a) || is_prefix(a, b)
}

/// A stored query counts for the current (lowercased) query when the current
/// one is empty or the two are prefix-related.
pub open spec fn counts_for(current: Seq<char>, stored: Seq<char>) -> bool {
    current.len() == 0 || prefix_related(current, stored)
}

/// Age of a timestamp at `now`; a timestamp in the future has age 0.
pub open spec fn age_at(now: u64, ts: u64) -> u64 {
    if now >= ts {
        (now - ts) as u64
    } else {
        0
    }
}

/// The `(code, age)` of each selection that counts for `current`, in log order.
pub open spec fn contributions(sels: Seq<Selection>, current: Seq<char>, now: u64) -> Seq<(Seq<char>, u64)>
    decreases sels.len(),
{
    if sels.len() == 0 {
        Seq::empty()
    } else {
        let prev = contributions(sels.drop_last(), current, now);
        let s = sels.last();
        if counts_for(current, s.query@) {
            prev.push((s.code@, age_at(now, s.ts)))
        } else {
            prev
        }
    }
}

pub open spec fn contribution_view(r: Seq<Contribution>) -> Seq<(Seq<char>, u64)> {
    r.map_values(|c: Contribution| (c.code@, c.age))
}

impl Selection {
    /// A selection record; the query is stored lowercased.
    pub fn new(code: String, query: &str, ts: u64) -> (r: Selection)
        ensures
            r.code@ == code@,
            r.query@ == lower_of(query@),
            r.ts == ts,
    {
        Selection { code, query: lowercase(query), ts }
    }
}

/// Whether `p` is a prefix of `s`.
fn starts_with(s: &str, p: &str) -> (r: bool)
    ensures
        r == is_prefix(p@, s@),
{
    let sn = s.unicode_len();
    let pn = p.unicode_len();
    if pn > sn {
        return false;
    }
    let mut i: usize = 0;
    while i < pn
        invariant
            sn == s@.len(),
            pn == p@.len(),
            pn <= sn,
            i <= pn,
            forall|k: int| 0 <= k < i ==> s@[k] == p@[k],
        decreases pn - i,
    {
        if s.get_char(i) != p.get_char(i) {
            assert(s@.subrange(0, pn as int)[i as int] != p@[i as int]);
            return false;
        }
        i = i + 1;
    }
    assert(s@.subrange(0, pn as int) =~= p@);
    true
}

/// Whether the two queries are prefix-related.
pub fn queries_match(current: &str, stored: &str) -> (r: bool)
    ensures
        r == prefix_related(current@, stored@),
{
    starts_with(current, stored) || starts_with(stored, current)
}

/// The selections that count for `current_query` (compared lowercased),
/// each with its code and its age at `now`.
pub fn frecency_contributions(selections: &Vec<Selection>, current_query: &str, now: u64) -> (r: Vec<Contribution>)
    ensures
        contribution_view(r@) == contributions(selections@, lower_of(current_query@), now),
{
    let current = lowercase(current_query);
    let mut r: Vec<Contribution> = Vec::new();
    let mut k: usize = 0;
    while k < selections.len()
        invariant
            k <= selections@.len(),
            current@ == lower_of(current_query@),
            contribution_view(r@) == contributions(selections@.take(k as int), current@, now),
        decreases selections@.len() - k,
    {
        let sel = &selections[k];
        proof {
            assert(selections@.take(k + 1).drop_last() =~= selections@.take(k as int));
        }
        let empty = current.as_str().unicode_len() == 0;
        if empty || queries_match(current.as_str(), sel.query.as_str()) {
            let age = now.saturating_sub(sel.ts);
            let ghost before = r@;
            r.push(Contribution { code: sel.code.clone(), age });
            assert(contribution_view(r@) =~= contribution_view(before).push((sel.code@, age)));
        }
        k = k + 1;
    }
    assert(selections@.take(k as int) =~= selections@);
    r
}

/// Relies on `SystemTime::now`, measured against `UNIX_EPOCH`: whole seconds,
/// or `None` when the clock stands before the epoch.
#[verifier::external_body]
fn unix_seconds() -> (r: Option<u64>) {
    std::time::SystemTime::now().duration_since(std::time::UNIX_EPOCH).ok().map(|d| d.as_secs())
}

/// Seconds since the Unix epoch by the system clock, or 0 when the clock
/// stands before the epoch.
pub fn current_timestamp() -> (r: u64) {
    match unix_seconds() {
        Some(s) => s,
        None => 0,
    }
}

} // verus!
