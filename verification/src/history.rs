//! The model of one asset's price history: a sequence of observations with
//! strictly increasing timestamps, together with the upsert and eviction
//! transitions and the executable helpers that realize them on a `Vec`.

use vstd::prelude::*;

use crate::PriceData;

verus! {

/// Timestamps strictly increase in storage order: no duplicates.
pub open spec fn sorted(s: Seq<PriceData>) -> bool {
    forall|i: int, j: int|
        0 <= i < j < s.len() ==> s[i].timestamp < s[j].timestamp
}

/// Timestamps strictly decrease in storage order (most recent first).
pub open spec fn sorted_desc(s: Seq<PriceData>) -> bool {
    forall|i: int, j: int|
        0 <= i < j < s.len() ==> s[i].timestamp > s[j].timestamp
}

/// No stored price is exactly zero.
pub open spec fn all_nonzero(s: Seq<PriceData>) -> bool {
    forall|i: int| 0 <= i < s.len() ==> s[i].price != 0
}

/// Every stored timestamp is at most `bound`.
pub open spec fn ts_below(s: Seq<PriceData>, bound: u64) -> bool {
    forall|i: int| 0 <= i < s.len() ==> s[i].timestamp <= bound
}

/// Some entry carries timestamp `t`.
pub open spec fn has_ts(s: Seq<PriceData>, t: u64) -> bool {
    exists|i: int| 0 <= i < s.len() && s[i].timestamp == t
}

/// The entry at timestamp `t`, if any. With `sorted` (or `sorted_desc`)
/// histories the witness index is unique, so this is the one stored entry.
pub open spec fn lookup(s: Seq<PriceData>, t: u64) -> Option<PriceData> {
    if has_ts(s, t) {
        let i = choose|i: int| 0 <= i < s.len() && s[i].timestamp == t;
        Some(s[i])
    } else {
        None
    }
}

/// Insert `(t, p)` into a sorted history, overwriting the price if an entry
/// at `t` already exists (idempotent upsert, not append).
pub open spec fn upsert(s: Seq<PriceData>, p: i128, t: u64) -> Seq<PriceData>
    decreases s.len(),
{
    if s.len() == 0 {
        seq![PriceData { price: p, timestamp: t }]
    } else if s.last().timestamp < t {
        s.push(PriceData { price: p, timestamp: t })
    } else if s.last().timestamp == t {
        s.update(s.len() - 1, PriceData { price: p, timestamp: t })
    } else {
        upsert(s.drop_last(), p, t).push(s.last())
    }
}

/// Drop the leading entries strictly older than `cutoff` (milliseconds).
pub open spec fn evict(s: Seq<PriceData>, cutoff: int) -> Seq<PriceData>
    decreases s.len(),
{
    if s.len() == 0 {
        s
    } else if (s[0].timestamp as int) < cutoff {
        evict(s.drop_first(), cutoff)
    } else {
        s
    }
}

/// The up-to-`n` most recent entries of an ascending history, most recent
/// first.
pub open spec fn recent_of(s: Seq<PriceData>, n: int) -> Seq<PriceData> {
    let k = if n <= s.len() { n } else { s.len() as int };
    Seq::new(k as nat, |i: int| s[s.len() - 1 - i])
}

/// The timestamp `upsert(s, p, t)` ends with: the stored maximum, since the
/// new entry is placed in order.
pub open spec fn upsert_last_ts(s: Seq<PriceData>, t: u64) -> u64 {
    if s.len() > 0 && s.last().timestamp > t {
        s.last().timestamp
    } else {
        t
    }
}

/// Structural facts about `upsert` on a sorted history: order is preserved,
/// the new entry is present, and every entry is either the new one or an old
/// entry at a different timestamp.
pub proof fn lemma_upsert_props(s: Seq<PriceData>, p: i128, t: u64)
    requires
        sorted(s),
    ensures
        sorted(upsert(s, p, t)),
        upsert(s, p, t).len() >= 1,
        s.len() <= upsert(s, p, t).len() <= s.len() + 1,
        upsert(s, p, t).last() == if s.len() > 0 && s.last().timestamp > t {
            s.last()
        } else {
            (PriceData { price: p, timestamp: t })
        },
        upsert(s, p, t).last().timestamp == upsert_last_ts(s, t),
        upsert(s, p, t).contains(PriceData { price: p, timestamp: t }),
        forall|i: int|
            0 <= i < upsert(s, p, t).len() ==> #[trigger] upsert(s, p, t)[i] == (PriceData {
                price: p,
                timestamp: t,
            }) || (s.contains(upsert(s, p, t)[i]) && upsert(s, p, t)[i].timestamp != t),
        forall|i: int|
            0 <= i < s.len() && s[i].timestamp != t ==> upsert(s, p, t).contains(#[trigger] s[i]),
    decreases s.len(),
{
    let e = PriceData { price: p, timestamp: t };
    let u = upsert(s, p, t);
    if s.len() == 0 {
        assert(u == seq![e]);
        assert(u[0] == e);
    } else if s.last().timestamp < t {
        assert(u == s.push(e));
        assert(u.last() == e);
        assert forall|i: int| 0 <= i < s.len() && s[i].timestamp != t implies u.contains(
            #[trigger] s[i],
        ) by {
            assert(u[i] == s[i]);
        }
    } else if s.last().timestamp == t {
        assert(u == s.update(s.len() - 1, e));
        assert(u.last() == e);
        assert forall|i: int| 0 <= i < s.len() && s[i].timestamp != t implies u.contains(
            #[trigger] s[i],
        ) by {
            assert(i != s.len() - 1);
            assert(u[i] == s[i]);
        }
        assert forall|i: int| 0 <= i < u.len() implies #[trigger] u[i] == e || (s.contains(u[i])
            && u[i].timestamp != t) by {
            if i != s.len() - 1 {
                assert(u[i] == s[i]);
                assert(s[i].timestamp < t);
            }
        }
    } else {
        let d = s.drop_last();
        lemma_upsert_props(d, p, t);
        let ud = upsert(d, p, t);
        assert(u == ud.push(s.last()));
        assert(u.last() == s.last());
        // order: everything in `ud` is either `e` (timestamp t < s.last().timestamp)
        // or an entry of `d`, all of which precede `s.last()`.
        assert forall|i: int, j: int| 0 <= i < j < u.len() implies u[i].timestamp
            < u[j].timestamp by {
            if j < u.len() - 1 {
                assert(u[i] == ud[i] && u[j] == ud[j]);
            } else {
                assert(u[i] == ud[i]);
                if ud[i] == e {
                } else {
                    let k = choose|k: int| 0 <= k < d.len() && d[k] == ud[i];
                    assert(d[k].timestamp < s.last().timestamp);
                }
            }
        }
        assert(u.contains(e)) by {
            let k = choose|k: int| 0 <= k < ud.len() && ud[k] == e;
            assert(u[k] == e);
        }
        assert forall|i: int| 0 <= i < u.len() implies #[trigger] u[i] == e || (s.contains(u[i])
            && u[i].timestamp != t) by {
            if i < u.len() - 1 {
                if ud[i] != e {
                    let k = choose|k: int| 0 <= k < d.len() && d[k] == ud[i];
                    assert(s[k] == d[k]);
                }
            } else {
                assert(u[i] == s.last());
                assert(s.contains(s.last()));
            }
        }
        assert forall|i: int| 0 <= i < s.len() && s[i].timestamp != t implies u.contains(
            #[trigger] s[i],
        ) by {
            if i < s.len() - 1 {
                assert(d[i] == s[i]);
                assert(ud.contains(d[i]));
                let k = choose|k: int| 0 <= k < ud.len() && ud[k] == s[i];
                assert(u[k] == s[i]);
            } else {
                assert(u[u.len() - 1] == s[i]);
            }
        }
    }
}

/// `upsert` over the map view: the entry at `t` becomes `(t, p)` and every
/// other timestamp keeps its old entry.
pub proof fn lemma_upsert_lookup(s: Seq<PriceData>, p: i128, t: u64)
    requires
        sorted(s),
    ensures
        lookup(upsert(s, p, t), t) == Some(PriceData { price: p, timestamp: t }),
        forall|t2: u64| t2 != t ==> lookup(upsert(s, p, t), t2) == lookup(s, t2),
{
    let e = PriceData { price: p, timestamp: t };
    let u = upsert(s, p, t);
    lemma_upsert_props(s, p, t);
    let w = choose|k: int| 0 <= k < u.len() && u[k] == e;
    assert(has_ts(u, t));
    let i0 = choose|i: int| 0 <= i < u.len() && u[i].timestamp == t;
    assert(u[i0] == e);
    assert forall|t2: u64| t2 != t implies lookup(u, t2) == lookup(s, t2) by {
        if has_ts(s, t2) {
            let i = choose|i: int| 0 <= i < s.len() && s[i].timestamp == t2;
            assert(u.contains(s[i]));
            let k = choose|k: int| 0 <= k < u.len() && u[k] == s[i];
            assert(has_ts(u, t2));
            let k2 = choose|k2: int| 0 <= k2 < u.len() && u[k2].timestamp == t2;
            assert(u[k2] == u[k]);
            assert(lookup(u, t2) == Some(s[i]));
            assert(lookup(s, t2) == Some(s[i]));
        } else {
            assert(!has_ts(u, t2)) by {
                if has_ts(u, t2) {
                    let k = choose|k: int| 0 <= k < u.len() && u[k].timestamp == t2;
                    assert(u[k] == e || (s.contains(u[k]) && u[k].timestamp != t));
                    let m = choose|m: int| 0 <= m < s.len() && s[m] == u[k];
                    assert(s[m].timestamp == t2);
                }
            }
        }
    }
}

/// Upserting an entry that is already stored changes nothing.
pub proof fn lemma_upsert_existing(s: Seq<PriceData>, p: i128, t: u64)
    requires
        sorted(s),
        lookup(s, t) == Some(PriceData { price: p, timestamp: t }),
    ensures
        upsert(s, p, t) == s,
    decreases s.len(),
{
    let e = PriceData { price: p, timestamp: t };
    let i = choose|i: int| 0 <= i < s.len() && s[i].timestamp == t;
    assert(s[i] == e);
    if s.last().timestamp == t {
        assert(i == s.len() - 1);
        assert(s.update(s.len() - 1, e) =~= s);
    } else if s.last().timestamp < t {
        assert(false);
    } else {
        let d = s.drop_last();
        assert(i < s.len() - 1);
        assert(d[i] == e);
        assert(has_ts(d, t));
        let k = choose|k: int| 0 <= k < d.len() && d[k].timestamp == t;
        assert(k == i);
        lemma_upsert_existing(d, p, t);
        assert(upsert(d, p, t).push(s.last()) =~= s);
    }
}

/// Structural facts about `evict` on a sorted history: it keeps a suffix, all
/// of it at or after the cutoff, and keeps every entry at or after the
/// cutoff — in particular the most recent one.
pub proof fn lemma_evict_props(s: Seq<PriceData>, cutoff: int)
    requires
        sorted(s),
    ensures
        sorted(evict(s, cutoff)),
        evict(s, cutoff).len() <= s.len(),
        forall|i: int|
            0 <= i < evict(s, cutoff).len() ==> (#[trigger] evict(s, cutoff)[i]).timestamp as int
                >= cutoff,
        forall|i: int| 0 <= i < evict(s, cutoff).len() ==> s.contains(#[trigger] evict(s, cutoff)[i]),
        forall|i: int|
            0 <= i < s.len() && (s[i].timestamp as int) >= cutoff ==> evict(s, cutoff).contains(
                #[trigger] s[i],
            ),
        s.len() > 0 && (s.last().timestamp as int) >= cutoff ==> evict(s, cutoff).len() > 0 && evict(
            s,
            cutoff,
        ).last() == s.last(),
    decreases s.len(),
{
    let r = evict(s, cutoff);
    if s.len() == 0 {
    } else if (s[0].timestamp as int) < cutoff {
        let d = s.drop_first();
        lemma_evict_props(d, cutoff);
        assert(r == evict(d, cutoff));
        assert forall|i: int| 0 <= i < r.len() implies s.contains(#[trigger] r[i]) by {
            let k = choose|k: int| 0 <= k < d.len() && d[k] == r[i];
            assert(s[k + 1] == d[k]);
        }
        assert forall|i: int| 0 <= i < s.len() && (s[i].timestamp as int) >= cutoff implies r
            .contains(#[trigger] s[i]) by {
            assert(i != 0);
            assert(d[i - 1] == s[i]);
            assert(evict(d, cutoff).contains(d[i - 1]));
        }
        if s.len() > 0 && (s.last().timestamp as int) >= cutoff {
            assert(d.last() == s.last());
        }
    } else {
        assert(r == s);
        assert forall|i: int| 0 <= i < r.len() implies (#[trigger] r[i]).timestamp as int
            >= cutoff by {
            if i > 0 {
                assert(s[0].timestamp < s[i].timestamp);
            }
        }
    }
}

/// Evicting twice at the same cutoff is the same as evicting once.
pub proof fn lemma_evict_idempotent(s: Seq<PriceData>, cutoff: int)
    requires
        sorted(s),
    ensures
        evict(evict(s, cutoff), cutoff) == evict(s, cutoff),
{
    lemma_evict_props(s, cutoff);
    let r = evict(s, cutoff);
    if r.len() > 0 {
        assert(r[0].timestamp as int >= cutoff);
    }
}

/// A most-recent-first window of a sorted history is sorted descending.
pub proof fn lemma_recent_sorted(s: Seq<PriceData>, n: int)
    requires
        sorted(s),
        n >= 0,
    ensures
        sorted_desc(recent_of(s, n)),
        recent_of(s, n).len() == if n <= s.len() {
            n
        } else {
            s.len() as int
        },
        forall|i: int|
            0 <= i < recent_of(s, n).len() ==> #[trigger] recent_of(s, n)[i] == s[s.len() - 1 - i],
{
}

/// Upsert `(t, p)` into a sorted history held in a `Vec`.
pub fn upsert_in(h: &mut Vec<PriceData>, p: i128, t: u64)
    requires
        sorted(old(h)@),
    ensures
        final(h)@ == upsert(old(h)@, p, t),
{
    let ghost s = h@;
    let e = PriceData { price: p, timestamp: t };
    let mut j: usize = h.len();
    while j > 0 && h[j - 1].timestamp > t
        invariant
            j <= h.len(),
            h@ == s,
            sorted(s),
            forall|m: int| j <= m < s.len() ==> s[m].timestamp > t,
        decreases j,
    {
        j = j - 1;
    }
    proof {
        lemma_upsert_at(s, p, t, j as int);
    }
    if j > 0 && h[j - 1].timestamp == t {
        h.set(j - 1, e);
    } else {
        h.insert(j, e);
    }
}

/// Locates where `(t, p)` lands in a sorted history: `upsert` either
/// overwrites in place or inserts at the scan position.
pub proof fn lemma_upsert_at(s: Seq<PriceData>, p: i128, t: u64, j: int)
    requires
        sorted(s),
        0 <= j <= s.len(),
        forall|m: int| j <= m < s.len() ==> s[m].timestamp > t,
        j > 0 ==> s[j - 1].timestamp <= t,
    ensures
        j > 0 && s[j - 1].timestamp == t ==> upsert(s, p, t) == s.update(
            j - 1,
            PriceData { price: p, timestamp: t },
        ),
        !(j > 0 && s[j - 1].timestamp == t) ==> upsert(s, p, t) == s.insert(
            j,
            PriceData { price: p, timestamp: t },
        ),
    decreases s.len(),
{
    let e = PriceData { price: p, timestamp: t };
    if s.len() == 0 {
        assert(upsert(s, p, t) =~= s.insert(0, e));
    } else if j == s.len() {
        if s.last().timestamp == t {
        } else {
            assert(s.last().timestamp < t);
            assert(s.insert(j, e) =~= s.push(e));
        }
    } else {
        assert(s.last().timestamp > t);
        let d = s.drop_last();
        lemma_upsert_at(d, p, t, j);
        if j > 0 && s[j - 1].timestamp == t {
            assert(d[j - 1] == s[j - 1]);
            assert(upsert(d, p, t).push(s.last()) =~= s.update(j - 1, e));
        } else {
            assert(upsert(d, p, t).push(s.last()) =~= s.insert(j, e));
        }
    }
}

/// Drop from a sorted history every entry strictly older than
/// `latest - retention * 1000` milliseconds.
pub fn evict_in(h: &mut Vec<PriceData>, latest: u64, retention: u64)
    requires
        sorted(old(h)@),
    ensures
        final(h)@ == evict(old(h)@, latest as int - retention as int * 1000),
{
    let ghost s = h@;
    let ghost c = latest as int - retention as int * 1000;
    while h.len() > 0 && (h[0].timestamp as u128) + (retention as u128) * 1000 < (latest as u128)
        invariant
            sorted(h@),
            c == latest as int - retention as int * 1000,
            evict(s, c) == evict(h@, c),
        decreases h@.len(),
    {
        let ghost before = h@;
        proof {
            assert((before[0].timestamp as int) < c);
        }
        h.remove(0);
        proof {
            assert(h@ =~= before.drop_first());
            assert(evict(before, c) == evict(before.drop_first(), c));
        }
    }
    proof {
        if h@.len() > 0 {
            assert(h@[0].timestamp as int >= c);
        }
    }
}

/// Find the index of the entry with timestamp `t`, if one exists.
pub fn find_ts(h: &Vec<PriceData>, t: u64) -> (r: Option<usize>)
    ensures
        match r {
            Some(i) => i < h@.len() && h@[i as int].timestamp == t,
            None => !has_ts(h@, t),
        },
{
    let mut i: usize = 0;
    while i < h.len()
        invariant
            i <= h@.len(),
            forall|m: int| 0 <= m < i ==> h@[m].timestamp != t,
        decreases h@.len() - i,
    {
        if h[i].timestamp == t {
            return Some(i);
        }
        i = i + 1;
    }
    None
}

/// Copy the up-to-`n` most recent entries, most recent first.
pub fn recent_in(h: &Vec<PriceData>, n: usize) -> (r: Vec<PriceData>)
    ensures
        r@ == recent_of(h@, n as int),
{
    let k = if n <= h.len() {
        n
    } else {
        h.len()
    };
    let mut r: Vec<PriceData> = Vec::new();
    let mut i: usize = 0;
    while i < k
        invariant
            i <= k,
            k == if n <= h@.len() {
                n as int
            } else {
                h@.len() as int
            },
            r@.len() == i,
            forall|m: int| 0 <= m < i ==> r@[m] == h@[h@.len() - 1 - m],
        decreases k - i,
    {
        r.push(h[h.len() - 1 - i]);
        i = i + 1;
    }
    proof {
        assert(r@ =~= recent_of(h@, n as int));
    }
    r
}

} // verus!
