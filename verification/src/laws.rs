//! Feed-wide laws: properties of the write path that hold for every
//! well-formed feed state, stated over the model transitions and proved once
//! and for all.

use vstd::prelude::*;

use crate::feed::{lemma_after_set, lemma_idx_unique, FeedView};
use crate::history::{
    evict, has_ts, lemma_evict_idempotent, lemma_evict_props, lemma_upsert_at, lemma_upsert_existing,
    lemma_upsert_lookup, lemma_upsert_props, lookup, sorted, upsert, upsert_last_ts,
};
use crate::{Asset, PriceData};

verus! {

/// After any accepted write, the most recent entry for the asset carries the
/// maximum timestamp ever accepted for it: a write with a newer timestamp
/// becomes the latest entry, and a write with an older timestamp than the
/// stored maximum leaves the latest entry unchanged.
pub proof fn lemma_last_price_tracks_max(v: FeedView, a: Asset, p: i128, t: u64)
    requires
        v.wf(),
        v.registered(a),
        p != 0,
    ensures
        v.after_set(a, p, t).last_price(a) matches Some(e) && e.timestamp == upsert_last_ts(
            v.hist(a),
            t,
        ),
        v.hist(a).len() == 0 || t >= v.hist(a).last().timestamp ==> v.after_set(a, p, t).last_price(
            a,
        ) == Some(PriceData { price: p, timestamp: t }),
        v.hist(a).len() > 0 && t < v.hist(a).last().timestamp ==> v.after_set(a, p, t).last_price(a)
            == v.last_price(a),
{
    let h0 = v.hist(a);
    lemma_after_set(v, a, p, t);
    lemma_upsert_props(h0, p, t);
    let h1 = upsert(h0, p, t);
    let c = v.cutoff(h1.last().timestamp);
    lemma_evict_props(h1, c);
    let v1 = v.after_set(a, p, t);
    assert(v1.hist(a) == evict(h1, c));
    assert(v1.hist(a).last() == h1.last());
    assert(v1.registered(a));
    assert(v1.last_price(a) == Some(h1.last()));
}

/// Eviction bound: after an accepted write, every surviving entry of that
/// asset's history is within the retention window (in milliseconds) of the
/// asset's latest timestamp.
pub proof fn lemma_eviction_bound(v: FeedView, a: Asset, p: i128, t: u64)
    requires
        v.wf(),
        v.registered(a),
        p != 0,
    ensures
        forall|i: int|
            0 <= i < v.after_set(a, p, t).hist(a).len() ==> (#[trigger] v.after_set(a, p, t).hist(
                a,
            )[i]).timestamp as int + v.retention_period as int * 1000 >= v.after_set(a, p, t).hist(
                a,
            ).last().timestamp as int,
{
    lemma_after_set(v, a, p, t);
}

/// What one accepted write does to point lookups: the written timestamp now
/// holds the new price (unless it fell straight out of the retention
/// window), and every other timestamp keeps its entry, except those that the
/// write's eviction removed.
pub proof fn lemma_price_at_after_set(v: FeedView, a: Asset, p: i128, t: u64)
    requires
        v.wf(),
        v.registered(a),
        p != 0,
    ensures
        ({
            let v1 = v.after_set(a, p, t);
            let c = v.cutoff(upsert_last_ts(v.hist(a), t));
            &&& (t as int >= c ==> v1.price_at(a, t) == Some(PriceData { price: p, timestamp: t }))
            &&& ((t as int) < c ==> v1.price_at(a, t) is None)
            &&& forall|t2: u64|
                t2 != t ==> v1.price_at(a, t2) == (match v.price_at(a, t2) {
                    Some(e) => if e.timestamp as int >= c {
                        Some(e)
                    } else {
                        None::<PriceData>
                    },
                    None => None::<PriceData>,
                })
        }),
{
    let h0 = v.hist(a);
    lemma_after_set(v, a, p, t);
    lemma_upsert_props(h0, p, t);
    lemma_upsert_lookup(h0, p, t);
    let h1 = upsert(h0, p, t);
    let c = v.cutoff(h1.last().timestamp);
    lemma_evict_props(h1, c);
    let h2 = evict(h1, c);
    let v1 = v.after_set(a, p, t);
    assert(v1.hist(a) == h2);
    assert(v1.registered(a));
    assert forall|t2: u64| lookup(h2, t2) == (match lookup(h1, t2) {
        Some(e) => if e.timestamp as int >= c {
            Some(e)
        } else {
            None::<PriceData>
        },
        None => None::<PriceData>,
    }) by {
        if has_ts(h1, t2) {
            let k = choose|k: int| 0 <= k < h1.len() && h1[k].timestamp == t2;
            assert(lookup(h1, t2) == Some(h1[k]));
            if h1[k].timestamp as int >= c {
                assert(h2.contains(h1[k]));
                let w = choose|w: int| 0 <= w < h2.len() && h2[w] == h1[k];
                assert(h2[w].timestamp == t2);
                assert(has_ts(h2, t2));
                let m = choose|m: int| 0 <= m < h2.len() && h2[m].timestamp == t2;
                assert(h1.contains(h2[m]));
                let q = choose|q: int| 0 <= q < h1.len() && h1[q] == h2[m];
                assert(h1[q].timestamp == t2);
                if q < k {
                    assert(h1[q].timestamp < h1[k].timestamp);
                } else if q > k {
                    assert(h1[k].timestamp < h1[q].timestamp);
                }
                assert(h2[m] == h1[k]);
                assert(lookup(h2, t2) == Some(h1[k]));
            } else {
                if has_ts(h2, t2) {
                    let m = choose|m: int| 0 <= m < h2.len() && h2[m].timestamp == t2;
                    assert(h1.contains(h2[m]));
                    let q = choose|q: int| 0 <= q < h1.len() && h1[q] == h2[m];
                    assert(h1[q].timestamp == t2);
                    if q < k {
                        assert(h1[q].timestamp < h1[k].timestamp);
                    } else if q > k {
                        assert(h1[k].timestamp < h1[q].timestamp);
                    }
                    assert(h2[m] == h1[k]);
                    assert(h2[m].timestamp as int >= c);
                    assert(false);
                }
                assert(lookup(h2, t2) is None);
            }
        } else {
            if has_ts(h2, t2) {
                let m = choose|m: int| 0 <= m < h2.len() && h2[m].timestamp == t2;
                assert(h1.contains(h2[m]));
                let q = choose|q: int| 0 <= q < h1.len() && h1[q] == h2[m];
                assert(h1[q].timestamp == t2);
            }
            assert(lookup(h2, t2) is None);
            assert(lookup(h1, t2) is None);
        }
    }
    assert(lookup(h1, t) == Some(PriceData { price: p, timestamp: t }));
    assert forall|t2: u64| t2 != t implies lookup(h1, t2) == lookup(h0, t2) by {}
}

/// Idempotence: accepting the same write twice is the same as accepting it
/// once — the entry is overwritten in place, never duplicated, and the
/// eviction cutoff does not move.
pub proof fn lemma_set_price_idempotent(v: FeedView, a: Asset, p: i128, t: u64)
    requires
        v.wf(),
        v.registered(a),
        p != 0,
    ensures
        v.after_set(a, p, t).after_set(a, p, t) == v.after_set(a, p, t),
{
    let e = PriceData { price: p, timestamp: t };
    let h0 = v.hist(a);
    let i = v.idx_of(a);
    assert(0 <= i < v.assets.len() && v.assets[i] == a);
    lemma_after_set(v, a, p, t);
    let v1 = v.after_set(a, p, t);
    lemma_upsert_props(h0, p, t);
    lemma_upsert_lookup(h0, p, t);
    let h1 = upsert(h0, p, t);
    let latest = h1.last().timestamp;
    let c = v.cutoff(latest);
    lemma_evict_props(h1, c);
    let h2 = evict(h1, c);
    assert(v1.hist(a) == h2);
    assert(sorted(h2));
    assert(v1.assets == v.assets);
    lemma_idx_unique(v1, a, i);
    assert(h2.last() == h1.last());
    assert(t <= latest);
    assert(upsert_last_ts(h2, t) == latest);
    let h1p = upsert(h2, p, t);
    let v2 = v1.after_set(a, p, t);
    assert(v1.cutoff(latest) == c);
    lemma_evict_idempotent(h1, c);
    if t >= c {
        assert(lookup(h1, t) == Some(e));
        assert(has_ts(h1, t));
        let k = choose|k: int| 0 <= k < h1.len() && h1[k].timestamp == t;
        assert(h1[k] == e);
        assert(h2.contains(h1[k]));
        assert(has_ts(h2, t)) by {
            let w = choose|w: int| 0 <= w < h2.len() && h2[w] == e;
            assert(h2[w].timestamp == t);
        }
        let m = choose|m: int| 0 <= m < h2.len() && h2[m].timestamp == t;
        assert(h1.contains(h2[m]));
        let q = choose|q: int| 0 <= q < h1.len() && h1[q] == h2[m];
        assert(h1[q].timestamp == t);
        if q < k {
            assert(h1[q].timestamp < h1[k].timestamp);
        } else if q > k {
            assert(h1[k].timestamp < h1[q].timestamp);
        }
        assert(h2[m] == e);
        assert(lookup(h2, t) == Some(e));
        lemma_upsert_existing(h2, p, t);
        assert(h1p == h2);
        assert(evict(h1p, c) == h2);
    } else {
        assert forall|m: int| 0 <= m < h2.len() implies (#[trigger] h2[m]).timestamp > t by {
            assert(h2[m].timestamp as int >= c);
        }
        lemma_upsert_at(h2, p, t, 0);
        assert(h1p == h2.insert(0, e));
        assert(h1p[0] == e);
        assert(h1p.drop_first() =~= h2);
        assert(evict(h1p, c) == evict(h2, c));
        assert(evict(h2, c) == h2);
    }
    assert(v2.hists =~= v1.hists);
    assert(v2.last_timestamp == v1.last_timestamp);
    assert(v2 == v1);
}

} // verus!
