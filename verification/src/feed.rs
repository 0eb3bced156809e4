//! The price time-series store: an asset registry, one ordered history per
//! asset, the feed configuration, and the write path with its retention
//! policy. `DataFeed` is the executable state; `FeedView` is its mathematical
//! model.

use vstd::prelude::*;

use crate::history::{
    all_nonzero, evict, evict_in, find_ts, has_ts, lemma_evict_props, lemma_upsert_props, lookup,
    recent_in, recent_of, sorted, ts_below, upsert, upsert_in, upsert_last_ts,
};
use crate::{Asset, Error, PriceData};

verus! {

/// The model of a feed: the registry in registration order, one history per
/// registered asset (parallel to the registry), the fixed configuration, and
/// the maximum timestamp ever accepted.
pub ghost struct FeedView {
    pub assets: Seq<Asset>,
    pub hists: Seq<Seq<PriceData>>,
    pub base: Asset,
    pub decimals: u32,
    pub resolution: u32,
    pub retention_period: u64,
    pub last_timestamp: u64,
}

impl FeedView {
    /// Well-formedness: one history per asset, no duplicate registry entries,
    /// every history strictly ordered by timestamp with no zero prices, and
    /// no stored timestamp above `last_timestamp`.
    pub open spec fn wf(self) -> bool {
        &&& self.hists.len() == self.assets.len()
        &&& forall|i: int, j: int|
            0 <= i < j < self.assets.len() ==> self.assets[i] != self.assets[j]
        &&& forall|i: int| 0 <= i < self.hists.len() ==> sorted(#[trigger] self.hists[i])
        &&& forall|i: int| 0 <= i < self.hists.len() ==> all_nonzero(#[trigger] self.hists[i])
        &&& forall|i: int|
            0 <= i < self.hists.len() ==> ts_below(#[trigger] self.hists[i], self.last_timestamp)
    }

    /// The asset is a member of the registry.
    pub open spec fn registered(self, a: Asset) -> bool {
        exists|i: int| 0 <= i < self.assets.len() && self.assets[i] == a
    }

    /// The registry position of a registered asset (unique when `wf`).
    pub open spec fn idx_of(self, a: Asset) -> int {
        choose|i: int| 0 <= i < self.assets.len() && self.assets[i] == a
    }

    /// The history of a registered asset, oldest first.
    pub open spec fn hist(self, a: Asset) -> Seq<PriceData> {
        self.hists[self.idx_of(a)]
    }

    /// The most recent entry of an asset's history, if the asset is
    /// registered and has one.
    pub open spec fn last_price(self, a: Asset) -> Option<PriceData> {
        if self.registered(a) && self.hist(a).len() > 0 {
            Some(self.hist(a).last())
        } else {
            None
        }
    }

    /// The entry at exactly `t`, if the asset is registered and has one; no
    /// interpolation.
    pub open spec fn price_at(self, a: Asset, t: u64) -> Option<PriceData> {
        if self.registered(a) {
            lookup(self.hist(a), t)
        } else {
            None
        }
    }

    /// A freshly initialized feed: empty registry, no history, timestamp 0.
    pub open spec fn init_feed(
        base: Asset,
        decimals: u32,
        resolution: u32,
        retention_period: u64,
    ) -> FeedView {
        FeedView {
            assets: Seq::empty(),
            hists: Seq::empty(),
            base: base,
            decimals: decimals,
            resolution: resolution,
            retention_period: retention_period,
            last_timestamp: 0,
        }
    }

    /// Register one asset: a no-op if it is already registered, else append
    /// it with an empty history.
    pub open spec fn register_one(self, a: Asset) -> FeedView {
        if self.registered(a) {
            self
        } else {
            FeedView {
                assets: self.assets.push(a),
                hists: self.hists.push(Seq::empty()),
                base: self.base,
                decimals: self.decimals,
                resolution: self.resolution,
                retention_period: self.retention_period,
                last_timestamp: self.last_timestamp,
            }
        }
    }

    /// Register a sequence of assets, left to right.
    pub open spec fn register_all(self, s: Seq<Asset>) -> FeedView
        decreases s.len(),
    {
        if s.len() == 0 {
            self
        } else {
            self.register_one(s[0]).register_all(s.drop_first())
        }
    }

    /// The eviction cutoff for a write whose resulting latest timestamp is
    /// `latest`: entries strictly older than `retention_period` seconds
    /// before it are dropped.
    pub open spec fn cutoff(self, latest: u64) -> int {
        latest as int - self.retention_period as int * 1000
    }

    /// The state after accepting a write `(a, p, t)` with `p != 0` on a
    /// registered asset `a`: upsert, advance `last_timestamp`, then evict old
    /// entries of `a`'s history.
    pub open spec fn after_set(self, a: Asset, p: i128, t: u64) -> FeedView {
        let h1 = upsert(self.hist(a), p, t);
        let h2 = evict(h1, self.cutoff(h1.last().timestamp));
        FeedView {
            assets: self.assets,
            hists: self.hists.update(self.idx_of(a), h2),
            base: self.base,
            decimals: self.decimals,
            resolution: self.resolution,
            retention_period: self.retention_period,
            last_timestamp: if t > self.last_timestamp {
                t
            } else {
                self.last_timestamp
            },
        }
    }

    /// The same feed with a new retention period.
    pub open spec fn with_retention(self, period: u64) -> FeedView {
        FeedView {
            assets: self.assets,
            hists: self.hists,
            base: self.base,
            decimals: self.decimals,
            resolution: self.resolution,
            retention_period: period,
            last_timestamp: self.last_timestamp,
        }
    }
}

/// In a duplicate-free registry, an index holding `a` is the index `idx_of`
/// chooses.
pub proof fn lemma_idx_unique(v: FeedView, a: Asset, i: int)
    requires
        forall|p: int, q: int| 0 <= p < q < v.assets.len() ==> v.assets[p] != v.assets[q],
        0 <= i < v.assets.len(),
        v.assets[i] == a,
    ensures
        v.registered(a),
        v.idx_of(a) == i,
{
    assert(v.registered(a));
    let k = v.idx_of(a);
    assert(0 <= k < v.assets.len() && v.assets[k] == a);
    if k != i {
        if k < i {
            assert(v.assets[k] != v.assets[i]);
        } else {
            assert(v.assets[i] != v.assets[k]);
        }
    }
}

/// What registering one asset does: well-formedness is kept, membership only
/// grows by `a`, existing histories are untouched, and a newly registered
/// asset starts with an empty history.
pub proof fn lemma_register_one(v: FeedView, a: Asset)
    requires
        v.wf(),
    ensures
        v.register_one(a).wf(),
        forall|b: Asset| v.register_one(a).registered(b) <==> v.registered(b) || b == a,
        forall|b: Asset|
            #[trigger] v.register_one(a).registered(b) && v.registered(b) ==> v.register_one(
                a,
            ).hist(b) == v.hist(b),
        !v.registered(a) ==> v.register_one(a).hist(a) == Seq::<PriceData>::empty(),
        v.register_one(a).base == v.base,
        v.register_one(a).decimals == v.decimals,
        v.register_one(a).resolution == v.resolution,
        v.register_one(a).retention_period == v.retention_period,
        v.register_one(a).last_timestamp == v.last_timestamp,
        v.registered(a) ==> v.register_one(a) == v,
{
    let r = v.register_one(a);
    if v.registered(a) {
    } else {
        let n = v.assets.len() as int;
        assert(r.assets[n] == a);
        assert forall|p: int, q: int| 0 <= p < q < r.assets.len() implies r.assets[p]
            != r.assets[q] by {
            if q < n {
                assert(r.assets[p] == v.assets[p] && r.assets[q] == v.assets[q]);
            } else {
                assert(r.assets[q] == a);
                assert(r.assets[p] == v.assets[p]);
                if v.assets[p] == a {
                    assert(v.registered(a));
                }
            }
        }
        assert forall|i: int| 0 <= i < r.hists.len() implies sorted(#[trigger] r.hists[i])
            && all_nonzero(r.hists[i]) && ts_below(r.hists[i], r.last_timestamp) by {
            if i < n {
                assert(r.hists[i] == v.hists[i]);
            } else {
                assert(r.hists[i] =~= Seq::<PriceData>::empty());
            }
        }
        lemma_idx_unique(r, a, n);
        assert(r.hist(a) == r.hists[n]);
        assert forall|b: Asset| #[trigger] r.registered(b) && v.registered(b) implies r.hist(b)
            == v.hist(b) by {
            let j = v.idx_of(b);
            assert(0 <= j < v.assets.len() && v.assets[j] == b);
            assert(r.assets[j] == b);
            lemma_idx_unique(r, b, j);
            assert(r.hists[j] == v.hists[j]);
        }
        assert forall|b: Asset| r.registered(b) implies v.registered(b) || b == a by {
            let j = choose|j: int| 0 <= j < r.assets.len() && r.assets[j] == b;
            if j < n {
                assert(v.assets[j] == b);
            }
        }
        assert forall|b: Asset| v.registered(b) || b == a implies r.registered(b) by {
            if v.registered(b) {
                let j = v.idx_of(b);
                assert(r.assets[j] == b);
            } else {
                assert(r.assets[n] == b);
            }
        }
    }
}

/// Registering a batch decomposes: one more asset at the end is one more
/// `register_one`.
pub proof fn lemma_register_all_push(v: FeedView, s: Seq<Asset>, a: Asset)
    ensures
        v.register_all(s.push(a)) == v.register_all(s).register_one(a),
    decreases s.len(),
{
    if s.len() == 0 {
        assert(s.push(a)[0] == a);
        assert(s.push(a).drop_first() =~= Seq::<Asset>::empty());
        assert(v.register_all(s.push(a)) == v.register_one(a).register_all(
            Seq::<Asset>::empty(),
        ));
        assert(v.register_one(a).register_all(Seq::<Asset>::empty()) == v.register_one(a));
        assert(v.register_all(s) == v);
    } else {
        assert(s.push(a)[0] == s[0]);
        assert(s.push(a).drop_first() =~= s.drop_first().push(a));
        lemma_register_all_push(v.register_one(s[0]), s.drop_first(), a);
        assert(v.register_all(s.push(a)) == v.register_one(s[0]).register_all(
            s.drop_first().push(a),
        ));
        assert(v.register_all(s) == v.register_one(s[0]).register_all(s.drop_first()));
    }
}

/// What registering a batch does, batch-wide: well-formedness is kept,
/// membership grows by exactly the batch, existing histories are untouched,
/// newly registered assets start empty, and the configuration and
/// `last_timestamp` are unchanged.
pub proof fn lemma_register_all(v: FeedView, s: Seq<Asset>)
    requires
        v.wf(),
    ensures
        v.register_all(s).wf(),
        forall|b: Asset| v.register_all(s).registered(b) <==> v.registered(b) || s.contains(b),
        forall|b: Asset|
            #[trigger] v.register_all(s).registered(b) && v.registered(b) ==> v.register_all(
                s,
            ).hist(b) == v.hist(b),
        forall|b: Asset|
            s.contains(b) && !v.registered(b) ==> #[trigger] v.register_all(s).hist(b)
                == Seq::<PriceData>::empty(),
        v.register_all(s).base == v.base,
        v.register_all(s).decimals == v.decimals,
        v.register_all(s).resolution == v.resolution,
        v.register_all(s).retention_period == v.retention_period,
        v.register_all(s).last_timestamp == v.last_timestamp,
    decreases s.len(),
{
    if s.len() == 0 {
    } else {
        let v1 = v.register_one(s[0]);
        lemma_register_one(v, s[0]);
        lemma_register_all(v1, s.drop_first());
        let r = v.register_all(s);
        assert(r == v1.register_all(s.drop_first()));
        assert forall|b: Asset| r.registered(b) implies v.registered(b) || s.contains(b) by {
            if v1.registered(b) {
                if b == s[0] {
                    assert(s.contains(b));
                }
            } else {
                let k = choose|k: int| 0 <= k < s.drop_first().len() && s.drop_first()[k] == b;
                assert(s[k + 1] == b);
            }
        }
        assert forall|b: Asset| v.registered(b) || s.contains(b) implies r.registered(b) by {
            if s.contains(b) && !v.registered(b) {
                let k = choose|k: int| 0 <= k < s.len() && s[k] == b;
                if k == 0 {
                    assert(v1.registered(b));
                } else {
                    assert(s.drop_first()[k - 1] == b);
                    assert(s.drop_first().contains(b));
                }
            }
        }
        assert forall|b: Asset| #[trigger] r.registered(b) && v.registered(b) implies r.hist(b)
            == v.hist(b) by {
            assert(v1.registered(b));
            assert(v1.hist(b) == v.hist(b));
        }
        assert forall|b: Asset| s.contains(b) && !v.registered(b) implies #[trigger] r.hist(b)
            == Seq::<PriceData>::empty() by {
            let k = choose|k: int| 0 <= k < s.len() && s[k] == b;
            if b == s[0] {
                assert(v1.hist(b) == Seq::<PriceData>::empty());
                assert(v1.registered(b));
                assert(r.registered(b));
                assert(r.hist(b) == v1.hist(b));
            } else {
                assert(s.drop_first()[k - 1] == b);
                assert(s.drop_first().contains(b));
                if v1.registered(b) {
                    assert(v.registered(b) || b == s[0]);
                }
            }
        }
    }
}

/// What one accepted write does to a well-formed feed: well-formedness is
/// kept, the registry and configuration are unchanged, other assets'
/// histories are untouched, the written history ends at the accepted maximum
/// timestamp, and nothing older than the retention window survives.
pub proof fn lemma_after_set(v: FeedView, a: Asset, p: i128, t: u64)
    requires
        v.wf(),
        v.registered(a),
        p != 0,
    ensures
        v.after_set(a, p, t).wf(),
        v.after_set(a, p, t).assets == v.assets,
        v.after_set(a, p, t).base == v.base,
        v.after_set(a, p, t).decimals == v.decimals,
        v.after_set(a, p, t).resolution == v.resolution,
        v.after_set(a, p, t).retention_period == v.retention_period,
        v.after_set(a, p, t).last_timestamp == if t > v.last_timestamp {
            t
        } else {
            v.last_timestamp
        },
        forall|b: Asset| v.after_set(a, p, t).registered(b) <==> v.registered(b),
        forall|b: Asset|
            #[trigger] v.registered(b) && b != a ==> v.after_set(a, p, t).hist(b) == v.hist(b),
        v.after_set(a, p, t).hist(a) == evict(
            upsert(v.hist(a), p, t),
            v.cutoff(upsert_last_ts(v.hist(a), t)),
        ),
        v.after_set(a, p, t).hist(a).len() > 0,
        v.after_set(a, p, t).hist(a).last().timestamp == upsert_last_ts(v.hist(a), t),
        forall|i: int|
            0 <= i < v.after_set(a, p, t).hist(a).len() ==> (#[trigger] v.after_set(a, p, t).hist(
                a,
            )[i]).timestamp as int + v.retention_period as int * 1000 >= upsert_last_ts(
                v.hist(a),
                t,
            ) as int,
{
    let r = v.after_set(a, p, t);
    let i = v.idx_of(a);
    assert(0 <= i < v.assets.len() && v.assets[i] == a);
    let h0 = v.hist(a);
    assert(sorted(h0) && all_nonzero(h0) && ts_below(h0, v.last_timestamp));
    lemma_upsert_props(h0, p, t);
    let h1 = upsert(h0, p, t);
    let latest = h1.last().timestamp;
    assert(latest == upsert_last_ts(h0, t));
    let c = v.cutoff(latest);
    lemma_evict_props(h1, c);
    let h2 = evict(h1, c);
    assert(c <= latest as int);
    assert(h2.len() > 0 && h2.last() == h1.last());
    let last2 = if t > v.last_timestamp {
        t
    } else {
        v.last_timestamp
    };
    assert(latest <= last2);
    lemma_idx_unique(r, a, i);
    assert(r.hist(a) == h2);
    assert forall|k: int| 0 <= k < r.hists.len() implies sorted(#[trigger] r.hists[k])
        && all_nonzero(r.hists[k]) && ts_below(r.hists[k], r.last_timestamp) by {
        if k == i {
            assert(r.hists[k] == h2);
            assert forall|m: int| 0 <= m < h2.len() implies h2[m].price != 0 && (
            #[trigger] h2[m]).timestamp <= last2 by {
                assert(h1.contains(h2[m]));
                let w = choose|w: int| 0 <= w < h1.len() && h1[w] == h2[m];
                assert(h1[w] == (PriceData { price: p, timestamp: t }) || (h0.contains(h1[w])
                    && h1[w].timestamp != t));
                if h1[w] != (PriceData { price: p, timestamp: t }) {
                    let u = choose|u: int| 0 <= u < h0.len() && h0[u] == h1[w];
                    assert(h0[u].price != 0 && h0[u].timestamp <= v.last_timestamp);
                }
            }
        } else {
            assert(r.hists[k] == v.hists[k]);
            assert forall|m: int| 0 <= m < r.hists[k].len() implies (
            #[trigger] r.hists[k][m]).timestamp <= last2 by {
                assert(v.hists[k][m].timestamp <= v.last_timestamp);
            }
        }
    }
    assert forall|b: Asset| #[trigger] v.registered(b) && b != a implies r.hist(b) == v.hist(b) by {
        let j = v.idx_of(b);
        assert(0 <= j < v.assets.len() && v.assets[j] == b);
        assert(j != i);
        lemma_idx_unique(r, b, j);
        assert(r.hists[j] == v.hists[j]);
    }
    assert forall|b: Asset| r.registered(b) <==> v.registered(b) by {}
}

/// The executable feed state: registry, per-asset histories (parallel to the
/// registry), configuration, and the maximum accepted timestamp.
pub struct DataFeed {
    assets: Vec<Asset>,
    hists: Vec<Vec<PriceData>>,
    base: Asset,
    decimals: u32,
    resolution: u32,
    retention_period: u64,
    last_timestamp: u64,
}

impl View for DataFeed {
    type V = FeedView;

    closed spec fn view(&self) -> FeedView {
        FeedView {
            assets: self.assets@,
            hists: Seq::new(self.hists@.len(), |i: int| self.hists@[i]@),
            base: self.base,
            decimals: self.decimals,
            resolution: self.resolution,
            retention_period: self.retention_period,
            last_timestamp: self.last_timestamp,
        }
    }
}

impl DataFeed {
    /// Create a feed with the given configuration and registry. Duplicates in
    /// `assets` are registered once; every registered asset starts with an
    /// empty history.
    pub fn new(
        assets: Vec<Asset>,
        base: Asset,
        decimals: u32,
        resolution: u32,
        retention_period: u64,
    ) -> (f: DataFeed)
        ensures
            f@ == FeedView::init_feed(base, decimals, resolution, retention_period).register_all(
                assets@,
            ),
            f@.wf(),
            f@.base == base,
            f@.decimals == decimals,
            f@.resolution == resolution,
            f@.retention_period == retention_period,
            f@.last_timestamp == 0,
            forall|b: Asset| f@.registered(b) <==> assets@.contains(b),
            forall|b: Asset|
                #[trigger] f@.registered(b) ==> f@.hist(b) == Seq::<PriceData>::empty(),
    {
        let mut f = DataFeed {
            assets: Vec::new(),
            hists: Vec::new(),
            base: base,
            decimals: decimals,
            resolution: resolution,
            retention_period: retention_period,
            last_timestamp: 0,
        };
        let ghost v0 = FeedView::init_feed(base, decimals, resolution, retention_period);
        proof {
            assert(f@.assets =~= v0.assets);
            assert(f@.hists =~= v0.hists);
            assert(f@ == v0);
        }
        f.add_assets(assets);
        proof {
            lemma_register_all(v0, assets@);
            assert forall|b: Asset| #[trigger] f@.registered(b) implies f@.hist(b)
                == Seq::<PriceData>::empty() by {
                assert(assets@.contains(b));
            }
        }
        f
    }

    /// Find the registry index of `a`.
    fn find(&self, a: Asset) -> (r: Option<usize>)
        requires
            self@.wf(),
        ensures
            match r {
                Some(i) => self@.registered(a) && self@.idx_of(a) == i && (i as int)
                    < self@.assets.len(),
                None => !self@.registered(a),
            },
    {
        let mut i: usize = 0;
        while i < self.assets.len()
            invariant
                self@.wf(),
                i <= self@.assets.len(),
                forall|m: int| 0 <= m < i ==> self@.assets[m] != a,
            decreases self@.assets.len() - i,
        {
            if self.assets[i] == a {
                proof {
                    lemma_idx_unique(self@, a, i as int);
                }
                return Some(i);
            }
            i = i + 1;
        }
        None
    }

    /// Register the given assets; re-registering an asset is a no-op that
    /// keeps its history.
    pub fn add_assets(&mut self, assets: Vec<Asset>)
        requires
            old(self)@.wf(),
        ensures
            final(self)@ == old(self)@.register_all(assets@),
            final(self)@.wf(),
    {
        let n = assets.len();
        let mut i: usize = 0;
        while i < n
            invariant
                n == assets@.len(),
                i <= n,
                self@.wf(),
                self@ == old(self)@.register_all(assets@.take(i as int)),
            decreases n - i,
        {
            let ghost prev = self@;
            let a = assets[i];
            match self.find(a) {
                Some(_) => {
                    proof {
                        lemma_register_one(prev, a);
                        assert(self@ == prev.register_one(a));
                    }
                },
                None => {
                    self.assets.push(a);
                    self.hists.push(Vec::new());
                    proof {
                        lemma_register_one(prev, a);
                        assert(self@.assets =~= prev.register_one(a).assets);
                        assert(self@.hists =~= prev.register_one(a).hists);
                        assert(self@ == prev.register_one(a));
                    }
                },
            }
            proof {
                assert(assets@.take(i + 1) =~= assets@.take(i as int).push(a));
                lemma_register_all_push(old(self)@, assets@.take(i as int), a);
            }
            i = i + 1;
        }
        proof {
            assert(assets@.take(n as int) =~= assets@);
        }
    }

    /// Record one price observation for one asset.
    ///
    /// Fails if the asset is unregistered. A zero price is a silent no-op (a
    /// skipped tick, not an error). Otherwise the entry is upserted at its
    /// timestamp, `last_timestamp` advances if the write is the newest ever
    /// accepted, and entries of this asset older than the retention window
    /// before the asset's (new) latest timestamp are evicted.
    pub fn set_asset_price(&mut self, asset: Asset, price: i128, timestamp: u64) -> (r: Result<
        (),
        Error,
    >)
        requires
            old(self)@.wf(),
        ensures
            final(self)@.wf(),
            !old(self)@.registered(asset) ==> r == Err::<(), Error>(Error::AssetNotRegistered)
                && final(self)@ == old(self)@,
            old(self)@.registered(asset) && price == 0 ==> r == Ok::<(), Error>(()) && final(self)@
                == old(self)@,
            old(self)@.registered(asset) && price != 0 ==> r == Ok::<(), Error>(()) && final(self)@
                == old(self)@.after_set(asset, price, timestamp),
            final(self)@.last_timestamp >= old(self)@.last_timestamp,
    {
        let idx = self.find(asset);
        match idx {
            None => Err(Error::AssetNotRegistered),
            Some(i) => {
                if price == 0 {
                    return Ok(());
                }
                let ghost v = old(self)@;
                proof {
                    lemma_after_set(v, asset, price, timestamp);
                    assert(sorted(v.hist(asset)));
                }
                let mut h: Vec<PriceData> = Vec::new();
                self.hists.set_and_swap(i, &mut h);
                proof {
                    assert(h@ == v.hist(asset));
                    lemma_upsert_props(v.hist(asset), price, timestamp);
                }
                upsert_in(&mut h, price, timestamp);
                let latest = h[h.len() - 1].timestamp;
                proof {
                    assert(latest == upsert_last_ts(v.hist(asset), timestamp));
                }
                evict_in(&mut h, latest, self.retention_period);
                self.hists.set_and_swap(i, &mut h);
                if timestamp > self.last_timestamp {
                    self.last_timestamp = timestamp;
                }
                proof {
                    assert(self@.hists =~= v.hists.update(
                        i as int,
                        evict(
                            upsert(v.hist(asset), price, timestamp),
                            v.cutoff(upsert_last_ts(v.hist(asset), timestamp)),
                        ),
                    ));
                    assert(self@ == v.after_set(asset, price, timestamp));
                }
                Ok(())
            },
        }
    }

    /// All registered assets, in registration order.
    pub fn assets(&self) -> (r: Vec<Asset>)
        ensures
            r@ == self@.assets,
    {
        let mut r: Vec<Asset> = Vec::new();
        let mut i: usize = 0;
        while i < self.assets.len()
            invariant
                i <= self@.assets.len(),
                r@ == self@.assets.take(i as int),
            decreases self@.assets.len() - i,
        {
            r.push(self.assets[i]);
            proof {
                assert(r@ =~= self@.assets.take(i + 1));
            }
            i = i + 1;
        }
        proof {
            assert(r@ =~= self@.assets);
        }
        r
    }

    /// The base asset all prices are quoted in.
    pub fn base(&self) -> (r: Asset)
        ensures
            r == self@.base,
    {
        self.base
    }

    /// The fixed-point precision of all quoted prices.
    pub fn decimals(&self) -> (r: u32)
        ensures
            r == self@.decimals,
    {
        self.decimals
    }

    /// The nominal tick spacing, in seconds.
    pub fn resolution(&self) -> (r: u32)
        ensures
            r == self@.resolution,
    {
        self.resolution
    }

    /// The history retention period, in seconds.
    pub fn period(&self) -> (r: u64)
        ensures
            r == self@.retention_period,
    {
        self.retention_period
    }

    /// The maximum timestamp ever accepted, across all assets.
    pub fn last_timestamp(&self) -> (r: u64)
        ensures
            r == self@.last_timestamp,
    {
        self.last_timestamp
    }

    /// Change the retention period. Takes effect on the next write to each
    /// asset; nothing is re-evicted now.
    pub fn set_retention_period(&mut self, period: u64)
        requires
            old(self)@.wf(),
        ensures
            final(self)@ == old(self)@.with_retention(period),
            final(self)@.wf(),
    {
        self.retention_period = period;
    }

    /// The most recent entry for `asset`, or none if it is unregistered or
    /// has no history. The result's timestamp is the maximum stored for the
    /// asset.
    pub fn lastprice(&self, asset: Asset) -> (r: Option<PriceData>)
        requires
            self@.wf(),
        ensures
            r == self@.last_price(asset),
            r matches Some(e) ==> ts_below(self@.hist(asset), e.timestamp),
    {
        match self.find(asset) {
            None => None,
            Some(i) => {
                let h = &self.hists[i];
                if h.len() == 0 {
                    None
                } else {
                    let e = h[h.len() - 1];
                    proof {
                        assert(e == self@.hist(asset).last());
                        assert forall|m: int| 0 <= m < self@.hist(asset).len() implies (
                        #[trigger] self@.hist(asset)[m]).timestamp <= e.timestamp by {
                            assert(sorted(self@.hist(asset)));
                        }
                    }
                    Some(e)
                }
            },
        }
    }

    /// The entry at exactly `timestamp`, or none; a miss is never
    /// interpolated.
    pub fn price(&self, asset: Asset, timestamp: u64) -> (r: Option<PriceData>)
        requires
            self@.wf(),
        ensures
            r == self@.price_at(asset, timestamp),
    {
        match self.find(asset) {
            None => None,
            Some(i) => {
                match find_ts(&self.hists[i], timestamp) {
                    None => None,
                    Some(j) => {
                        let e = self.hists[i][j];
                        proof {
                            let h = self@.hist(asset);
                            assert(h == self.hists@[i as int]@);
                            assert(has_ts(h, timestamp));
                            let k = choose|k: int| 0 <= k < h.len() && h[k].timestamp == timestamp;
                            assert(sorted(h));
                            if k < j {
                                assert(h[k].timestamp < h[j as int].timestamp);
                            } else if k > j {
                                assert(h[j as int].timestamp < h[k].timestamp);
                            }
                            assert(lookup(h, timestamp) == Some(e));
                        }
                        Some(e)
                    },
                }
            },
        }
    }

    /// The up-to-`records` most recent entries for `asset`, most recent
    /// first; none only if the asset is unregistered (an empty history yields
    /// an empty vector).
    pub fn prices(&self, asset: Asset, records: u32) -> (r: Option<Vec<PriceData>>)
        requires
            self@.wf(),
        ensures
            r is Some <==> self@.registered(asset),
            r matches Some(v) ==> v@ == recent_of(self@.hist(asset), records as int),
    {
        match self.find(asset) {
            None => None,
            Some(i) => Some(recent_in(&self.hists[i], records as usize)),
        }
    }
}

} // verus!
