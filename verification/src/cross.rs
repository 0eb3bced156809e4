//! Cross-asset pricing: a derived price between two quoted assets via the
//! shared base, `price(a) * 10^decimals / price(b)`, truncated toward zero.
//! A cross price exists only where both legs have an observation; a result
//! whose intermediate product or quotient leaves the 128-bit range is
//! reported as absent, never a fault.

use vstd::prelude::*;

use crate::feed::{DataFeed, FeedView};
use crate::history::{find_ts, has_ts, lemma_recent_sorted, lookup, recent_of, sorted_desc};
use crate::{Asset, PriceData};

verus! {

/// `x` lies in the signed 128-bit range.
pub open spec fn fits_i128(x: int) -> bool {
    i128::MIN <= x <= i128::MAX
}

/// Integer division truncating toward zero (the `/` of the machine).
pub open spec fn div_trunc(x: int, d: int) -> int
    recommends
        d != 0,
{
    if x == 0 {
        0
    } else if x > 0 && d > 0 {
        x / d
    } else if x < 0 && d < 0 {
        (x * -1) / (d * -1)
    } else if x < 0 {
        ((x * -1) / d) * -1
    } else {
        (x / (d * -1)) * -1
    }
}

/// `10^n`.
pub open spec fn pow10(n: nat) -> int
    decreases n,
{
    if n == 0 {
        1
    } else {
        10 * pow10((n - 1) as nat)
    }
}

/// The cross price of leg prices `pa` over `pb` at `d` decimals.
pub open spec fn cross_of(pa: int, pb: int, d: nat) -> int
    recommends
        pb != 0,
{
    div_trunc(pa * pow10(d), pb)
}

/// The cross price is representable: the scaled numerator and the quotient
/// both fit in 128 signed bits.
pub open spec fn cross_ok(pa: int, pb: int, d: nat) -> bool {
    fits_i128(pa * pow10(d)) && fits_i128(cross_of(pa, pb, d))
}

pub proof fn lemma_pow10_pos(n: nat)
    ensures
        pow10(n) >= 1,
    decreases n,
{
    if n > 0 {
        lemma_pow10_pos((n - 1) as nat);
    }
}

pub proof fn lemma_pow10_mono(a: nat, b: nat)
    requires
        a <= b,
    ensures
        pow10(a) <= pow10(b),
    decreases b - a,
{
    if a < b {
        lemma_pow10_mono(a, (b - 1) as nat);
        lemma_pow10_pos((b - 1) as nat);
    }
}

/// `10^38` is the largest power of ten in the signed 128-bit range, and
/// `10^39` overshoots it by more than a factor of two.
pub proof fn lemma_pow10_bounds()
    ensures
        pow10(38) <= i128::MAX,
        pow10(39) > 2 * (i128::MAX as int) + 1,
{
    assert(pow10(39) == 1000000000000000000000000000000000000000) by {
        reveal_with_fuel(pow10, 40);
    }
}

/// A nonzero price scaled by an overlarge power of ten never fits: there is
/// no representable cross price at such a precision.
pub proof fn lemma_cross_unrepresentable(pa: int, d: nat)
    requires
        pa != 0,
        pow10(d) > i128::MAX,
    ensures
        !fits_i128(pa * pow10(d)),
{
    lemma_pow10_bounds();
    if d <= 38 {
        lemma_pow10_mono(d, 38);
        assert(false);
    }
    lemma_pow10_mono(39, d);
    let p = pow10(d);
    assert(p > 2 * (i128::MAX as int) + 1);
    assert(pa >= 1 ==> pa * p >= p) by (nonlinear_arith)
        requires
            p >= 1,
    ;
    assert(pa <= -1 ==> pa * p <= -1 * p) by (nonlinear_arith)
        requires
            p >= 1,
    ;
}

/// Compute `10^n` where it is representable.
pub fn pow10_i128(n: u32) -> (r: Option<i128>)
    ensures
        r matches Some(v) ==> v as int == pow10(n as nat),
        r is None <==> pow10(n as nat) > i128::MAX,
{
    proof {
        lemma_pow10_bounds();
    }
    if n >= 39 {
        proof {
            lemma_pow10_mono(39, n as nat);
        }
        return None;
    }
    let mut acc: i128 = 1;
    let mut i: u32 = 0;
    while i < n
        invariant
            i <= n,
            n <= 38,
            acc as int == pow10(i as nat),
        decreases n - i,
    {
        proof {
            lemma_pow10_pos(i as nat);
            lemma_pow10_mono((i + 1) as nat, 38);
            lemma_pow10_bounds();
            assert(10 * pow10(i as nat) == pow10((i + 1) as nat));
        }
        acc = acc * 10;
        i = i + 1;
    }
    proof {
        lemma_pow10_mono(n as nat, 38);
    }
    Some(acc)
}

/// `pa * pow / pb` truncated toward zero, or none where the product or the
/// quotient leaves the 128-bit range.
pub fn mul_div(pa: i128, pb: i128, pow: i128) -> (r: Option<i128>)
    requires
        pb != 0,
    ensures
        r matches Some(v) ==> fits_i128(pa as int * pow as int) && fits_i128(
            div_trunc(pa as int * pow as int, pb as int),
        ) && v as int == div_trunc(pa as int * pow as int, pb as int),
        r is None ==> !(fits_i128(pa as int * pow as int) && fits_i128(
            div_trunc(pa as int * pow as int, pb as int),
        )),
{
    match pa.checked_mul(pow) {
        None => None,
        Some(sc) => sc.checked_div(pb),
    }
}

/// The smaller of two timestamps: a cross price is only as fresh as its
/// staler leg.
pub open spec fn min_ts(t1: u64, t2: u64) -> u64 {
    if t1 <= t2 {
        t1
    } else {
        t2
    }
}

impl FeedView {
    /// The cross price of the two legs' most recent entries, timestamped
    /// with the staler of the two.
    pub open spec fn x_last_price_spec(self, a: Asset, b: Asset) -> Option<PriceData> {
        match (self.last_price(a), self.last_price(b)) {
            (Some(ea), Some(eb)) => if cross_ok(ea.price as int, eb.price as int, self.decimals as nat) {
                Some(
                    PriceData {
                        price: cross_of(ea.price as int, eb.price as int, self.decimals as nat) as i128,
                        timestamp: min_ts(ea.timestamp, eb.timestamp),
                    },
                )
            } else {
                None
            },
            _ => None,
        }
    }

    /// The cross price at exactly `t`: both legs must have an observation at
    /// `t`.
    pub open spec fn x_price_spec(self, a: Asset, b: Asset, t: u64) -> Option<PriceData> {
        match (self.price_at(a, t), self.price_at(b, t)) {
            (Some(ea), Some(eb)) => if cross_ok(ea.price as int, eb.price as int, self.decimals as nat) {
                Some(
                    PriceData {
                        price: cross_of(ea.price as int, eb.price as int, self.decimals as nat) as i128,
                        timestamp: t,
                    },
                )
            } else {
                None
            },
            _ => None,
        }
    }
}

/// The cross-price series of two most-recent-first windows: for each entry
/// of `x` whose timestamp also appears in `y`, the representable cross price
/// at that timestamp, in the order of `x`.
pub open spec fn cross_series(x: Seq<PriceData>, y: Seq<PriceData>, d: nat) -> Seq<PriceData>
    decreases x.len(),
{
    if x.len() == 0 {
        Seq::empty()
    } else {
        let rest = cross_series(x.drop_first(), y, d);
        match lookup(y, x[0].timestamp) {
            Some(eb) => if cross_ok(x[0].price as int, eb.price as int, d) {
                seq![
                    PriceData {
                        price: cross_of(x[0].price as int, eb.price as int, d) as i128,
                        timestamp: x[0].timestamp,
                    },
                ] + rest
            } else {
                rest
            },
            None => rest,
        }
    }
}

/// The series distributes over concatenation of the left window.
pub proof fn lemma_cross_series_concat(x1: Seq<PriceData>, x2: Seq<PriceData>, y: Seq<PriceData>, d: nat)
    ensures
        cross_series(x1 + x2, y, d) == cross_series(x1, y, d) + cross_series(x2, y, d),
    decreases x1.len(),
{
    if x1.len() == 0 {
        assert(x1 + x2 =~= x2);
        assert(cross_series(x1, y, d) + cross_series(x2, y, d) =~= cross_series(x2, y, d));
    } else {
        assert((x1 + x2)[0] == x1[0]);
        assert((x1 + x2).drop_first() =~= x1.drop_first() + x2);
        lemma_cross_series_concat(x1.drop_first(), x2, y, d);
        let rest1 = cross_series(x1.drop_first(), y, d);
        let rest2 = cross_series(x2, y, d);
        match lookup(y, x1[0].timestamp) {
            Some(eb) => {
                if cross_ok(x1[0].price as int, eb.price as int, d) {
                    let e = PriceData {
                        price: cross_of(x1[0].price as int, eb.price as int, d) as i128,
                        timestamp: x1[0].timestamp,
                    };
                    assert(seq![e] + (rest1 + rest2) =~= (seq![e] + rest1) + rest2);
                }
            },
            None => {},
        }
    }
}

/// Every series entry takes its timestamp from the left window, and a
/// strictly descending left window yields a strictly descending series.
pub proof fn lemma_cross_series_props(x: Seq<PriceData>, y: Seq<PriceData>, d: nat)
    requires
        sorted_desc(x),
    ensures
        sorted_desc(cross_series(x, y, d)),
        cross_series(x, y, d).len() <= x.len(),
        forall|i: int|
            0 <= i < cross_series(x, y, d).len() ==> has_ts(
                x,
                (#[trigger] cross_series(x, y, d)[i]).timestamp,
            ),
    decreases x.len(),
{
    let cs = cross_series(x, y, d);
    if x.len() == 0 {
    } else {
        let xd = x.drop_first();
        lemma_cross_series_props(xd, y, d);
        let rest = cross_series(xd, y, d);
        assert forall|i: int| 0 <= i < rest.len() implies (#[trigger] rest[i]).timestamp
            < x[0].timestamp by {
            assert(has_ts(xd, rest[i].timestamp));
            let k = choose|k: int| 0 <= k < xd.len() && xd[k].timestamp == rest[i].timestamp;
            assert(x[k + 1] == xd[k]);
        }
        assert forall|i: int| 0 <= i < rest.len() implies has_ts(x, (#[trigger] rest[i]).timestamp) by {
            let k = choose|k: int| 0 <= k < xd.len() && xd[k].timestamp == rest[i].timestamp;
            assert(x[k + 1] == xd[k]);
        }
        match lookup(y, x[0].timestamp) {
            Some(eb) => {
                if cross_ok(x[0].price as int, eb.price as int, d) {
                    let e = PriceData {
                        price: cross_of(x[0].price as int, eb.price as int, d) as i128,
                        timestamp: x[0].timestamp,
                    };
                    assert(cs == seq![e] + rest);
                    assert(cs[0] == e);
                    assert forall|i: int, j: int| 0 <= i < j < cs.len() implies cs[i].timestamp
                        > cs[j].timestamp by {
                        assert(cs[j] == rest[j - 1]);
                        if i > 0 {
                            assert(cs[i] == rest[i - 1]);
                        }
                    }
                    assert forall|i: int| 0 <= i < cs.len() implies has_ts(
                        x,
                        (#[trigger] cs[i]).timestamp,
                    ) by {
                        if i == 0 {
                            assert(x[0].timestamp == cs[0].timestamp);
                        } else {
                            assert(cs[i] == rest[i - 1]);
                        }
                    }
                }
            },
            None => {},
        }
    }
}

/// Where no power of ten fits, no cross of nonzero legs is representable and
/// the series is empty.
pub proof fn lemma_cross_series_empty(x: Seq<PriceData>, y: Seq<PriceData>, d: nat)
    requires
        pow10(d) > i128::MAX,
        forall|i: int| 0 <= i < x.len() ==> (#[trigger] x[i]).price != 0,
    ensures
        cross_series(x, y, d) == Seq::<PriceData>::empty(),
    decreases x.len(),
{
    if x.len() > 0 {
        lemma_cross_unrepresentable(x[0].price as int, d);
        assert(forall|i: int|
            0 <= i < x.drop_first().len() ==> (#[trigger] x.drop_first()[i]).price != 0);
        lemma_cross_series_empty(x.drop_first(), y, d);
    }
}

impl DataFeed {
    /// The most recent cross price for the pair, or none if either leg has
    /// no entry or the cross leaves the 128-bit range. The result carries
    /// the smaller of the two legs' timestamps.
    pub fn x_last_price(&self, base_asset: Asset, quote_asset: Asset) -> (r: Option<PriceData>)
        requires
            self@.wf(),
        ensures
            r == self@.x_last_price_spec(base_asset, quote_asset),
            r matches Some(e) ==> self@.last_price(base_asset) is Some && self@.last_price(
                quote_asset,
            ) is Some && e.timestamp == min_ts(
                self@.last_price(base_asset).unwrap().timestamp,
                self@.last_price(quote_asset).unwrap().timestamp,
            ),
    {
        let la = self.lastprice(base_asset);
        let lb = self.lastprice(quote_asset);
        match (la, lb) {
            (Some(ea), Some(eb)) => {
                proof {
                    let h = self@.hist(quote_asset);
                    assert(eb == h.last());
                    assert(eb.price != 0);
                }
                let t = if ea.timestamp <= eb.timestamp {
                    ea.timestamp
                } else {
                    eb.timestamp
                };
                cross_entry(ea.price, eb.price, self.decimals(), t)
            },
            _ => None,
        }
    }

    /// The cross price at exactly `timestamp`, or none unless both legs have
    /// an observation there with a representable cross.
    pub fn x_price(&self, base_asset: Asset, quote_asset: Asset, timestamp: u64) -> (r: Option<
        PriceData,
    >)
        requires
            self@.wf(),
        ensures
            r == self@.x_price_spec(base_asset, quote_asset, timestamp),
    {
        let la = self.price(base_asset, timestamp);
        let lb = self.price(quote_asset, timestamp);
        match (la, lb) {
            (Some(ea), Some(eb)) => {
                proof {
                    let h = self@.hist(quote_asset);
                    let k = choose|k: int| 0 <= k < h.len() && h[k].timestamp == timestamp;
                    assert(eb == h[k]);
                    assert(eb.price != 0);
                }
                cross_entry(ea.price, eb.price, self.decimals(), timestamp)
            },
            _ => None,
        }
    }

    /// The cross-price series over the up-to-`records` most recent entries
    /// of both legs: one entry per common timestamp with a representable
    /// cross, most recent first; none only if either asset is unregistered.
    pub fn x_prices(&self, base_asset: Asset, quote_asset: Asset, records: u32) -> (r: Option<
        Vec<PriceData>,
    >)
        requires
            self@.wf(),
        ensures
            r is Some <==> self@.registered(base_asset) && self@.registered(quote_asset),
            r matches Some(v) ==> v@ == cross_series(
                recent_of(self@.hist(base_asset), records as int),
                recent_of(self@.hist(quote_asset), records as int),
                self@.decimals as nat,
            ),
    {
        let wa = match self.prices(base_asset, records) {
            None => {
                return None;
            },
            Some(w) => w,
        };
        let wb = match self.prices(quote_asset, records) {
            None => {
                return None;
            },
            Some(w) => w,
        };
        let ghost d = self@.decimals as nat;
        proof {
            lemma_recent_sorted(self@.hist(base_asset), records as int);
            lemma_recent_sorted(self@.hist(quote_asset), records as int);
            assert forall|m: int| 0 <= m < wa@.len() implies (#[trigger] wa@[m]).price != 0 by {
                assert(wa@[m] == self@.hist(base_asset)[self@.hist(base_asset).len() - 1 - m]);
            }
            assert forall|m: int| 0 <= m < wb@.len() implies (#[trigger] wb@[m]).price != 0 by {
                assert(wb@[m] == self@.hist(quote_asset)[self@.hist(quote_asset).len() - 1 - m]);
            }
        }
        let pow = match pow10_i128(self.decimals()) {
            None => {
                proof {
                    lemma_cross_series_empty(wa@, wb@, d);
                }
                return Some(Vec::new());
            },
            Some(p) => p,
        };
        let mut out: Vec<PriceData> = Vec::new();
        let mut i: usize = 0;
        while i < wa.len()
            invariant
                i <= wa@.len(),
                pow as int == pow10(d),
                sorted_desc(wb@),
                forall|m: int| 0 <= m < wb@.len() ==> (#[trigger] wb@[m]).price != 0,
                out@ == cross_series(wa@.take(i as int), wb@, d),
            decreases wa@.len() - i,
        {
            let ghost taken = wa@.take(i as int);
            let ea = wa[i];
            match find_ts(&wb, ea.timestamp) {
                None => {
                    proof {
                        assert(lookup(wb@, ea.timestamp) is None);
                    }
                },
                Some(j) => {
                    let eb = wb[j];
                    proof {
                        let k = choose|k: int|
                            0 <= k < wb@.len() && wb@[k].timestamp == ea.timestamp;
                        if k < j {
                            assert(wb@[k].timestamp > wb@[j as int].timestamp);
                        } else if k > j {
                            assert(wb@[j as int].timestamp > wb@[k].timestamp);
                        }
                        assert(lookup(wb@, ea.timestamp) == Some(eb));
                        assert(eb.price != 0);
                    }
                    match mul_div(ea.price, eb.price, pow) {
                        None => {},
                        Some(v) => {
                            out.push(PriceData { price: v, timestamp: ea.timestamp });
                        },
                    }
                },
            }
            proof {
                assert(wa@.take(i + 1) =~= taken + seq![ea]);
                lemma_cross_series_concat(taken, seq![ea], wb@, d);
                assert(seq![ea].drop_first() =~= Seq::<PriceData>::empty());
                assert(seq![ea][0] == ea);
                assert(cross_series(Seq::<PriceData>::empty(), wb@, d)
                    == Seq::<PriceData>::empty());
                match lookup(wb@, ea.timestamp) {
                    Some(eb) => {
                        if cross_ok(ea.price as int, eb.price as int, d) {
                            let e = PriceData {
                                price: cross_of(ea.price as int, eb.price as int, d) as i128,
                                timestamp: ea.timestamp,
                            };
                            assert(cross_series(seq![ea], wb@, d) =~= seq![e]);
                        } else {
                            assert(cross_series(seq![ea], wb@, d) =~= Seq::<PriceData>::empty());
                        }
                    },
                    None => {
                        assert(cross_series(seq![ea], wb@, d) =~= Seq::<PriceData>::empty());
                    },
                }
            }
            i = i + 1;
        }
        proof {
            assert(wa@.take(wa@.len() as int) =~= wa@);
        }
        Some(out)
    }
}

/// Build one cross entry from two leg prices, or none where it is not
/// representable at `decimals` precision.
fn cross_entry(pa: i128, pb: i128, decimals: u32, t: u64) -> (r: Option<PriceData>)
    requires
        pb != 0,
        pa != 0,
    ensures
        cross_ok(pa as int, pb as int, decimals as nat) ==> r == Some(
            PriceData {
                price: cross_of(pa as int, pb as int, decimals as nat) as i128,
                timestamp: t,
            },
        ),
        !cross_ok(pa as int, pb as int, decimals as nat) ==> r is None,
{
    match pow10_i128(decimals) {
        None => {
            proof {
                lemma_cross_unrepresentable(pa as int, decimals as nat);
            }
            None
        },
        Some(pow) => {
            match mul_div(pa, pb, pow) {
                None => None,
                Some(v) => Some(PriceData { price: v, timestamp: t }),
            }
        },
    }
}

} // verus!
