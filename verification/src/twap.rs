//! The time-weighted average price over a window of recent records.
//!
//! Weighting policy: in a most-recent-first window, every record except the
//! most recent is weighted by the time it remained current, that is, by the
//! gap to the next newer record; the most recent record only closes the
//! window (its period of currency lies beyond the observed span, so it
//! carries no weight). The average is the weighted sum over the window span,
//! truncated toward zero. At least two records are needed for one interval.
//! Accumulation is checked 128-bit arithmetic; a window whose weighted sum
//! leaves that range yields an absent result, never a fault.

use vstd::arithmetic::div_mod::{lemma_div_nonincreasing, lemma_div_pos_is_pos};
use vstd::prelude::*;

use crate::cross::{cross_series, div_trunc, fits_i128};
use crate::feed::{DataFeed, FeedView};
use crate::history::{lemma_recent_sorted, recent_of, sorted_desc};
use crate::{Asset, PriceData};

verus! {

/// The weighted sum of the first `upto` records of a most-recent-first
/// window: each record but the newest contributes its price times the gap to
/// the record before it.
pub open spec fn wsum(s: Seq<PriceData>, upto: int) -> int
    decreases upto,
{
    if upto <= 1 {
        0
    } else {
        wsum(s, upto - 1) + s[upto - 1].price * (s[upto - 2].timestamp - s[upto - 1].timestamp)
    }
}

/// Every term and every partial sum of `wsum` up to `upto` stays in the
/// signed 128-bit range.
pub open spec fn wsum_fits(s: Seq<PriceData>, upto: int) -> bool
    decreases upto,
{
    if upto <= 1 {
        true
    } else {
        wsum_fits(s, upto - 1) && fits_i128(
            s[upto - 1].price * (s[upto - 2].timestamp - s[upto - 1].timestamp),
        ) && fits_i128(wsum(s, upto))
    }
}

/// The window span: newest timestamp minus oldest.
pub open spec fn total_weight(s: Seq<PriceData>) -> int
    recommends
        s.len() >= 1,
{
    s[0].timestamp - s.last().timestamp
}

/// The time-weighted average of a most-recent-first window of at least two
/// records, truncated toward zero.
pub open spec fn twap_of(s: Seq<PriceData>) -> int
    recommends
        s.len() >= 2,
        sorted_desc(s),
{
    div_trunc(wsum(s, s.len() as int), total_weight(s))
}

/// If all partial sums up to `k` fit, so do those up to any earlier point.
pub proof fn lemma_wsum_fits_mono(s: Seq<PriceData>, j: int, k: int)
    requires
        j <= k,
        wsum_fits(s, k),
    ensures
        wsum_fits(s, j),
    decreases k - j,
{
    if j < k {
        lemma_wsum_fits_mono(s, j, k - 1);
    }
}

impl FeedView {
    /// The time-weighted average over the up-to-`n` most recent records of
    /// one asset: absent unless the asset is registered, at least two records
    /// are in the window, and the weighted sum is representable.
    pub open spec fn twap_spec(self, a: Asset, n: int) -> Option<i128> {
        if !self.registered(a) {
            None
        } else {
            let w = recent_of(self.hist(a), n);
            if w.len() < 2 || !wsum_fits(w, w.len() as int) {
                None
            } else {
                Some(twap_of(w) as i128)
            }
        }
    }

    /// The time-weighted average over the cross-price series of a pair,
    /// under the same conditions as `twap_spec`.
    pub open spec fn x_twap_spec(self, a: Asset, b: Asset, n: int) -> Option<i128> {
        if !(self.registered(a) && self.registered(b)) {
            None
        } else {
            let w = cross_series(
                recent_of(self.hist(a), n),
                recent_of(self.hist(b), n),
                self.decimals as nat,
            );
            if w.len() < 2 || !wsum_fits(w, w.len() as int) {
                None
            } else {
                Some(twap_of(w) as i128)
            }
        }
    }
}

/// The time-weighted average of a most-recent-first window.
fn twap_over(w: &Vec<PriceData>) -> (r: Option<i128>)
    requires
        sorted_desc(w@),
    ensures
        w@.len() < 2 ==> r is None,
        w@.len() >= 2 && !wsum_fits(w@, w@.len() as int) ==> r is None,
        w@.len() >= 2 && wsum_fits(w@, w@.len() as int) ==> (r matches Some(v) && v as int
            == twap_of(w@)),
{
    let k = w.len();
    if k < 2 {
        return None;
    }
    let mut acc: i128 = 0;
    let mut j: usize = 1;
    while j < k
        invariant
            1 <= j <= k,
            2 <= k == w@.len(),
            sorted_desc(w@),
            wsum_fits(w@, j as int),
            acc as int == wsum(w@, j as int),
        decreases k - j,
    {
        proof {
            assert(w@[j - 1].timestamp > w@[j as int].timestamp);
        }
        let weight: u64 = w[j - 1].timestamp - w[j].timestamp;
        match w[j].price.checked_mul(weight as i128) {
            None => {
                proof {
                    assert(!wsum_fits(w@, j + 1));
                    if wsum_fits(w@, k as int) {
                        lemma_wsum_fits_mono(w@, j + 1, k as int);
                    }
                }
                return None;
            },
            Some(term) => {
                match acc.checked_add(term) {
                    None => {
                        proof {
                            assert(!wsum_fits(w@, j + 1));
                            if wsum_fits(w@, k as int) {
                                lemma_wsum_fits_mono(w@, j + 1, k as int);
                            }
                        }
                        return None;
                    },
                    Some(nacc) => {
                        proof {
                            assert(nacc as int == wsum(w@, j + 1));
                            assert(wsum_fits(w@, j + 1));
                        }
                        acc = nacc;
                    },
                }
            },
        }
        j = j + 1;
    }
    proof {
        assert(w@[0].timestamp > w@[k - 1].timestamp);
    }
    let tw: u64 = w[0].timestamp - w[k - 1].timestamp;
    proof {
        let x = acc as int;
        let dd = tw as int;
        assert(dd >= 1);
        if x > 0 {
            lemma_div_pos_is_pos(x, dd);
            lemma_div_nonincreasing(x, dd);
        } else if x < 0 {
            lemma_div_pos_is_pos(x * -1, dd);
            lemma_div_nonincreasing(x * -1, dd);
        }
        assert(fits_i128(div_trunc(x, dd)));
    }
    acc.checked_div(tw as i128)
}

impl DataFeed {
    /// The time-weighted average price over the up-to-`records` most recent
    /// records of `asset`; absent if the asset is unregistered, fewer than
    /// two records are stored in the window, or the sum is unrepresentable.
    pub fn twap(&self, asset: Asset, records: u32) -> (r: Option<i128>)
        requires
            self@.wf(),
        ensures
            r == self@.twap_spec(asset, records as int),
            self@.registered(asset) && self@.hist(asset).len() < 2 ==> r is None,
            !self@.registered(asset) ==> r is None,
    {
        match self.prices(asset, records) {
            None => None,
            Some(win) => {
                proof {
                    lemma_recent_sorted(self@.hist(asset), records as int);
                }
                twap_over(&win)
            },
        }
    }

    /// The time-weighted average of the pair's cross-price series over the
    /// up-to-`records` most recent records of each leg.
    pub fn x_twap(&self, base_asset: Asset, quote_asset: Asset, records: u32) -> (r: Option<i128>)
        requires
            self@.wf(),
        ensures
            r == self@.x_twap_spec(base_asset, quote_asset, records as int),
    {
        match self.x_prices(base_asset, quote_asset, records) {
            None => None,
            Some(win) => {
                proof {
                    lemma_recent_sorted(self@.hist(base_asset), records as int);
                    crate::cross::lemma_cross_series_props(
                        recent_of(self@.hist(base_asset), records as int),
                        recent_of(self@.hist(quote_asset), records as int),
                        self@.decimals as nat,
                    );
                }
                twap_over(&win)
            },
        }
    }
}

} // verus!
