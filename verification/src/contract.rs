//! The contract surface around the feed engine: a single administrator gate
//! and a configure-once lifecycle. Mutating operations succeed only for the
//! configured administrator and only after a successful `init`; read
//! operations need no authorization and report missing data as an absent
//! result.
//!
//! The host authenticates callers; this wrapper receives the authenticated
//! caller identity as a plain handle and compares it against the configured
//! administrator.

use vstd::prelude::*;

use crate::feed::{DataFeed, FeedView};
use crate::history::recent_of;
use crate::{Asset, Error, PriceData};

verus! {

/// The model of the contract: the configured administrator, if any, and the
/// feed state, present once initialized.
pub ghost struct ContractView {
    pub admin: Option<u64>,
    pub feed: Option<FeedView>,
}

/// The deployed instance: admin identity plus feed state.
pub struct Contract {
    admin: Option<u64>,
    feed: Option<DataFeed>,
}

impl View for Contract {
    type V = ContractView;

    closed spec fn view(&self) -> ContractView {
        ContractView {
            admin: self.admin,
            feed: match self.feed {
                Some(f) => Some(f@),
                None => None,
            },
        }
    }
}

impl Contract {
    /// The feed state, once initialized, is well-formed.
    pub open spec fn inv(self) -> bool {
        match self@.feed {
            Some(f) => f.wf(),
            None => true,
        }
    }

    /// A fresh instance: no administrator configured, not initialized.
    pub fn new() -> (c: Contract)
        ensures
            c@.admin is None,
            c@.feed is None,
            c.inv(),
    {
        Contract { admin: None, feed: None }
    }

    /// Configure the administrator. Succeeds once; a second call fails and
    /// changes nothing.
    pub fn admin_set(&mut self, id: u64) -> (r: Result<(), Error>)
        ensures
            old(self)@.admin is None ==> r == Ok::<(), Error>(()) && final(self)@.admin == Some(id)
                && final(self)@.feed == old(self)@.feed,
            old(self)@.admin is Some ==> r == Err::<(), Error>(Error::AlreadyInitialized)
                && final(self)@ == old(self)@,
            old(self).inv() ==> final(self).inv(),
    {
        match self.admin {
            Some(_) => Err(Error::AlreadyInitialized),
            None => {
                self.admin = Some(id);
                Ok(())
            },
        }
    }

    /// The administrator gate: succeeds exactly when `caller` is the
    /// configured administrator (in particular, never before one is
    /// configured).
    pub fn require_auth(&self, caller: u64) -> (r: Result<(), Error>)
        ensures
            r is Ok <==> self@.admin == Some(caller),
            r is Err ==> r == Err::<(), Error>(Error::Unauthorized),
    {
        match self.admin {
            Some(a) => {
                if a == caller {
                    Ok(())
                } else {
                    Err(Error::Unauthorized)
                }
            },
            None => Err(Error::Unauthorized),
        }
    }

    /// Initialize the feed: registry, base asset, decimals, resolution and
    /// retention period. Callable once, by the administrator only; a repeat
    /// call fails with `AlreadyInitialized` and changes nothing.
    pub fn init(
        &mut self,
        caller: u64,
        assets: Vec<Asset>,
        base: Asset,
        decimals: u32,
        resolution: u32,
        retention_period: u64,
    ) -> (r: Result<(), Error>)
        requires
            old(self).inv(),
        ensures
            final(self).inv(),
            old(self)@.admin != Some(caller) ==> r == Err::<(), Error>(Error::Unauthorized)
                && final(self)@ == old(self)@,
            old(self)@.admin == Some(caller) && old(self)@.feed is Some ==> r == Err::<(), Error>(
                Error::AlreadyInitialized,
            ) && final(self)@ == old(self)@,
            old(self)@.admin == Some(caller) && old(self)@.feed is None ==> r == Ok::<(), Error>(())
                && final(self)@.admin == old(self)@.admin && final(self)@.feed == Some(
                FeedView::init_feed(base, decimals, resolution, retention_period).register_all(
                    assets@,
                ),
            ),
    {
        match self.require_auth(caller) {
            Err(e) => Err(e),
            Ok(_) => {
                if self.feed.is_some() {
                    Err(Error::AlreadyInitialized)
                } else {
                    self.feed = Some(
                        DataFeed::new(assets, base, decimals, resolution, retention_period),
                    );
                    Ok(())
                }
            },
        }
    }

    /// Register further assets. Administrator only, after `init`;
    /// re-registering an asset is a no-op that keeps its history.
    pub fn add_assets(&mut self, caller: u64, assets: Vec<Asset>) -> (r: Result<(), Error>)
        requires
            old(self).inv(),
        ensures
            final(self).inv(),
            old(self)@.admin != Some(caller) ==> r == Err::<(), Error>(Error::Unauthorized)
                && final(self)@ == old(self)@,
            old(self)@.admin == Some(caller) && old(self)@.feed is None ==> r == Err::<(), Error>(
                Error::NotInitialized,
            ) && final(self)@ == old(self)@,
            old(self)@.admin == Some(caller) ==> (old(self)@.feed matches Some(f) ==> r == Ok::<
                (),
                Error,
            >(()) && final(self)@.admin == old(self)@.admin && final(self)@.feed == Some(
                f.register_all(assets@),
            )),
    {
        match self.require_auth(caller) {
            Err(e) => {
                return Err(e);
            },
            Ok(_) => {},
        }
        match self.feed.take() {
            None => Err(Error::NotInitialized),
            Some(mut f) => {
                f.add_assets(assets);
                self.feed = Some(f);
                Ok(())
            },
        }
    }

    /// Record one price observation. Administrator only, after `init`; fails
    /// on an unregistered asset, silently skips a zero price, and otherwise
    /// upserts the entry and evicts this asset's out-of-retention history.
    pub fn set_price(&mut self, caller: u64, asset: Asset, price: i128, timestamp: u64) -> (r:
        Result<(), Error>)
        requires
            old(self).inv(),
        ensures
            final(self).inv(),
            old(self)@.admin != Some(caller) ==> r == Err::<(), Error>(Error::Unauthorized)
                && final(self)@ == old(self)@,
            old(self)@.admin == Some(caller) && old(self)@.feed is None ==> r == Err::<(), Error>(
                Error::NotInitialized,
            ) && final(self)@ == old(self)@,
            old(self)@.admin == Some(caller) ==> (old(self)@.feed matches Some(f) ==> (
            !f.registered(asset) ==> r == Err::<(), Error>(Error::AssetNotRegistered)
                && final(self)@ == old(self)@)),
            old(self)@.admin == Some(caller) ==> (old(self)@.feed matches Some(f) ==> (
            f.registered(asset) && price == 0 ==> r == Ok::<(), Error>(())
                && final(self)@ == old(self)@)),
            old(self)@.admin == Some(caller) ==> (old(self)@.feed matches Some(f) ==> (
            f.registered(asset) && price != 0 ==> r == Ok::<(), Error>(()) && final(self)@.admin
                == old(self)@.admin && final(self)@.feed == Some(
                f.after_set(asset, price, timestamp),
            ))),
    {
        match self.require_auth(caller) {
            Err(e) => {
                return Err(e);
            },
            Ok(_) => {},
        }
        match self.feed.take() {
            None => Err(Error::NotInitialized),
            Some(mut f) => {
                let r = f.set_asset_price(asset, price, timestamp);
                self.feed = Some(f);
                r
            },
        }
    }

    /// Change the retention period. Administrator only, after `init`; takes
    /// effect on the next write to each asset.
    pub fn set_retention_period(&mut self, caller: u64, period: u64) -> (r: Result<(), Error>)
        requires
            old(self).inv(),
        ensures
            final(self).inv(),
            old(self)@.admin != Some(caller) ==> r == Err::<(), Error>(Error::Unauthorized)
                && final(self)@ == old(self)@,
            old(self)@.admin == Some(caller) && old(self)@.feed is None ==> r == Err::<(), Error>(
                Error::NotInitialized,
            ) && final(self)@ == old(self)@,
            old(self)@.admin == Some(caller) ==> (old(self)@.feed matches Some(f) ==> r == Ok::<
                (),
                Error,
            >(()) && final(self)@.admin == old(self)@.admin && final(self)@.feed == Some(
                f.with_retention(period),
            )),
    {
        match self.require_auth(caller) {
            Err(e) => {
                return Err(e);
            },
            Ok(_) => {},
        }
        match self.feed.take() {
            None => Err(Error::NotInitialized),
            Some(mut f) => {
                f.set_retention_period(period);
                self.feed = Some(f);
                Ok(())
            },
        }
    }

    /// All registered assets in registration order, or none before `init`.
    pub fn assets(&self) -> (r: Option<Vec<Asset>>)
        ensures
            r is Some <==> self@.feed is Some,
            r matches Some(v) ==> (self@.feed matches Some(f) && v@ == f.assets),
    {
        match &self.feed {
            None => None,
            Some(f) => Some(f.assets()),
        }
    }

    /// The base asset, or none before `init`.
    pub fn base(&self) -> (r: Option<Asset>)
        ensures
            r == match self@.feed {
                Some(f) => Some(f.base),
                None => None::<Asset>,
            },
    {
        match &self.feed {
            None => None,
            Some(f) => Some(f.base()),
        }
    }

    /// The price precision, or none before `init`.
    pub fn decimals(&self) -> (r: Option<u32>)
        ensures
            r == match self@.feed {
                Some(f) => Some(f.decimals),
                None => None::<u32>,
            },
    {
        match &self.feed {
            None => None,
            Some(f) => Some(f.decimals()),
        }
    }

    /// The nominal tick spacing in seconds, or none before `init`.
    pub fn resolution(&self) -> (r: Option<u32>)
        ensures
            r == match self@.feed {
                Some(f) => Some(f.resolution),
                None => None::<u32>,
            },
    {
        match &self.feed {
            None => None,
            Some(f) => Some(f.resolution()),
        }
    }

    /// The retention period in seconds, or none before `init`.
    pub fn period(&self) -> (r: Option<u64>)
        ensures
            r == match self@.feed {
                Some(f) => Some(f.retention_period),
                None => None::<u64>,
            },
    {
        match &self.feed {
            None => None,
            Some(f) => Some(f.period()),
        }
    }

    /// The maximum timestamp ever accepted, or 0 before `init`.
    pub fn last_timestamp(&self) -> (r: u64)
        ensures
            r == match self@.feed {
                Some(f) => f.last_timestamp,
                None => 0u64,
            },
    {
        match &self.feed {
            None => 0,
            Some(f) => f.last_timestamp(),
        }
    }

    /// The most recent entry for `asset`, or none.
    pub fn last_price(&self, asset: Asset) -> (r: Option<PriceData>)
        requires
            self.inv(),
        ensures
            r == match self@.feed {
                Some(f) => f.last_price(asset),
                None => None::<PriceData>,
            },
    {
        match &self.feed {
            None => None,
            Some(f) => f.lastprice(asset),
        }
    }

    /// The entry at exactly `timestamp` for `asset`, or none; never
    /// interpolated.
    pub fn price(&self, asset: Asset, timestamp: u64) -> (r: Option<PriceData>)
        requires
            self.inv(),
        ensures
            r == match self@.feed {
                Some(f) => f.price_at(asset, timestamp),
                None => None::<PriceData>,
            },
    {
        match &self.feed {
            None => None,
            Some(f) => f.price(asset, timestamp),
        }
    }

    /// The up-to-`records` most recent entries for `asset`, most recent
    /// first; none if uninitialized or the asset is unregistered.
    pub fn prices(&self, asset: Asset, records: u32) -> (r: Option<Vec<PriceData>>)
        requires
            self.inv(),
        ensures
            r is Some <==> (self@.feed matches Some(f) && f.registered(asset)),
            r matches Some(v) ==> (self@.feed matches Some(f) && v@ == recent_of(
                f.hist(asset),
                records as int,
            )),
    {
        match &self.feed {
            None => None,
            Some(f) => f.prices(asset, records),
        }
    }

    /// The most recent cross price for the pair, or none.
    pub fn x_last_price(&self, base_asset: Asset, quote_asset: Asset) -> (r: Option<PriceData>)
        requires
            self.inv(),
        ensures
            r == match self@.feed {
                Some(f) => f.x_last_price_spec(base_asset, quote_asset),
                None => None::<PriceData>,
            },
    {
        match &self.feed {
            None => None,
            Some(f) => f.x_last_price(base_asset, quote_asset),
        }
    }

    /// The cross price for the pair at exactly `timestamp`, or none.
    pub fn x_price(&self, base_asset: Asset, quote_asset: Asset, timestamp: u64) -> (r: Option<
        PriceData,
    >)
        requires
            self.inv(),
        ensures
            r == match self@.feed {
                Some(f) => f.x_price_spec(base_asset, quote_asset, timestamp),
                None => None::<PriceData>,
            },
    {
        match &self.feed {
            None => None,
            Some(f) => f.x_price(base_asset, quote_asset, timestamp),
        }
    }

    /// The cross-price series for the pair over the most recent records,
    /// most recent first; none if uninitialized or either leg unregistered.
    pub fn x_prices(&self, base_asset: Asset, quote_asset: Asset, records: u32) -> (r: Option<
        Vec<PriceData>,
    >)
        requires
            self.inv(),
        ensures
            r is Some <==> (self@.feed matches Some(f) && f.registered(base_asset) && f.registered(
                quote_asset,
            )),
            r matches Some(v) ==> (self@.feed matches Some(f) && v@ == crate::cross::cross_series(
                recent_of(f.hist(base_asset), records as int),
                recent_of(f.hist(quote_asset), records as int),
                f.decimals as nat,
            )),
    {
        match &self.feed {
            None => None,
            Some(f) => f.x_prices(base_asset, quote_asset, records),
        }
    }

    /// The time-weighted average price for `asset` over its most recent
    /// records, or none.
    pub fn twap(&self, asset: Asset, records: u32) -> (r: Option<i128>)
        requires
            self.inv(),
        ensures
            r == match self@.feed {
                Some(f) => f.twap_spec(asset, records as int),
                None => None::<i128>,
            },
    {
        match &self.feed {
            None => None,
            Some(f) => f.twap(asset, records),
        }
    }

    /// The time-weighted average cross price for the pair over its cross
    /// series, or none.
    pub fn x_twap(&self, base_asset: Asset, quote_asset: Asset, records: u32) -> (r: Option<i128>)
        requires
            self.inv(),
        ensures
            r == match self@.feed {
                Some(f) => f.x_twap_spec(base_asset, quote_asset, records as int),
                None => None::<i128>,
            },
    {
        match &self.feed {
            None => None,
            Some(f) => f.x_twap(base_asset, quote_asset, records),
        }
    }
}

} // verus!
