use data_feed::feed::DataFeed;
use data_feed::{Asset, PriceData};

const USD: Asset = Asset::Other(0x555344);
const EUR: Asset = Asset::Other(0x455552);
const GBP: Asset = Asset::Other(0x474250);
const XLM: Asset = Asset::Stellar(7);

fn feed_with(assets: Vec<Asset>, retention: u64) -> DataFeed {
    DataFeed::new(assets, USD, 7, 300, retention)
}

#[test]
fn getters_report_configuration() {
    let f = DataFeed::new(vec![USD, EUR], USD, 7, 300, 86400);
    assert_eq!(f.base(), USD);
    assert_eq!(f.decimals(), 7);
    assert_eq!(f.resolution(), 300);
    assert_eq!(f.period(), 86400);
    assert_eq!(f.last_timestamp(), 0);
    assert_eq!(f.assets(), vec![USD, EUR]);
}

#[test]
fn new_deduplicates_registry() {
    let f = feed_with(vec![EUR, USD, EUR, USD], 86400);
    assert_eq!(f.assets(), vec![EUR, USD]);
}

#[test]
fn empty_history_queries() {
    let f = feed_with(vec![USD, EUR], 86400);
    assert_eq!(f.lastprice(EUR), None);
    assert_eq!(f.price(EUR, 1000), None);
    let w = f.prices(EUR, 5).unwrap();
    assert!(w.is_empty());
    assert_eq!(f.prices(GBP, 5), None);
}

#[test]
fn set_price_unregistered_fails() {
    let mut f = feed_with(vec![USD], 86400);
    assert!(f.set_asset_price(EUR, 100, 1000).is_err());
    assert_eq!(f.lastprice(EUR), None);
}

#[test]
fn last_price_tracks_maximum_timestamp() {
    let mut f = feed_with(vec![EUR], 86400);
    f.set_asset_price(EUR, 50, 5000).unwrap();
    f.set_asset_price(EUR, 30, 3000).unwrap();
    f.set_asset_price(EUR, 10, 1000).unwrap();
    // later-submitted writes with smaller timestamps do not displace the latest
    assert_eq!(f.lastprice(EUR), Some(PriceData { price: 50, timestamp: 5000 }));
    assert_eq!(f.last_timestamp(), 5000);
    // ... but are stored at their own timestamps
    assert_eq!(f.price(EUR, 3000), Some(PriceData { price: 30, timestamp: 3000 }));
    assert_eq!(f.price(EUR, 1000), Some(PriceData { price: 10, timestamp: 1000 }));
}

#[test]
fn set_price_same_timestamp_overwrites() {
    let mut f = feed_with(vec![EUR], 86400);
    f.set_asset_price(EUR, 100, 2000).unwrap();
    f.set_asset_price(EUR, 200, 2000).unwrap();
    assert_eq!(f.price(EUR, 2000), Some(PriceData { price: 200, timestamp: 2000 }));
    assert_eq!(f.prices(EUR, 10).unwrap().len(), 1);
}

#[test]
fn set_price_idempotent() {
    let mut f = feed_with(vec![EUR], 86400);
    f.set_asset_price(EUR, 100, 2000).unwrap();
    f.set_asset_price(EUR, 100, 2000).unwrap();
    assert_eq!(f.price(EUR, 2000), Some(PriceData { price: 100, timestamp: 2000 }));
    assert_eq!(f.prices(EUR, 10).unwrap().len(), 1);
    assert_eq!(f.last_timestamp(), 2000);
}

#[test]
fn zero_price_is_a_silent_no_op() {
    let mut f = feed_with(vec![EUR], 86400);
    f.set_asset_price(EUR, 77, 1000).unwrap();
    assert!(f.set_asset_price(EUR, 0, 2000).is_ok());
    assert_eq!(f.price(EUR, 2000), None);
    assert_eq!(f.last_timestamp(), 1000);
    assert_eq!(f.lastprice(EUR), Some(PriceData { price: 77, timestamp: 1000 }));
}

#[test]
fn eviction_drops_entries_older_than_retention() {
    // retention 1 s = 1000 ms
    let mut f = feed_with(vec![EUR], 1);
    f.set_asset_price(EUR, 1, 1000).unwrap();
    f.set_asset_price(EUR, 2, 5000).unwrap();
    // cutoff is 4000: the entry at 1000 is gone
    assert_eq!(f.price(EUR, 1000), None);
    assert_eq!(f.prices(EUR, 10).unwrap().len(), 1);
    assert_eq!(f.lastprice(EUR), Some(PriceData { price: 2, timestamp: 5000 }));
}

#[test]
fn eviction_keeps_entry_exactly_at_cutoff() {
    let mut f = feed_with(vec![EUR], 1);
    f.set_asset_price(EUR, 1, 1000).unwrap();
    f.set_asset_price(EUR, 2, 2000).unwrap();
    // cutoff is 1000; strictly older entries only are removed
    assert_eq!(f.price(EUR, 1000), Some(PriceData { price: 1, timestamp: 1000 }));
    assert_eq!(f.prices(EUR, 10).unwrap().len(), 2);
}

#[test]
fn eviction_is_scoped_to_the_written_asset() {
    let mut f = feed_with(vec![EUR, GBP], 1);
    f.set_asset_price(GBP, 9, 100).unwrap();
    f.set_asset_price(EUR, 1, 1000).unwrap();
    f.set_asset_price(EUR, 2, 99000).unwrap();
    // the stale GBP entry survives: no write to GBP, no eviction for it
    assert_eq!(f.price(GBP, 100), Some(PriceData { price: 9, timestamp: 100 }));
    assert_eq!(f.price(EUR, 1000), None);
}

#[test]
fn retention_change_applies_on_next_write() {
    let mut f = feed_with(vec![EUR], 86400);
    f.set_asset_price(EUR, 1, 1000).unwrap();
    f.set_retention_period(1);
    assert_eq!(f.period(), 1);
    // nothing re-evicted yet
    assert_eq!(f.price(EUR, 1000), Some(PriceData { price: 1, timestamp: 1000 }));
    f.set_asset_price(EUR, 2, 50000).unwrap();
    assert_eq!(f.price(EUR, 1000), None);
}

#[test]
fn prices_returns_most_recent_first() {
    let mut f = feed_with(vec![EUR], 86400);
    f.set_asset_price(EUR, 10, 1000).unwrap();
    f.set_asset_price(EUR, 30, 3000).unwrap();
    f.set_asset_price(EUR, 20, 2000).unwrap();
    let w = f.prices(EUR, 10).unwrap();
    assert_eq!(
        w,
        vec![
            PriceData { price: 30, timestamp: 3000 },
            PriceData { price: 20, timestamp: 2000 },
            PriceData { price: 10, timestamp: 1000 },
        ]
    );
    // over-asking truncates, it never fails
    let w2 = f.prices(EUR, 2).unwrap();
    assert_eq!(w2.len(), 2);
    assert_eq!(w2[0].timestamp, 3000);
    assert_eq!(w2[1].timestamp, 2000);
    // zero records yields an empty window
    assert!(f.prices(EUR, 0).unwrap().is_empty());
}

#[test]
fn add_assets_is_idempotent_and_keeps_history() {
    let mut f = feed_with(vec![EUR], 86400);
    f.set_asset_price(EUR, 5, 500).unwrap();
    f.add_assets(vec![EUR, XLM]);
    assert_eq!(f.assets(), vec![EUR, XLM]);
    assert_eq!(f.price(EUR, 500), Some(PriceData { price: 5, timestamp: 500 }));
    let w = f.prices(XLM, 3).unwrap();
    assert!(w.is_empty());
}

#[test]
fn stellar_and_other_assets_are_distinct() {
    let mut f = feed_with(vec![Asset::Stellar(1), Asset::Other(1)], 86400);
    f.set_asset_price(Asset::Stellar(1), 11, 100).unwrap();
    assert_eq!(f.lastprice(Asset::Other(1)), None);
    assert_eq!(
        f.lastprice(Asset::Stellar(1)),
        Some(PriceData { price: 11, timestamp: 100 })
    );
}

#[test]
fn negative_prices_are_stored() {
    let mut f = feed_with(vec![EUR], 86400);
    f.set_asset_price(EUR, -42, 1000).unwrap();
    assert_eq!(f.lastprice(EUR), Some(PriceData { price: -42, timestamp: 1000 }));
}
