use data_feed::feed::DataFeed;
use data_feed::{Asset, PriceData};

const USD: Asset = Asset::Other(0x555344);
const EUR: Asset = Asset::Other(0x455552);
const GBP: Asset = Asset::Other(0x474250);

fn two_leg_feed(decimals: u32) -> DataFeed {
    // EUR at timestamps 1000..3000, GBP at 2000..4000
    let mut f = DataFeed::new(vec![USD, EUR, GBP], USD, decimals, 300, 86400);
    f.set_asset_price(EUR, 300, 1000).unwrap();
    f.set_asset_price(EUR, 320, 2000).unwrap();
    f.set_asset_price(EUR, 340, 3000).unwrap();
    f.set_asset_price(GBP, 200, 2000).unwrap();
    f.set_asset_price(GBP, 250, 3000).unwrap();
    f.set_asset_price(GBP, 400, 4000).unwrap();
    f
}

#[test]
fn x_last_price_uses_staler_timestamp() {
    let f = two_leg_feed(2);
    // EUR latest (340, 3000); GBP latest (400, 4000): pair is as fresh as EUR
    let x = f.x_last_price(EUR, GBP).unwrap();
    assert_eq!(x.timestamp, 3000);
    assert_eq!(x.price, 340 * 100 / 400);
    let y = f.x_last_price(GBP, EUR).unwrap();
    assert_eq!(y.timestamp, 3000);
    assert_eq!(y.price, 400 * 100 / 340);
}

#[test]
fn x_last_price_missing_leg_is_none() {
    let mut f = DataFeed::new(vec![USD, EUR, GBP], USD, 2, 300, 86400);
    f.set_asset_price(EUR, 300, 1000).unwrap();
    assert_eq!(f.x_last_price(EUR, GBP), None);
    assert_eq!(f.x_last_price(GBP, EUR), None);
    assert_eq!(f.x_last_price(EUR, Asset::Other(1)), None);
}

#[test]
fn x_price_requires_both_legs_at_exact_timestamp() {
    let f = two_leg_feed(2);
    let x = f.x_price(EUR, GBP, 2000).unwrap();
    assert_eq!(x, PriceData { price: 320 * 100 / 200, timestamp: 2000 });
    // EUR has 1000 but GBP does not; neither has 1500
    assert_eq!(f.x_price(EUR, GBP, 1000), None);
    assert_eq!(f.x_price(EUR, GBP, 1500), None);
}

#[test]
fn x_price_truncates_toward_zero() {
    let mut f = DataFeed::new(vec![USD, EUR, GBP], USD, 0, 300, 86400);
    f.set_asset_price(EUR, -7, 1000).unwrap();
    f.set_asset_price(GBP, 2, 1000).unwrap();
    let x = f.x_price(EUR, GBP, 1000).unwrap();
    // -7 / 2 truncates to -3, not -4
    assert_eq!(x.price, -3);
}

#[test]
fn x_prices_intersects_common_timestamps() {
    let f = two_leg_feed(2);
    let w = f.x_prices(EUR, GBP, 10).unwrap();
    assert_eq!(
        w,
        vec![
            PriceData { price: 340 * 100 / 250, timestamp: 3000 },
            PriceData { price: 320 * 100 / 200, timestamp: 2000 },
        ]
    );
    // narrow windows may not align at all
    let w1 = f.x_prices(EUR, GBP, 1).unwrap();
    assert!(w1.is_empty());
    // unregistered legs give none, not empty
    assert_eq!(f.x_prices(EUR, Asset::Other(1), 10), None);
}

#[test]
fn twap_needs_at_least_two_records() {
    let mut f = DataFeed::new(vec![USD, EUR], USD, 7, 300, 86400);
    assert_eq!(f.twap(EUR, 10), None);
    f.set_asset_price(EUR, 100, 1000).unwrap();
    assert_eq!(f.twap(EUR, 10), None);
    assert_eq!(f.twap(EUR, 0), None);
    assert_eq!(f.twap(Asset::Other(1), 10), None);
    f.set_asset_price(EUR, 200, 2000).unwrap();
    assert!(f.twap(EUR, 10).is_some());
}

#[test]
fn twap_weights_by_time_current() {
    let mut f = DataFeed::new(vec![USD, EUR], USD, 7, 300, 86400);
    f.set_asset_price(EUR, 10, 1000).unwrap();
    f.set_asset_price(EUR, 20, 2000).unwrap();
    f.set_asset_price(EUR, 40, 3000).unwrap();
    // window [(3000,40),(2000,20),(1000,10)]:
    // 20 was current for 1000 ms, 10 for 1000 ms; span 2000 ms
    assert_eq!(f.twap(EUR, 10), Some(15));
    // narrower window drops the oldest record
    assert_eq!(f.twap(EUR, 2), Some(20));
}

#[test]
fn twap_uneven_spacing_and_truncation() {
    let mut f = DataFeed::new(vec![USD, EUR], USD, 7, 300, 86400);
    f.set_asset_price(EUR, 7, 1000).unwrap();
    f.set_asset_price(EUR, 100, 4000).unwrap();
    f.set_asset_price(EUR, 50, 5000).unwrap();
    // window [(5000,50),(4000,100),(1000,7)]:
    // 100 current for 1000 ms, 7 for 3000 ms; (100000 + 21000) / 4000 = 30.25
    assert_eq!(f.twap(EUR, 10), Some(30));
}

#[test]
fn twap_overflow_is_absent_not_a_fault() {
    let mut f = DataFeed::new(vec![USD, EUR], USD, 7, 300, u64::MAX / 1000 - 1);
    f.set_asset_price(EUR, i128::MAX, 0).unwrap();
    f.set_asset_price(EUR, i128::MAX, 4_000_000_000_000).unwrap();
    assert_eq!(f.twap(EUR, 10), None);
}

#[test]
fn cross_overflow_is_absent_not_a_fault() {
    let mut f = DataFeed::new(vec![USD, EUR, GBP], USD, 7, 300, 86400);
    f.set_asset_price(EUR, i128::MAX, 1000).unwrap();
    f.set_asset_price(GBP, 3, 1000).unwrap();
    assert_eq!(f.x_last_price(EUR, GBP), None);
    assert_eq!(f.x_price(EUR, GBP, 1000), None);
    assert!(f.x_prices(EUR, GBP, 10).unwrap().is_empty());
}

#[test]
fn cross_with_unrepresentable_precision_is_absent() {
    let mut f = DataFeed::new(vec![USD, EUR, GBP], USD, 40, 300, 86400);
    f.set_asset_price(EUR, 3, 1000).unwrap();
    f.set_asset_price(GBP, 2, 1000).unwrap();
    assert_eq!(f.x_price(EUR, GBP, 1000), None);
    assert!(f.x_prices(EUR, GBP, 10).unwrap().is_empty());
}

#[test]
fn x_twap_over_cross_series() {
    let f = two_leg_feed(2);
    // cross series [(3000, 136), (2000, 160)]: 160 current for 1000 ms
    assert_eq!(f.x_twap(EUR, GBP, 10), Some(160));
    // fewer than two common points
    assert_eq!(f.x_twap(EUR, GBP, 1), None);
    assert_eq!(f.x_twap(EUR, Asset::Other(1), 10), None);
}
