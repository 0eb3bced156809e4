use data_feed::contract::Contract;
use data_feed::{Asset, Error, PriceData};

const ADMIN: u64 = 1;
const INTRUDER: u64 = 2;

const USD: Asset = Asset::Other(0x555344);
const EUR: Asset = Asset::Other(0x455552);
const JPY: Asset = Asset::Other(0x4A5059);

fn initialized() -> Contract {
    let mut c = Contract::new();
    c.admin_set(ADMIN).unwrap();
    c.init(ADMIN, vec![USD, EUR], USD, 7, 300, 86400).unwrap();
    c
}

#[test]
fn init_scenario_round_trip() {
    let mut c = initialized();
    c.set_price(ADMIN, EUR, 108_0000000, 1000).unwrap();
    c.set_price(ADMIN, EUR, 109_0000000, 2000).unwrap();
    assert_eq!(
        c.last_price(EUR),
        Some(PriceData { price: 109_0000000, timestamp: 2000 })
    );
    assert_eq!(
        c.prices(EUR, 5).unwrap(),
        vec![
            PriceData { price: 109_0000000, timestamp: 2000 },
            PriceData { price: 108_0000000, timestamp: 1000 },
        ]
    );
    assert_eq!(
        c.price(EUR, 1000),
        Some(PriceData { price: 108_0000000, timestamp: 1000 })
    );
    assert_eq!(c.price(EUR, 1500), None);
    assert_eq!(c.last_timestamp(), 2000);
}

#[test]
fn non_admin_write_fails_and_changes_nothing() {
    let mut c = initialized();
    c.add_assets(ADMIN, vec![JPY]).unwrap();
    assert_eq!(
        c.set_price(INTRUDER, JPY, 100_0000000, 1000),
        Err(Error::Unauthorized)
    );
    let w = c.prices(JPY, 5).unwrap();
    assert!(w.is_empty());
    assert_eq!(c.last_timestamp(), 0);
}

#[test]
fn second_init_fails_and_keeps_state() {
    let mut c = initialized();
    c.set_price(ADMIN, EUR, 42, 10).unwrap();
    assert_eq!(
        c.init(ADMIN, vec![JPY], JPY, 2, 60, 5),
        Err(Error::AlreadyInitialized)
    );
    assert_eq!(c.assets().unwrap(), vec![USD, EUR]);
    assert_eq!(c.base(), Some(USD));
    assert_eq!(c.decimals(), Some(7));
    assert_eq!(c.resolution(), Some(300));
    assert_eq!(c.period(), Some(86400));
    assert_eq!(c.price(EUR, 10), Some(PriceData { price: 42, timestamp: 10 }));
}

#[test]
fn reads_before_init_are_absent() {
    let c = Contract::new();
    assert_eq!(c.assets(), None);
    assert_eq!(c.base(), None);
    assert_eq!(c.decimals(), None);
    assert_eq!(c.resolution(), None);
    assert_eq!(c.period(), None);
    assert_eq!(c.last_timestamp(), 0);
    assert_eq!(c.last_price(EUR), None);
    assert_eq!(c.price(EUR, 1000), None);
    assert_eq!(c.prices(EUR, 5), None);
    assert_eq!(c.x_last_price(USD, EUR), None);
    assert_eq!(c.twap(EUR, 5), None);
}

#[test]
fn init_without_admin_fails() {
    let mut c = Contract::new();
    assert_eq!(
        c.init(ADMIN, vec![USD], USD, 7, 300, 86400),
        Err(Error::Unauthorized)
    );
    assert_eq!(c.assets(), None);
}

#[test]
fn admin_set_is_once() {
    let mut c = Contract::new();
    c.admin_set(ADMIN).unwrap();
    assert_eq!(c.admin_set(INTRUDER), Err(Error::AlreadyInitialized));
    // the first admin keeps authority
    assert!(c.init(ADMIN, vec![USD], USD, 7, 300, 86400).is_ok());
}

#[test]
fn mutations_before_init_fail() {
    let mut c = Contract::new();
    c.admin_set(ADMIN).unwrap();
    assert_eq!(c.add_assets(ADMIN, vec![EUR]), Err(Error::NotInitialized));
    assert_eq!(c.set_price(ADMIN, EUR, 1, 1), Err(Error::NotInitialized));
    assert_eq!(c.set_retention_period(ADMIN, 5), Err(Error::NotInitialized));
}

#[test]
fn non_admin_mutations_fail() {
    let mut c = initialized();
    assert_eq!(c.add_assets(INTRUDER, vec![JPY]), Err(Error::Unauthorized));
    assert_eq!(c.set_retention_period(INTRUDER, 5), Err(Error::Unauthorized));
    assert_eq!(c.assets().unwrap(), vec![USD, EUR]);
}

#[test]
fn set_price_unknown_asset_fails() {
    let mut c = initialized();
    assert_eq!(
        c.set_price(ADMIN, JPY, 100, 1000),
        Err(Error::AssetNotRegistered)
    );
}

#[test]
fn zero_price_write_is_silent_no_op() {
    let mut c = initialized();
    c.set_price(ADMIN, EUR, 5, 100).unwrap();
    assert!(c.set_price(ADMIN, EUR, 0, 200).is_ok());
    assert_eq!(c.price(EUR, 200), None);
    assert_eq!(c.last_timestamp(), 100);
}

#[test]
fn retention_period_update_through_gate() {
    let mut c = initialized();
    c.set_price(ADMIN, EUR, 1, 1000).unwrap();
    c.set_retention_period(ADMIN, 1).unwrap();
    assert_eq!(c.period(), Some(1));
    c.set_price(ADMIN, EUR, 2, 50000).unwrap();
    assert_eq!(c.price(EUR, 1000), None);
}

#[test]
fn cross_queries_through_contract() {
    let mut c = Contract::new();
    c.admin_set(ADMIN).unwrap();
    c.init(ADMIN, vec![USD, EUR, JPY], USD, 2, 300, 86400).unwrap();
    c.set_price(ADMIN, EUR, 300, 1000).unwrap();
    c.set_price(ADMIN, EUR, 320, 2000).unwrap();
    c.set_price(ADMIN, JPY, 200, 1000).unwrap();
    c.set_price(ADMIN, JPY, 160, 3000).unwrap();
    // staler leg stamps the pair
    let x = c.x_last_price(EUR, JPY).unwrap();
    assert_eq!(x, PriceData { price: 320 * 100 / 160, timestamp: 2000 });
    assert_eq!(
        c.x_price(EUR, JPY, 1000),
        Some(PriceData { price: 150, timestamp: 1000 })
    );
    assert_eq!(c.x_price(EUR, JPY, 2000), None);
    let w = c.x_prices(EUR, JPY, 10).unwrap();
    assert_eq!(w, vec![PriceData { price: 150, timestamp: 1000 }]);
    assert_eq!(c.x_twap(EUR, JPY, 10), None);
}

#[test]
fn twap_through_contract() {
    let mut c = initialized();
    c.set_price(ADMIN, EUR, 10, 1000).unwrap();
    c.set_price(ADMIN, EUR, 20, 2000).unwrap();
    c.set_price(ADMIN, EUR, 40, 3000).unwrap();
    assert_eq!(c.twap(EUR, 10), Some(15));
    assert_eq!(c.twap(EUR, 1), None);
    assert_eq!(c.twap(JPY, 10), None);
}
