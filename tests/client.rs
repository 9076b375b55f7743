use hammer_assets::client::{api_base_url, AccountService, InstrumentService, PortfolioService};
use hammer_assets::model::{AssetScope, DataProvider};
use hammer_assets::text::{same_text, text_less};

#[test]
fn base_url_joins_api_path() {
    assert_eq!(api_base_url("https://cam.example.com", "/api/v3"), "https://cam.example.com/api/v3/");
}

#[test]
fn scope_names_round_trip() {
    let all = [
        AssetScope::Binance,
        AssetScope::Upbit,
        AssetScope::Spot,
        AssetScope::Future,
        AssetScope::Ethereum,
        AssetScope::Pendle2,
        AssetScope::Stakestone,
        AssetScope::Other,
    ];
    for s in all {
        assert_eq!(AssetScope::from_storage_name(s.storage_name()), Some(s));
    }
    assert_eq!(AssetScope::Pendle2.storage_name(), "pendle2");
    assert_eq!(AssetScope::from_storage_name("kraken"), None);
}

#[test]
fn provider_names_round_trip() {
    for p in [DataProvider::Cam, DataProvider::Ccxt, DataProvider::Debank] {
        assert_eq!(DataProvider::from_storage_name(p.storage_name()), Some(p));
    }
    assert_eq!(DataProvider::from_storage_name("CAM"), None);
}

#[test]
fn text_order_is_code_point_order() {
    assert!(text_less("ADA", "BTC"));
    assert!(text_less("BT", "BTC"));
    assert!(!text_less("BTC", "BTC"));
    assert!(!text_less("b", "B"));
    assert!(same_text("é", "é"));
    assert!(!same_text("e", "é"));
}

#[test]
fn service_groups_succeed() {
    assert!(AccountService.get_account().is_ok());
    assert!(InstrumentService.get_instrument().is_ok());
    assert!(PortfolioService.get_portfolio().is_ok());
}
