use hammer_assets::model::{
    Amount, AssetScope, DataProvider, NewBalance, NewBalanceEntry, NewBalancePriority, NewCurrency,
    NewCurrencyMap, NewPrice, NewPricePriority, NewWallet, NewWalletMetadata, AMOUNT_UNITS_LIMIT,
};
use hammer_assets::store::{DbError, QueryService, ReconcileError};

fn wallet(q: &mut QueryService, parent: Option<i32>) -> i32 {
    q.create_wallet(NewWallet { scope: AssetScope::Binance, parent_id: parent }).unwrap().id
}

fn entry(raw: &str, units: i128) -> NewBalanceEntry {
    NewBalanceEntry { balance_id: 0, raw_currency: raw.to_string(), amount: Amount { units } }
}

fn balance(wallet_id: i32) -> NewBalance {
    NewBalance { wallet_id, time: 1_700_000_000_000_000_000, provider: DataProvider::Cam }
}

#[test]
fn wallet_keys_start_at_one() {
    let mut q = QueryService::new();
    assert_eq!(wallet(&mut q, None), 1);
    assert_eq!(wallet(&mut q, Some(1)), 2);
    let w = q.get_wallet_by_id(2).unwrap();
    assert_eq!(w.parent_id, Some(1));
    assert!(q.get_wallet_by_id(3).is_none());
}

#[test]
fn wallet_with_missing_parent_is_refused() {
    let mut q = QueryService::new();
    let r = q.create_wallet(NewWallet { scope: AssetScope::Other, parent_id: Some(9) });
    assert_eq!(r.unwrap_err(), DbError::ForeignKeyViolation);
    assert!(q.get_wallet_by_id(1).is_none());
}

#[test]
fn reparenting_under_a_descendant_is_refused() {
    let mut q = QueryService::new();
    let a = wallet(&mut q, None);
    let b = wallet(&mut q, Some(a));
    let c = wallet(&mut q, Some(b));
    let r = q.update_wallet(a, NewWallet { scope: AssetScope::Spot, parent_id: Some(c) });
    assert_eq!(r.unwrap_err(), DbError::CycleDetected);
    let r = q.update_wallet(a, NewWallet { scope: AssetScope::Spot, parent_id: Some(a) });
    assert_eq!(r.unwrap_err(), DbError::CycleDetected);
    let d = wallet(&mut q, None);
    let w = q.update_wallet(c, NewWallet { scope: AssetScope::Future, parent_id: Some(d) }).unwrap();
    assert_eq!(w.parent_id, Some(d));
    assert_eq!(w.scope, AssetScope::Future);
    let r = q.update_wallet(77, NewWallet { scope: AssetScope::Spot, parent_id: None });
    assert_eq!(r.unwrap_err(), DbError::RecordNotFound);
}

#[test]
fn deleting_a_wallet_cascades() {
    let mut q = QueryService::new();
    let parent = wallet(&mut q, None);
    let child = wallet(&mut q, Some(parent));
    let other = wallet(&mut q, None);
    q.create_wallet_metadata(NewWalletMetadata {
        wallet_id: parent,
        alias: "main".to_string(),
        address: None,
    })
    .unwrap();
    q.create_wallet_metadata(NewWalletMetadata {
        wallet_id: other,
        alias: "cold".to_string(),
        address: Some("0xabc".to_string()),
    })
    .unwrap();
    let b1 = q.create_balance_with_entries(balance(parent), vec![entry("BTC", 1), entry("ETH", 2)]).unwrap();
    let b2 = q.create_balance_with_entries(balance(child), vec![entry("SOL", 3)]).unwrap();
    let b3 = q.create_balance_with_entries(balance(other), vec![entry("XRP", 4)]).unwrap();
    q.set_balance_priority(NewBalancePriority { wallet_id: parent, provider: DataProvider::Cam, priority: 1 })
        .unwrap();

    assert!(q.delete_wallet(parent));
    assert!(q.get_wallet_by_id(parent).is_none());
    assert!(q.get_wallet_by_id(child).is_none());
    assert!(q.get_wallet_by_id(other).is_some());
    assert!(q.get_wallet_metadata(parent).is_none());
    assert_eq!(q.get_wallet_metadata(other).unwrap().alias, "cold");
    assert!(q.get_balances_by_wallet_id(parent).is_empty());
    assert!(q.get_balance_by_id(b1.id).is_none());
    assert!(q.get_balance_by_id(b2.id).is_none());
    assert!(q.get_balance_entries(b1.id).is_empty());
    assert!(q.get_balance_entries(b2.id).is_empty());
    assert_eq!(q.get_balance_entries(b3.id).len(), 1);
    assert!(q.get_balance_priorities(parent).is_empty());
    assert_eq!(q.get_wallets_with_metadata().len(), 1);
    assert!(!q.delete_wallet(parent));
}

#[test]
fn deleting_a_currency_cascades_to_mappings() {
    let mut q = QueryService::new();
    q.create_currency(NewCurrency { name: "BTC".to_string() }).unwrap();
    q.create_currency(NewCurrency { name: "ETH".to_string() }).unwrap();
    q.create_currency_mapping(NewCurrencyMap {
        scope: AssetScope::Binance,
        raw_currency: "XBT".to_string(),
        currency: "BTC".to_string(),
    })
    .unwrap();
    q.create_currency_mapping(NewCurrencyMap {
        scope: AssetScope::Upbit,
        raw_currency: "ETH".to_string(),
        currency: "ETH".to_string(),
    })
    .unwrap();
    q.set_price_provider(NewPricePriority { currency: "BTC".to_string(), provider: DataProvider::Ccxt, priority: 1 })
        .unwrap();
    assert!(q.delete_currency("BTC"));
    assert!(q.get_currency_by_name("BTC").is_none());
    let maps = q.get_all_currency_mappings();
    assert_eq!(maps.len(), 1);
    assert_eq!(maps[0].currency, "ETH");
    assert!(q.get_price_providers("BTC").is_empty());
    assert!(!q.delete_currency("BTC"));
}

#[test]
fn failed_composite_write_leaves_no_rows() {
    let mut q = QueryService::new();
    let w = wallet(&mut q, None);
    let r = q.create_balance_with_entries(
        balance(w),
        vec![entry("BTC", 1), entry("ETH", AMOUNT_UNITS_LIMIT)],
    );
    assert_eq!(r.unwrap_err(), DbError::NumericOverflow);
    assert!(q.get_balances_by_wallet_id(w).is_empty());
    assert!(q.get_balance_by_id(1).is_none());
    assert!(q.get_balance_entries(1).is_empty());
    let b = q.create_balance_with_entries(balance(w), vec![entry("BTC", 1), entry("ETH", 2)]).unwrap();
    assert_eq!(b.id, 1);
    let (got, entries) = q.get_balance_with_entries(b.id).unwrap();
    assert_eq!(got, b);
    assert_eq!(entries.len(), 2);
    assert_eq!(entries[0].id, 1);
    assert_eq!(entries[1].raw_currency, "ETH");
}

#[test]
fn composite_write_needs_an_existing_wallet() {
    let mut q = QueryService::new();
    let r = q.create_balance_with_entries(balance(5), vec![entry("BTC", 1)]);
    assert_eq!(r.unwrap_err(), DbError::ForeignKeyViolation);
}

#[test]
fn unmapped_currency_is_explicit() {
    let mut q = QueryService::new();
    q.create_currency(NewCurrency { name: "BTC".to_string() }).unwrap();
    q.create_currency_mapping(NewCurrencyMap {
        scope: AssetScope::Binance,
        raw_currency: "XBT".to_string(),
        currency: "BTC".to_string(),
    })
    .unwrap();
    assert_eq!(q.resolve(AssetScope::Binance, "XBT"), Ok("BTC".to_string()));
    assert_eq!(q.resolve(AssetScope::Upbit, "XBT"), Err(ReconcileError::Unmapped));
    assert_eq!(q.resolve(AssetScope::Binance, "BTC"), Err(ReconcileError::Unmapped));
}

#[test]
fn mapping_must_be_unique_and_point_to_a_currency() {
    let mut q = QueryService::new();
    let m = NewCurrencyMap { scope: AssetScope::Binance, raw_currency: "XBT".to_string(), currency: "BTC".to_string() };
    assert_eq!(q.create_currency_mapping(m.clone()).unwrap_err(), DbError::ForeignKeyViolation);
    q.create_currency(NewCurrency { name: "BTC".to_string() }).unwrap();
    assert_eq!(q.create_currency(NewCurrency { name: "BTC".to_string() }).unwrap_err(), DbError::UniqueViolation);
    let first = q.create_currency_mapping(m.clone()).unwrap();
    assert_eq!(q.create_currency_mapping(m.clone()).unwrap_err(), DbError::UniqueViolation);
    let other = q
        .create_currency_mapping(NewCurrencyMap {
            scope: AssetScope::Upbit,
            raw_currency: "XBT".to_string(),
            currency: "BTC".to_string(),
        })
        .unwrap();
    assert_eq!(q.update_currency_mapping(other.id, m.clone()).unwrap_err(), DbError::UniqueViolation);
    assert!(q.update_currency_mapping(first.id, m).is_ok());
    assert_eq!(q.get_currency_mappings_by_scope(AssetScope::Upbit).len(), 1);
    assert!(q.delete_currency_mapping(other.id));
    assert!(!q.delete_currency_mapping(other.id));
}

#[test]
fn lowest_priority_provider_wins() {
    let mut q = QueryService::new();
    let w = wallet(&mut q, None);
    q.set_balance_priority(NewBalancePriority { wallet_id: w, provider: DataProvider::Ccxt, priority: 2 })
        .unwrap();
    q.set_balance_priority(NewBalancePriority { wallet_id: w, provider: DataProvider::Cam, priority: 1 })
        .unwrap();
    let both = vec![DataProvider::Cam, DataProvider::Ccxt];
    assert_eq!(q.select_balance_provider(w, &both), Some(DataProvider::Cam));
    assert_eq!(q.select_balance_provider(w, &vec![DataProvider::Ccxt]), Some(DataProvider::Ccxt));
    assert_eq!(q.select_balance_provider(w, &vec![DataProvider::Debank]), None);
    let ranks = q.get_balance_priorities(w);
    assert_eq!(ranks.len(), 2);
    assert_eq!(ranks[0].provider, DataProvider::Cam);
    assert_eq!(ranks[1].priority, 2);
}

#[test]
fn price_provider_selection() {
    let mut q = QueryService::new();
    q.create_currency(NewCurrency { name: "BTC".to_string() }).unwrap();
    q.set_price_provider(NewPricePriority { currency: "BTC".to_string(), provider: DataProvider::Debank, priority: 5 })
        .unwrap();
    q.set_price_provider(NewPricePriority { currency: "BTC".to_string(), provider: DataProvider::Ccxt, priority: 3 })
        .unwrap();
    let all = vec![DataProvider::Cam, DataProvider::Ccxt, DataProvider::Debank];
    assert_eq!(q.select_price_provider("BTC", &all), Some(DataProvider::Ccxt));
    assert_eq!(q.select_price_provider("ETH", &all), None);
    let ranks = q.get_price_providers("BTC");
    assert_eq!(ranks[0].priority, 3);
    assert_eq!(ranks[1].priority, 5);
    let r = q.set_price_provider(NewPricePriority { currency: "ETH".to_string(), provider: DataProvider::Cam, priority: 1 });
    assert_eq!(r.unwrap_err(), DbError::ForeignKeyViolation);
}

fn price(currency: &str, time: i128, units: i128) -> NewPrice {
    NewPrice {
        currency: currency.to_string(),
        time,
        value: Amount { units },
        liquidity: Amount { units: 0 },
        provider: DataProvider::Cam,
    }
}

#[test]
fn price_queries_are_ordered_by_time() {
    let mut q = QueryService::new();
    q.create_price(price("BTC", 20, 2)).unwrap();
    q.create_price(price("BTC", 10, 1)).unwrap();
    q.create_price(price("ETH", 15, 9)).unwrap();
    q.create_price(price("BTC", 30, 3)).unwrap();
    let desc = q.get_prices_by_currency("BTC");
    let times: Vec<i128> = desc.iter().map(|p| p.time).collect();
    assert_eq!(times, vec![30, 20, 10]);
    assert_eq!(q.get_latest_price("BTC").unwrap().time, 30);
    assert!(q.get_latest_price("DOGE").is_none());
    let range = q.get_prices_by_currency_and_time_range("BTC", 10, 20);
    let times: Vec<i128> = range.iter().map(|p| p.time).collect();
    assert_eq!(times, vec![10, 20]);
}

#[test]
fn amounts_must_fit_their_column() {
    let mut q = QueryService::new();
    assert!(q.create_price(price("BTC", 1, AMOUNT_UNITS_LIMIT - 1)).is_ok());
    assert_eq!(q.create_price(price("BTC", 1, AMOUNT_UNITS_LIMIT)).unwrap_err(), DbError::NumericOverflow);
    assert_eq!(q.create_price(price("BTC", 1, -AMOUNT_UNITS_LIMIT)).unwrap_err(), DbError::NumericOverflow);
    assert!(Amount { units: -AMOUNT_UNITS_LIMIT + 1 }.fits());
}

#[test]
fn leaf_updates_and_deletes() {
    let mut q = QueryService::new();
    let w = wallet(&mut q, None);
    let m = q
        .create_wallet_metadata(NewWalletMetadata { wallet_id: w, alias: "a".to_string(), address: None })
        .unwrap();
    let m2 = q
        .update_wallet_metadata(m.id, NewWalletMetadata { wallet_id: w, alias: "b".to_string(), address: None })
        .unwrap();
    assert_eq!(m2.alias, "b");
    assert_eq!(
        q.update_wallet_metadata(m.id, NewWalletMetadata { wallet_id: 99, alias: "c".to_string(), address: None })
            .unwrap_err(),
        DbError::ForeignKeyViolation
    );
    assert!(q.delete_wallet_metadata(m.id));
    assert!(!q.delete_wallet_metadata(m.id));
    let b = q.create_balance_with_entries(balance(w), vec![]).unwrap();
    let e = q
        .add_balance_entry(NewBalanceEntry { balance_id: b.id, raw_currency: "BTC".to_string(), amount: Amount { units: 5 } })
        .unwrap();
    let e2 = q
        .update_balance_entry(e.id, NewBalanceEntry { balance_id: b.id, raw_currency: "XBT".to_string(), amount: Amount { units: 6 } })
        .unwrap();
    assert_eq!(e2.amount, Amount { units: 6 });
    assert!(q.delete_balance_entry(e.id));
    let b2 = q.update_balance(b.id, NewBalance { wallet_id: w, time: 5, provider: DataProvider::Debank }).unwrap();
    assert_eq!(b2.time, 5);
    assert!(q.delete_balance(b.id));
    assert!(!q.delete_balance(b.id));
    let p = q.set_balance_priority(NewBalancePriority { wallet_id: w, provider: DataProvider::Cam, priority: 1 }).unwrap();
    let p2 = q
        .update_balance_priority(p.id, NewBalancePriority { wallet_id: w, provider: DataProvider::Cam, priority: 7 })
        .unwrap();
    assert_eq!(p2.priority, 7);
    assert!(q.delete_balance_priority(p.id));
    let pr = q.create_price(price("BTC", 1, 1)).unwrap();
    let pr2 = q.update_price(pr.id, price("BTC", 2, 2)).unwrap();
    assert_eq!(q.get_price_by_id(pr.id).unwrap().time, pr2.time);
    assert!(q.delete_price(pr.id));
    assert_eq!(q.get_currencies().len(), 0);
}

#[test]
fn all_price_providers_by_currency_then_priority() {
    let mut q = QueryService::new();
    for name in ["ETH", "BTC", "ADA"] {
        q.create_currency(NewCurrency { name: name.to_string() }).unwrap();
    }
    for (c, p) in [("ETH", 2), ("BTC", 9), ("ETH", 1), ("ADA", 4), ("BTC", 3)] {
        q.set_price_provider(NewPricePriority { currency: c.to_string(), provider: DataProvider::Cam, priority: p })
            .unwrap();
    }
    let all: Vec<(String, i32)> =
        q.get_all_price_providers().into_iter().map(|p| (p.currency, p.priority)).collect();
    let expected: Vec<(String, i32)> = [("ADA", 4), ("BTC", 3), ("BTC", 9), ("ETH", 1), ("ETH", 2)]
        .iter()
        .map(|(c, p)| (c.to_string(), *p))
        .collect();
    assert_eq!(all, expected);
}
