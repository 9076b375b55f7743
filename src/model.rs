//! The records of the schema and the values they are made from.

use vstd::prelude::*;
use vstd::string::*;
use crate::text::same_text;

verus! {

/// A venue or chain that wallets and currency symbols belong to.
#[derive(Debug, Clone, Copy, PartialEq, Eq, Structural)]
pub enum AssetScope {
    Binance,
    Upbit,
    Spot,
    Future,
    Ethereum,
    Pendle2,
    Stakestone,
    Other,
}

/// The upstream source of a balance or a price.
#[derive(Debug, Clone, Copy, PartialEq, Eq, Structural)]
pub enum DataProvider {
    Cam,
    Ccxt,
    Debank,
}

/// A fixed-point amount with eight fractional digits: `units` hundred-millionths.
#[derive(Debug, Clone, Copy, PartialEq, Eq, Structural)]
pub struct Amount {
    pub units: i128,
}

/// One more than the largest magnitude, in units, of a column with twenty
/// digits of which eight are fractional.
pub const AMOUNT_UNITS_LIMIT: i128 = 100_000_000_000_000_000_000;

/// Whether an amount fits a decimal column of twenty digits, eight fractional.
pub open spec fn fits_column(a: Amount) -> bool {
    -AMOUNT_UNITS_LIMIT < a.units < AMOUNT_UNITS_LIMIT
}

impl Amount {
    /// Whether this amount fits a decimal column of twenty digits, eight fractional.
    pub fn fits(&self) -> (r: bool)
        ensures
            r == fits_column(*self),
    {
        -AMOUNT_UNITS_LIMIT < self.units && self.units < AMOUNT_UNITS_LIMIT
    }
}

/// The name under which the store keeps a scope.
pub open spec fn scope_name(s: AssetScope) -> Seq<char> {
    match s {
        AssetScope::Binance => "binance"@,
        AssetScope::Upbit => "upbit"@,
        AssetScope::Spot => "spot"@,
        AssetScope::Future => "future"@,
        AssetScope::Ethereum => "ethereum"@,
        AssetScope::Pendle2 => "pendle2"@,
        AssetScope::Stakestone => "stakestone"@,
        AssetScope::Other => "other"@,
    }
}

/// The name under which the store keeps a provider.
pub open spec fn provider_name(p: DataProvider) -> Seq<char> {
    match p {
        DataProvider::Cam => "cam"@,
        DataProvider::Ccxt => "ccxt"@,
        DataProvider::Debank => "debank"@,
    }
}

impl AssetScope {
    /// The storage name of this scope.
    pub fn storage_name(&self) -> (r: &'static str)
        ensures
            r@ == scope_name(*self),
    {
        match self {
            AssetScope::Binance => "binance",
            AssetScope::Upbit => "upbit",
            AssetScope::Spot => "spot",
            AssetScope::Future => "future",
            AssetScope::Ethereum => "ethereum",
            AssetScope::Pendle2 => "pendle2",
            AssetScope::Stakestone => "stakestone",
            AssetScope::Other => "other",
        }
    }

    /// The scope stored under `name`, if any.
    pub fn from_storage_name(name: &str) -> (r: Option<AssetScope>)
        ensures
            match r {
                Some(s) => scope_name(s) == name@,
                None => forall|s: AssetScope| scope_name(s) != name@,
            },
    {
        proof {
            reveal_strlit("binance");
            reveal_strlit("upbit");
            reveal_strlit("spot");
            reveal_strlit("future");
            reveal_strlit("ethereum");
            reveal_strlit("pendle2");
            reveal_strlit("stakestone");
            reveal_strlit("other");
        }
        if same_text(name, "binance") {
            Some(AssetScope::Binance)
        } else if same_text(name, "upbit") {
            Some(AssetScope::Upbit)
        } else if same_text(name, "spot") {
            Some(AssetScope::Spot)
        } else if same_text(name, "future") {
            Some(AssetScope::Future)
        } else if same_text(name, "ethereum") {
            Some(AssetScope::Ethereum)
        } else if same_text(name, "pendle2") {
            Some(AssetScope::Pendle2)
        } else if same_text(name, "stakestone") {
            Some(AssetScope::Stakestone)
        } else if same_text(name, "other") {
            Some(AssetScope::Other)
        } else {
            None
        }
    }
}

impl DataProvider {
    /// The storage name of this provider.
    pub fn storage_name(&self) -> (r: &'static str)
        ensures
            r@ == provider_name(*self),
    {
        match self {
            DataProvider::Cam => "cam",
            DataProvider::Ccxt => "ccxt",
            DataProvider::Debank => "debank",
        }
    }

    /// The provider stored under `name`, if any.
    pub fn from_storage_name(name: &str) -> (r: Option<DataProvider>)
        ensures
            match r {
                Some(p) => provider_name(p) == name@,
                None => forall|p: DataProvider| provider_name(p) != name@,
            },
    {
        proof {
            reveal_strlit("cam");
            reveal_strlit("ccxt");
            reveal_strlit("debank");
        }
        if same_text(name, "cam") {
            Some(DataProvider::Cam)
        } else if same_text(name, "ccxt") {
            Some(DataProvider::Ccxt)
        } else if same_text(name, "debank") {
            Some(DataProvider::Debank)
        } else {
            None
        }
    }
}

/// A wallet to create, or the new values of one.
#[derive(Debug, Clone, Copy, PartialEq, Eq, Structural)]
pub struct NewWallet {
    pub scope: AssetScope,
    pub parent_id: Option<i32>,
}

/// Metadata to attach to a wallet.
#[derive(Debug, Clone)]
pub struct NewWalletMetadata {
    pub wallet_id: i32,
    pub alias: String,
    pub address: Option<String>,
}

/// A balance snapshot to record; `time` is in nanoseconds since the Unix epoch.
#[derive(Debug, Clone, Copy, PartialEq, Eq, Structural)]
pub struct NewBalance {
    pub wallet_id: i32,
    pub time: i128,
    pub provider: DataProvider,
}

/// One asset held in a balance snapshot.
#[derive(Debug, Clone)]
pub struct NewBalanceEntry {
    pub balance_id: i32,
    pub raw_currency: String,
    pub amount: Amount,
}

/// A price to record; `time` is in nanoseconds since the Unix epoch.
#[derive(Debug, Clone)]
pub struct NewPrice {
    pub currency: String,
    pub time: i128,
    pub value: Amount,
    pub liquidity: Amount,
    pub provider: DataProvider,
}

/// A canonical currency to create.
#[derive(Debug, Clone)]
pub struct NewCurrency {
    pub name: String,
}

/// A mapping from a raw symbol in a scope to a canonical currency.
#[derive(Debug, Clone)]
pub struct NewCurrencyMap {
    pub scope: AssetScope,
    pub raw_currency: String,
    pub currency: String,
}

/// The rank of a provider for a wallet's balances; lower wins.
#[derive(Debug, Clone, Copy, PartialEq, Eq, Structural)]
pub struct NewBalancePriority {
    pub wallet_id: i32,
    pub provider: DataProvider,
    pub priority: i32,
}

/// The rank of a provider for a currency's prices; lower wins.
#[derive(Debug, Clone)]
pub struct NewPricePriority {
    pub currency: String,
    pub provider: DataProvider,
    pub priority: i32,
}

/// Distinct scopes are stored under distinct names, so every scope comes
/// back from its storage name as itself.
pub proof fn lemma_scope_names_round_trip(a: AssetScope, b: AssetScope)
    ensures
        scope_name(a) == scope_name(b) ==> a == b,
{
    reveal_strlit("binance");
    reveal_strlit("upbit");
    reveal_strlit("spot");
    reveal_strlit("future");
    reveal_strlit("ethereum");
    reveal_strlit("pendle2");
    reveal_strlit("stakestone");
    reveal_strlit("other");
    if scope_name(a) == scope_name(b) && a != b {
        let x = scope_name(a);
        let y = scope_name(b);
        assert(x.len() != y.len() || x[0] != y[0] || x[1] != y[1]);
    }
}

/// Distinct providers are stored under distinct names, so every provider
/// comes back from its storage name as itself.
pub proof fn lemma_provider_names_round_trip(a: DataProvider, b: DataProvider)
    ensures
        provider_name(a) == provider_name(b) ==> a == b,
{
    reveal_strlit("cam");
    reveal_strlit("ccxt");
    reveal_strlit("debank");
    if provider_name(a) == provider_name(b) && a != b {
        let x = provider_name(a);
        let y = provider_name(b);
        assert(x.len() != y.len() || x[1] != y[1]);
    }
}

} // verus!
