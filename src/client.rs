//! What the API client is built from: its base URL and the groups of API
//! operations it offers.

use vstd::prelude::*;
use crate::classify::CamError;
use crate::text::concat;

verus! {

/// The URL that request paths are joined to: the origin, the API path and a
/// closing `/`.
pub open spec fn base_url_text(base_url: Seq<char>, api_path: Seq<char>) -> Seq<char> {
    base_url + api_path + seq!['/']
}

/// The base URL of the client, as text.
pub fn api_base_url(base_url: &str, api_path: &str) -> (r: String)
    ensures
        r@ == base_url_text(base_url@, api_path@),
{
    let joined = concat(base_url, api_path);
    proof {
        reveal_strlit("/");
    }
    let r = concat(joined.as_str(), "/");
    assert(r@ =~= base_url_text(base_url@, api_path@));
    r
}

/// Account operations of the API.
#[derive(Debug, Clone, Copy)]
pub struct AccountService;

/// Instrument operations of the API.
#[derive(Debug, Clone, Copy)]
pub struct InstrumentService;

/// Portfolio operations of the API.
#[derive(Debug, Clone, Copy)]
pub struct PortfolioService;

impl AccountService {
    /// Account information; no account data is fetched, so it always succeeds.
    pub fn get_account(&self) -> (r: Result<(), CamError>)
        ensures
            r is Ok,
    {
        Ok(())
    }
}

impl InstrumentService {
    /// Instrument information; no instrument data is fetched, so it always
    /// succeeds.
    pub fn get_instrument(&self) -> (r: Result<(), CamError>)
        ensures
            r is Ok,
    {
        Ok(())
    }
}

impl PortfolioService {
    /// Portfolio information; no portfolio data is fetched, so it always
    /// succeeds.
    pub fn get_portfolio(&self) -> (r: Result<(), CamError>)
        ensures
            r is Ok,
    {
        Ok(())
    }
}

} // verus!
