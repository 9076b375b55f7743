//! The persisted records and generic helpers over tables of them.

use vstd::prelude::*;
use crate::model::{Amount, AssetScope, DataProvider};
use crate::text::{lemma_text_lt_total, lemma_text_lt_transitive, same_text, text_less, text_lt};

verus! {

/// A record with an integer key.
pub trait Keyed: Sized {
    spec fn key(&self) -> i32;

    fn row_id(&self) -> (r: i32)
        ensures
            r == self.key(),
    ;

    fn dup(&self) -> (r: Self)
        ensures
            r == *self,
    ;
}

/// A record that belongs to the record with key `owner()` of another table.
pub trait Owned: Keyed {
    spec fn owner(&self) -> i32;

    fn owner_id(&self) -> (r: i32)
        ensures
            r == self.owner(),
    ;
}

/// A record ranked by an integer; lower ranks come first.
pub trait Ranked: Keyed {
    spec fn rank(&self) -> int;

    fn rank_of(&self) -> (r: i128)
        ensures
            r == self.rank(),
    ;
}

/// A record that refers to a currency by name.
pub trait ForCurrency: Keyed {
    spec fn currency_name(&self) -> Seq<char>;

    fn currency_str(&self) -> (r: &str)
        ensures
            r@ == self.currency_name(),
    ;
}

/// A record that ranks a provider.
pub trait ProviderRank: Ranked {
    spec fn provider_of(&self) -> DataProvider;

    fn provider(&self) -> (r: DataProvider)
        ensures
            r == self.provider_of(),
    ;
}

fn dup_text(s: &String) -> (r: String)
    ensures
        r == *s,
{
    s.clone()
}

fn dup_opt_text(s: &Option<String>) -> (r: Option<String>)
    ensures
        r == *s,
{
    match s {
        Some(t) => Some(t.clone()),
        None => None,
    }
}

/// A wallet; `parent_id` names its parent wallet.
#[derive(Debug, Clone, Copy, PartialEq, Eq, Structural)]
pub struct Wallet {
    pub id: i32,
    pub parent_id: Option<i32>,
    pub scope: AssetScope,
}

/// The alias and, for on-chain wallets, the address of a wallet.
#[derive(Debug, Clone)]
pub struct WalletMetadata {
    pub id: i32,
    pub wallet_id: i32,
    pub alias: String,
    pub address: Option<String>,
}

/// A point-in-time balance snapshot of a wallet; `time` is in nanoseconds
/// since the Unix epoch.
#[derive(Debug, Clone, Copy, PartialEq, Eq, Structural)]
pub struct Balance {
    pub id: i32,
    pub wallet_id: i32,
    pub time: i128,
    pub provider: DataProvider,
}

/// One asset held in a balance snapshot, under its raw symbol.
#[derive(Debug, Clone)]
pub struct BalanceEntry {
    pub id: i32,
    pub balance_id: i32,
    pub raw_currency: String,
    pub amount: Amount,
}

/// The rank of a provider for a wallet's balances; lower wins.
#[derive(Debug, Clone, Copy, PartialEq, Eq, Structural)]
pub struct BalancePriority {
    pub id: i32,
    pub wallet_id: i32,
    pub provider: DataProvider,
    pub priority: i32,
}

/// A canonical currency, keyed by its name.
#[derive(Debug, Clone)]
pub struct Currency {
    pub name: String,
}

/// Maps a raw symbol in a scope to a canonical currency.
#[derive(Debug, Clone)]
pub struct CurrencyMap {
    pub id: i32,
    pub scope: AssetScope,
    pub raw_currency: String,
    pub currency: String,
}

/// A price of a currency at a time (nanoseconds since the Unix epoch).
#[derive(Debug, Clone)]
pub struct Price {
    pub id: i32,
    pub currency: String,
    pub time: i128,
    pub value: Amount,
    pub liquidity: Amount,
    pub provider: DataProvider,
}

/// The rank of a provider for a currency's prices; lower wins.
#[derive(Debug, Clone)]
pub struct PriceProvider {
    pub id: i32,
    pub currency: String,
    pub provider: DataProvider,
    pub priority: i32,
}

impl Keyed for Wallet {
    open spec fn key(&self) -> i32 {
        self.id
    }

    fn row_id(&self) -> (r: i32) {
        self.id
    }

    fn dup(&self) -> (r: Self) {
        *self
    }
}

impl Keyed for WalletMetadata {
    open spec fn key(&self) -> i32 {
        self.id
    }

    fn row_id(&self) -> (r: i32) {
        self.id
    }

    fn dup(&self) -> (r: Self) {
        WalletMetadata {
            id: self.id,
            wallet_id: self.wallet_id,
            alias: dup_text(&self.alias),
            address: dup_opt_text(&self.address),
        }
    }
}

impl Owned for WalletMetadata {
    open spec fn owner(&self) -> i32 {
        self.wallet_id
    }

    fn owner_id(&self) -> (r: i32) {
        self.wallet_id
    }
}

impl Keyed for Balance {
    open spec fn key(&self) -> i32 {
        self.id
    }

    fn row_id(&self) -> (r: i32) {
        self.id
    }

    fn dup(&self) -> (r: Self) {
        *self
    }
}

impl Owned for Balance {
    open spec fn owner(&self) -> i32 {
        self.wallet_id
    }

    fn owner_id(&self) -> (r: i32) {
        self.wallet_id
    }
}

impl Keyed for BalanceEntry {
    open spec fn key(&self) -> i32 {
        self.id
    }

    fn row_id(&self) -> (r: i32) {
        self.id
    }

    fn dup(&self) -> (r: Self) {
        BalanceEntry {
            id: self.id,
            balance_id: self.balance_id,
            raw_currency: dup_text(&self.raw_currency),
            amount: self.amount,
        }
    }
}

impl Owned for BalanceEntry {
    open spec fn owner(&self) -> i32 {
        self.balance_id
    }

    fn owner_id(&self) -> (r: i32) {
        self.balance_id
    }
}

impl Keyed for BalancePriority {
    open spec fn key(&self) -> i32 {
        self.id
    }

    fn row_id(&self) -> (r: i32) {
        self.id
    }

    fn dup(&self) -> (r: Self) {
        *self
    }
}

impl Owned for BalancePriority {
    open spec fn owner(&self) -> i32 {
        self.wallet_id
    }

    fn owner_id(&self) -> (r: i32) {
        self.wallet_id
    }
}

impl Ranked for BalancePriority {
    open spec fn rank(&self) -> int {
        self.priority as int
    }

    fn rank_of(&self) -> (r: i128) {
        self.priority as i128
    }
}

impl Keyed for CurrencyMap {
    open spec fn key(&self) -> i32 {
        self.id
    }

    fn row_id(&self) -> (r: i32) {
        self.id
    }

    fn dup(&self) -> (r: Self) {
        CurrencyMap {
            id: self.id,
            scope: self.scope,
            raw_currency: dup_text(&self.raw_currency),
            currency: dup_text(&self.currency),
        }
    }
}

impl Keyed for Price {
    open spec fn key(&self) -> i32 {
        self.id
    }

    fn row_id(&self) -> (r: i32) {
        self.id
    }

    fn dup(&self) -> (r: Self) {
        Price {
            id: self.id,
            currency: dup_text(&self.currency),
            time: self.time,
            value: self.value,
            liquidity: self.liquidity,
            provider: self.provider,
        }
    }
}

impl Ranked for Price {
    open spec fn rank(&self) -> int {
        self.time as int
    }

    fn rank_of(&self) -> (r: i128) {
        self.time
    }
}

impl Keyed for PriceProvider {
    open spec fn key(&self) -> i32 {
        self.id
    }

    fn row_id(&self) -> (r: i32) {
        self.id
    }

    fn dup(&self) -> (r: Self) {
        PriceProvider {
            id: self.id,
            currency: dup_text(&self.currency),
            provider: self.provider,
            priority: self.priority,
        }
    }
}

impl Ranked for PriceProvider {
    open spec fn rank(&self) -> int {
        self.priority as int
    }

    fn rank_of(&self) -> (r: i128) {
        self.priority as i128
    }
}

impl ForCurrency for CurrencyMap {
    open spec fn currency_name(&self) -> Seq<char> {
        self.currency@
    }

    fn currency_str(&self) -> (r: &str) {
        self.currency.as_str()
    }
}

impl ForCurrency for Price {
    open spec fn currency_name(&self) -> Seq<char> {
        self.currency@
    }

    fn currency_str(&self) -> (r: &str) {
        self.currency.as_str()
    }
}

impl ForCurrency for PriceProvider {
    open spec fn currency_name(&self) -> Seq<char> {
        self.currency@
    }

    fn currency_str(&self) -> (r: &str) {
        self.currency.as_str()
    }
}

impl ProviderRank for BalancePriority {
    open spec fn provider_of(&self) -> DataProvider {
        self.provider
    }

    fn provider(&self) -> (r: DataProvider) {
        self.provider
    }
}

impl ProviderRank for PriceProvider {
    open spec fn provider_of(&self) -> DataProvider {
        self.provider
    }

    fn provider(&self) -> (r: DataProvider) {
        self.provider
    }
}

/// Whether some record of `rows` has key `k`.
pub open spec fn has_key<R: Keyed>(rows: Seq<R>, k: i32) -> bool {
    exists|i: int| 0 <= i < rows.len() && #[trigger] rows[i].key() == k
}

/// No two records of `rows` share a key.
pub open spec fn unique_keys<R: Keyed>(rows: Seq<R>) -> bool {
    forall|i: int, j: int|
        0 <= i < rows.len() && 0 <= j < rows.len() && i != j ==> #[trigger] rows[i].key()
            != #[trigger] rows[j].key()
}

/// Every key of `rows` is positive and below `next`.
pub open spec fn keys_below<R: Keyed>(rows: Seq<R>, next: i32) -> bool {
    forall|i: int| 0 <= i < rows.len() ==> 0 < #[trigger] rows[i].key() < next
}

/// Records of `rows` ordered by rank, lowest first.
pub open spec fn sorted_by_rank<R: Ranked>(rows: Seq<R>) -> bool {
    forall|i: int, j: int| 0 <= i < j < rows.len() ==> #[trigger] rows[i].rank() <= #[trigger] rows[j].rank()
}

/// Whether rank `a` comes no later than rank `b`: by currency in code-point
/// order, then by priority.
pub open spec fn provider_le(a: PriceProvider, b: PriceProvider) -> bool {
    text_lt(a.currency@, b.currency@) || (a.currency@ == b.currency@ && a.priority <= b.priority)
}

/// Ranks ordered by currency, then priority.
pub open spec fn sorted_by_currency(rows: Seq<PriceProvider>) -> bool {
    forall|i: int, j: int| 0 <= i < j < rows.len() ==> provider_le(#[trigger] rows[i], #[trigger] rows[j])
}

proof fn lemma_provider_le_total(a: PriceProvider, b: PriceProvider)
    ensures
        provider_le(a, b) || provider_le(b, a),
{
    lemma_text_lt_total(a.currency@, b.currency@);
}

proof fn lemma_provider_le_transitive(a: PriceProvider, b: PriceProvider, c: PriceProvider)
    requires
        provider_le(a, b),
        provider_le(b, c),
    ensures
        provider_le(a, c),
{
    if text_lt(a.currency@, b.currency@) && text_lt(b.currency@, c.currency@) {
        lemma_text_lt_transitive(a.currency@, b.currency@, c.currency@);
    }
}

fn provider_before(a: &PriceProvider, b: &PriceProvider) -> (r: bool)
    ensures
        r == provider_le(*a, *b),
{
    if text_less(a.currency.as_str(), b.currency.as_str()) {
        true
    } else {
        same_text(a.currency.as_str(), b.currency.as_str()) && a.priority <= b.priority
    }
}

/// `rows` ordered by currency, then priority; equal ranks keep their order.
pub fn sort_by_currency(rows: Vec<PriceProvider>) -> (r: Vec<PriceProvider>)
    ensures
        sorted_by_currency(r@),
        r@.to_multiset() == rows@.to_multiset(),
{
    broadcast use vstd::seq_lib::group_to_multiset_ensures;

    let mut out: Vec<PriceProvider> = Vec::new();
    let mut i: usize = 0;
    while i < rows.len()
        invariant
            i <= rows@.len(),
            sorted_by_currency(out@),
            out@.to_multiset() == rows@.subrange(0, i as int).to_multiset(),
        decreases rows@.len() - i,
    {
        let x = rows[i].dup();
        let mut k: usize = 0;
        while k < out.len() && provider_before(&out[k], &x)
            invariant
                k <= out@.len(),
                forall|j: int| 0 <= j < k ==> provider_le(#[trigger] out@[j], x),
            decreases out@.len() - k,
        {
            k = k + 1;
        }
        let ghost before = out@;
        out.insert(k, x);
        proof {
            vstd::seq_lib::to_multiset_insert(before, k as int, x);
            assert(rows@.subrange(0, i + 1) =~= rows@.subrange(0, i as int).push(rows@[i as int]));
            vstd::seq_lib::to_multiset_build(rows@.subrange(0, i as int), rows@[i as int]);
            assert(out@ == before.insert(k as int, x));
            assert forall|a: int, b: int| 0 <= a < b < out@.len() implies provider_le(
                #[trigger] out@[a],
                #[trigger] out@[b],
            ) by {
                if b < k {
                    assert(out@[a] == before[a] && out@[b] == before[b]);
                } else if b == k {
                    assert(out@[a] == before[a]);
                } else if a == k {
                    assert(out@[b] == before[b - 1]);
                    assert(!provider_le(before[k as int], x));
                    lemma_provider_le_total(before[k as int], x);
                    if b - 1 > k {
                        assert(provider_le(before[k as int], before[b - 1]));
                        lemma_provider_le_transitive(x, before[k as int], before[b - 1]);
                    }
                } else if a < k {
                    assert(out@[a] == before[a] && out@[b] == before[b - 1]);
                } else {
                    assert(out@[a] == before[a - 1] && out@[b] == before[b - 1]);
                }
            }
        }
        i = i + 1;
    }
    assert(rows@.subrange(0, rows@.len() as int) =~= rows@);
    out
}

/// The filtered prefix grows by the next element exactly when it passes.
pub proof fn lemma_filter_step<A>(s: Seq<A>, f: spec_fn(A) -> bool, i: int)
    requires
        0 <= i < s.len(),
    ensures
        s.subrange(0, i + 1).filter(f) == if f(s[i]) {
            s.subrange(0, i).filter(f).push(s[i])
        } else {
            s.subrange(0, i).filter(f)
        },
{
    reveal(Seq::filter);
    assert(s.subrange(0, i + 1).drop_last() =~= s.subrange(0, i));
}

/// What filtering keeps: only records that pass, and every record that passes.
pub proof fn lemma_filter_members<A>(s: Seq<A>, f: spec_fn(A) -> bool)
    ensures
        forall|i: int|
            0 <= i < s.filter(f).len() ==> #[trigger] s.contains(s.filter(f)[i]) && f(
                s.filter(f)[i],
            ),
        forall|i: int| 0 <= i < s.len() && f(s[i]) ==> #[trigger] s.filter(f).contains(s[i]),
{
    broadcast use vstd::seq_lib::group_filter_ensures;

    assert forall|i: int| 0 <= i < s.filter(f).len() implies #[trigger] s.contains(s.filter(f)[i])
        && f(s.filter(f)[i]) by {
        assert(s.filter(f).contains(s.filter(f)[i]));
        s.lemma_filter_contains_rev(f, s.filter(f)[i]);
    }
}

/// Filtering keeps keys unique and in range.
pub proof fn lemma_filter_keys<R: Keyed>(s: Seq<R>, f: spec_fn(R) -> bool, next: i32)
    requires
        unique_keys(s),
        keys_below(s, next),
    ensures
        unique_keys(s.filter(f)),
        keys_below(s.filter(f), next),
    decreases s.len(),
{
    reveal(Seq::filter);
    lemma_filter_members(s, f);
    if s.len() > 0 {
        let rest = s.drop_last();
        assert(unique_keys(rest));
        assert(keys_below(rest, next));
        lemma_filter_keys(rest, f, next);
        lemma_filter_members(rest, f);
        let out = s.filter(f);
        let sub = rest.filter(f);
        if f(s.last()) {
            assert(out == sub.push(s.last()));
            assert forall|i: int, j: int|
                0 <= i < out.len() && 0 <= j < out.len() && i != j implies #[trigger] out[i].key()
                != #[trigger] out[j].key() by {
                if i < sub.len() && j < sub.len() {
                    assert(out[i] == sub[i] && out[j] == sub[j]);
                } else if i < sub.len() {
                    assert(rest.contains(sub[i]));
                    let k = choose|k: int| 0 <= k < rest.len() && rest[k] == sub[i];
                    assert(s[k] == rest[k]);
                    assert(s[s.len() - 1] == out[j]);
                } else if j < sub.len() {
                    assert(rest.contains(sub[j]));
                    let k = choose|k: int| 0 <= k < rest.len() && rest[k] == sub[j];
                    assert(s[k] == rest[k]);
                    assert(s[s.len() - 1] == out[i]);
                }
            }
        } else {
            assert(out == sub);
        }
        assert forall|i: int| 0 <= i < out.len() implies 0 < #[trigger] out[i].key() < next by {
            assert(s.contains(out[i]));
        }
    }
}

/// A record that passes the filter and whose key is `k` makes `k` a key of
/// the filtered table.
pub proof fn lemma_filter_has_key<R: Keyed>(s: Seq<R>, f: spec_fn(R) -> bool, i: int)
    requires
        0 <= i < s.len(),
        f(s[i]),
    ensures
        has_key(s.filter(f), s[i].key()),
{
    lemma_filter_members(s, f);
    assert(s.filter(f).contains(s[i]));
    let j = choose|j: int| 0 <= j < s.filter(f).len() && s.filter(f)[j] == s[i];
    assert(s.filter(f)[j].key() == s[i].key());
}

/// Two filters that agree on every element keep the same elements.
pub proof fn lemma_filter_congruent<A>(s: Seq<A>, f: spec_fn(A) -> bool, g: spec_fn(A) -> bool)
    requires
        forall|i: int| 0 <= i < s.len() ==> f(#[trigger] s[i]) == g(s[i]),
    ensures
        s.filter(f) == s.filter(g),
    decreases s.len(),
{
    reveal(Seq::filter);
    if s.len() > 0 {
        let rest = s.drop_last();
        assert forall|i: int| 0 <= i < rest.len() implies f(#[trigger] rest[i]) == g(rest[i]) by {
            assert(rest[i] == s[i]);
        }
        lemma_filter_congruent(rest, f, g);
    }
}

/// A table after appending a record under a fresh key.
pub proof fn lemma_push_keyed<R: Keyed>(s: Seq<R>, x: R, next: i32)
    requires
        unique_keys(s),
        keys_below(s, next),
        x.key() == next,
        0 < next < i32::MAX,
    ensures
        unique_keys(s.push(x)),
        keys_below(s.push(x), (next + 1) as i32),
        has_key(s.push(x), x.key()),
        forall|k: i32| has_key(s, k) ==> has_key(s.push(x), k),
        forall|k: i32| has_key(s.push(x), k) ==> has_key(s, k) || k == x.key(),
{
    let t = s.push(x);
    assert(t[s.len() as int] == x);
    assert forall|i: int| 0 <= i < s.len() implies #[trigger] t[i] == s[i] by {}
    assert forall|k: i32| has_key(s, k) implies has_key(t, k) by {
        let i = choose|i: int| 0 <= i < s.len() && #[trigger] s[i].key() == k;
        assert(t[i].key() == k);
    }
    assert forall|k: i32| has_key(t, k) implies has_key(s, k) || k == x.key() by {
        let i = choose|i: int| 0 <= i < t.len() && #[trigger] t[i].key() == k;
        if i < s.len() {
            assert(s[i].key() == k);
        }
    }
}

/// A table after replacing a record by one with the same key.
pub proof fn lemma_update_keyed<R: Keyed>(s: Seq<R>, i: int, x: R, next: i32)
    requires
        unique_keys(s),
        keys_below(s, next),
        0 <= i < s.len(),
        x.key() == s[i].key(),
    ensures
        unique_keys(s.update(i, x)),
        keys_below(s.update(i, x), next),
        forall|k: i32| has_key(s.update(i, x), k) == has_key(s, k),
{
    let t = s.update(i, x);
    assert forall|a: int, b: int| 0 <= a < t.len() && 0 <= b < t.len() && a != b implies #[trigger] t[a].key()
        != #[trigger] t[b].key() by {
        assert(s[a].key() != s[b].key());
    }
    assert forall|k: i32| has_key(t, k) == has_key(s, k) by {
        if has_key(s, k) {
            let j = choose|j: int| 0 <= j < s.len() && #[trigger] s[j].key() == k;
            assert(t[j].key() == k);
        }
        if has_key(t, k) {
            let j = choose|j: int| 0 <= j < t.len() && #[trigger] t[j].key() == k;
            assert(s[j].key() == k);
        }
    }
}

/// A table after removing one record.
pub proof fn lemma_remove_keyed<R: Keyed>(s: Seq<R>, i: int, next: i32)
    requires
        unique_keys(s),
        keys_below(s, next),
        0 <= i < s.len(),
    ensures
        unique_keys(s.remove(i)),
        keys_below(s.remove(i), next),
        forall|k: i32| has_key(s.remove(i), k) == (has_key(s, k) && k != s[i].key()),
{
    let t = s.remove(i);
    assert forall|a: int| 0 <= a < t.len() implies #[trigger] t[a] == if a < i {
        s[a]
    } else {
        s[a + 1]
    } by {}
    assert forall|a: int, b: int| 0 <= a < t.len() && 0 <= b < t.len() && a != b implies #[trigger] t[a].key()
        != #[trigger] t[b].key() by {
        let sa = if a < i { a } else { a + 1 };
        let sb = if b < i { b } else { b + 1 };
        assert(s[sa].key() != s[sb].key());
    }
    assert forall|k: i32| has_key(t, k) == (has_key(s, k) && k != s[i].key()) by {
        if has_key(s, k) && k != s[i].key() {
            let j = choose|j: int| 0 <= j < s.len() && #[trigger] s[j].key() == k;
            if j < i {
                assert(t[j].key() == k);
            } else {
                assert(t[j - 1].key() == k);
            }
        }
        if has_key(t, k) {
            let j = choose|j: int| 0 <= j < t.len() && #[trigger] t[j].key() == k;
            let sj = if j < i { j } else { j + 1 };
            assert(s[sj].key() == k);
        }
    }
}

/// The index of the record with key `k`, if any.
pub fn index_of<R: Keyed>(rows: &Vec<R>, k: i32) -> (r: Option<usize>)
    ensures
        match r {
            Some(i) => i < rows@.len() && rows@[i as int].key() == k,
            None => !has_key(rows@, k),
        },
{
    let mut i: usize = 0;
    while i < rows.len()
        invariant
            i <= rows@.len(),
            forall|j: int| 0 <= j < i ==> #[trigger] rows@[j].key() != k,
        decreases rows@.len() - i,
    {
        if rows[i].row_id() == k {
            return Some(i);
        }
        i = i + 1;
    }
    None
}

/// The record with key `k`, if any.
pub fn find_by_key<R: Keyed>(rows: &Vec<R>, k: i32) -> (r: Option<R>)
    ensures
        match r {
            Some(x) => x.key() == k && rows@.contains(x),
            None => !has_key(rows@, k),
        },
{
    match index_of(rows, k) {
        Some(i) => {
            let x = rows[i].dup();
            assert(rows@[i as int] == x);
            Some(x)
        },
        None => None,
    }
}

/// The records of `rows` that belong to `owner`, in table order.
pub fn owned_by<R: Owned>(rows: &Vec<R>, owner: i32) -> (r: Vec<R>)
    ensures
        r@ == rows@.filter(|x: R| x.owner() == owner),
{
    let ghost f = |x: R| x.owner() == owner;
    let mut out: Vec<R> = Vec::new();
    let mut i: usize = 0;
    while i < rows.len()
        invariant
            i <= rows@.len(),
            f == (|x: R| x.owner() == owner),
            out@ == rows@.subrange(0, i as int).filter(f),
        decreases rows@.len() - i,
    {
        proof {
            lemma_filter_step(rows@, f, i as int);
        }
        if rows[i].owner_id() == owner {
            out.push(rows[i].dup());
        }
        i = i + 1;
    }
    assert(rows@.subrange(0, rows@.len() as int) =~= rows@);
    out
}

/// The records of `rows` that refer to currency `name`, in table order.
pub fn of_currency<R: ForCurrency>(rows: &Vec<R>, name: &str) -> (r: Vec<R>)
    ensures
        r@ == rows@.filter(|x: R| x.currency_name() == name@),
{
    let ghost f = |x: R| x.currency_name() == name@;
    let mut out: Vec<R> = Vec::new();
    let mut i: usize = 0;
    while i < rows.len()
        invariant
            i <= rows@.len(),
            f == (|x: R| x.currency_name() == name@),
            out@ == rows@.subrange(0, i as int).filter(f),
        decreases rows@.len() - i,
    {
        proof {
            lemma_filter_step(rows@, f, i as int);
        }
        if same_text(rows[i].currency_str(), name) {
            out.push(rows[i].dup());
        }
        i = i + 1;
    }
    assert(rows@.subrange(0, rows@.len() as int) =~= rows@);
    out
}

/// The records of `rows` that do not refer to currency `name`, in table order.
pub fn not_of_currency<R: ForCurrency>(rows: &Vec<R>, name: &str) -> (r: Vec<R>)
    ensures
        r@ == rows@.filter(|x: R| x.currency_name() != name@),
{
    let ghost f = |x: R| x.currency_name() != name@;
    let mut out: Vec<R> = Vec::new();
    let mut i: usize = 0;
    while i < rows.len()
        invariant
            i <= rows@.len(),
            f == (|x: R| x.currency_name() != name@),
            out@ == rows@.subrange(0, i as int).filter(f),
        decreases rows@.len() - i,
    {
        proof {
            lemma_filter_step(rows@, f, i as int);
        }
        if !same_text(rows[i].currency_str(), name) {
            out.push(rows[i].dup());
        }
        i = i + 1;
    }
    assert(rows@.subrange(0, rows@.len() as int) =~= rows@);
    out
}

/// Copies of all records of `rows`, in table order.
pub fn copy_all<R: Keyed>(rows: &Vec<R>) -> (r: Vec<R>)
    ensures
        r@ == rows@,
{
    let mut out: Vec<R> = Vec::new();
    let mut i: usize = 0;
    while i < rows.len()
        invariant
            i <= rows@.len(),
            out@ == rows@.subrange(0, i as int),
        decreases rows@.len() - i,
    {
        out.push(rows[i].dup());
        i = i + 1;
        assert(out@ =~= rows@.subrange(0, i as int));
    }
    assert(rows@.subrange(0, rows@.len() as int) =~= rows@);
    out
}

/// `rows` in reverse order.
pub fn reversed<R: Keyed>(rows: Vec<R>) -> (r: Vec<R>)
    ensures
        r@ == rows@.reverse(),
{
    let mut out: Vec<R> = Vec::new();
    let mut i: usize = rows.len();
    while i > 0
        invariant
            i <= rows@.len(),
            out@ == rows@.subrange(i as int, rows@.len() as int).reverse(),
        decreases i,
    {
        i = i - 1;
        out.push(rows[i].dup());
        assert(out@ =~= rows@.subrange(i as int, rows@.len() as int).reverse());
    }
    assert(rows@.subrange(0, rows@.len() as int) =~= rows@);
    out
}

/// Whether `r` is the provider chosen from `ranks` among `available`: none
/// when no available provider is ranked; else the provider of the first rank
/// with the lowest priority among those of available providers.
pub open spec fn provider_choice<R: ProviderRank>(
    ranks: Seq<R>,
    available: Seq<DataProvider>,
    r: Option<DataProvider>,
) -> bool {
    match r {
        None => forall|i: int| 0 <= i < ranks.len() ==> !available.contains(#[trigger] ranks[i].provider_of()),
        Some(p) => exists|i: int|
            0 <= i < ranks.len() && #[trigger] ranks[i].provider_of() == p && available.contains(p)
                && (forall|j: int|
                0 <= j < ranks.len() && available.contains(#[trigger] ranks[j].provider_of())
                    ==> ranks[i].rank() <= ranks[j].rank()) && (forall|j: int|
                0 <= j < i && available.contains(#[trigger] ranks[j].provider_of()) ==> ranks[i].rank()
                    < ranks[j].rank()),
    }
}

/// Among the records of `rows` whose provider is available, the provider
/// of the first one with the lowest rank; none when no available provider
/// is ranked.
pub fn select_provider<R: ProviderRank>(rows: &Vec<R>, available: &Vec<DataProvider>) -> (r: Option<
    DataProvider,
>)
    ensures
        provider_choice(rows@, available@, r),
{
    let mut best: Option<usize> = None;
    let mut i: usize = 0;
    while i < rows.len()
        invariant
            i <= rows@.len(),
            match best {
                None => forall|j: int|
                    0 <= j < i ==> !available@.contains(#[trigger] rows@[j].provider_of()),
                Some(b) => b < i && available@.contains(rows@[b as int].provider_of()) && (forall|j: int|
                    0 <= j < i && available@.contains(#[trigger] rows@[j].provider_of())
                        ==> rows@[b as int].rank() <= rows@[j].rank()) && (forall|j: int|
                    0 <= j < b && available@.contains(#[trigger] rows@[j].provider_of())
                        ==> rows@[b as int].rank() < rows@[j].rank()),
            },
        decreases rows@.len() - i,
    {
        if contains_provider(available, rows[i].provider()) {
            match best {
                None => {
                    best = Some(i);
                },
                Some(b) => {
                    if rows[i].rank_of() < rows[b].rank_of() {
                        best = Some(i);
                    }
                },
            }
        }
        i = i + 1;
    }
    match best {
        None => None,
        Some(b) => Some(rows[b].provider()),
    }
}

/// Whether `p` is among `providers`.
pub fn contains_provider(providers: &Vec<DataProvider>, p: DataProvider) -> (r: bool)
    ensures
        r == providers@.contains(p),
{
    let mut i: usize = 0;
    while i < providers.len()
        invariant
            i <= providers@.len(),
            forall|j: int| 0 <= j < i ==> providers@[j] != p,
        decreases providers@.len() - i,
    {
        if providers[i] == p {
            return true;
        }
        i = i + 1;
    }
    false
}

/// Whether `k` is among `keys`.
pub fn contains_key(keys: &Vec<i32>, k: i32) -> (r: bool)
    ensures
        r == keys@.contains(k),
{
    let mut i: usize = 0;
    while i < keys.len()
        invariant
            i <= keys@.len(),
            forall|j: int| 0 <= j < i ==> keys@[j] != k,
        decreases keys@.len() - i,
    {
        if keys[i] == k {
            return true;
        }
        i = i + 1;
    }
    false
}

/// `rows` without the records whose owner is among `doomed`, in table order.
pub fn without_owners<R: Owned>(rows: &Vec<R>, doomed: &Vec<i32>) -> (r: Vec<R>)
    ensures
        r@ == rows@.filter(|x: R| !doomed@.contains(x.owner())),
{
    let ghost f = |x: R| !doomed@.contains(x.owner());
    let mut out: Vec<R> = Vec::new();
    let mut i: usize = 0;
    while i < rows.len()
        invariant
            i <= rows@.len(),
            f == (|x: R| !doomed@.contains(x.owner())),
            out@ == rows@.subrange(0, i as int).filter(f),
        decreases rows@.len() - i,
    {
        proof {
            lemma_filter_step(rows@, f, i as int);
        }
        if !contains_key(doomed, rows[i].owner_id()) {
            out.push(rows[i].dup());
        }
        i = i + 1;
    }
    assert(rows@.subrange(0, rows@.len() as int) =~= rows@);
    out
}

/// `rows` without the records whose key is among `keys`, in table order.
pub fn without_keys<R: Keyed>(rows: &Vec<R>, keys: &Vec<i32>) -> (r: Vec<R>)
    ensures
        r@ == rows@.filter(|x: R| !keys@.contains(x.key())),
{
    let ghost f = |x: R| !keys@.contains(x.key());
    let mut out: Vec<R> = Vec::new();
    let mut i: usize = 0;
    while i < rows.len()
        invariant
            i <= rows@.len(),
            f == (|x: R| !keys@.contains(x.key())),
            out@ == rows@.subrange(0, i as int).filter(f),
        decreases rows@.len() - i,
    {
        proof {
            lemma_filter_step(rows@, f, i as int);
        }
        if !contains_key(keys, rows[i].row_id()) {
            out.push(rows[i].dup());
        }
        i = i + 1;
    }
    assert(rows@.subrange(0, rows@.len() as int) =~= rows@);
    out
}

/// The keys of the records of `rows` whose owner is among `owners`.
pub fn keys_owned_by_any<R: Owned>(rows: &Vec<R>, owners: &Vec<i32>) -> (r: Vec<i32>)
    ensures
        forall|k: i32|
            r@.contains(k) <==> exists|q: int|
                0 <= q < rows@.len() && #[trigger] rows@[q].key() == k && owners@.contains(
                    rows@[q].owner(),
                ),
{
    let mut out: Vec<i32> = Vec::new();
    let mut i: usize = 0;
    while i < rows.len()
        invariant
            i <= rows@.len(),
            forall|k: i32|
                out@.contains(k) <==> exists|q: int|
                    0 <= q < i && #[trigger] rows@[q].key() == k && owners@.contains(
                        rows@[q].owner(),
                    ),
        decreases rows@.len() - i,
    {
        if contains_key(owners, rows[i].owner_id()) {
            let ghost before = out@;
            out.push(rows[i].row_id());
            assert forall|k: i32|
                out@.contains(k) <==> exists|q: int|
                    0 <= q < i + 1 && #[trigger] rows@[q].key() == k && owners@.contains(
                        rows@[q].owner(),
                    ) by {
                if out@.contains(k) && k != rows@[i as int].key() {
                    let t = choose|t: int| 0 <= t < out@.len() && out@[t] == k;
                    assert(before[t] == k);
                    assert(before.contains(k));
                }
                if before.contains(k) {
                    let t = choose|t: int| 0 <= t < before.len() && before[t] == k;
                    assert(out@[t] == k);
                }
                assert(out@[before.len() as int] == rows@[i as int].key());
            }
        }
        i = i + 1;
    }
    out
}

/// `rows` ordered by rank, lowest first; records of equal rank keep their
/// order.
pub fn sort_by_rank<R: Ranked>(rows: Vec<R>) -> (r: Vec<R>)
    ensures
        sorted_by_rank(r@),
        r@.to_multiset() == rows@.to_multiset(),
{
    broadcast use vstd::seq_lib::group_to_multiset_ensures;

    let mut out: Vec<R> = Vec::new();
    let mut i: usize = 0;
    while i < rows.len()
        invariant
            i <= rows@.len(),
            sorted_by_rank(out@),
            out@.to_multiset() == rows@.subrange(0, i as int).to_multiset(),
        decreases rows@.len() - i,
    {
        let x = rows[i].dup();
        let key = x.rank_of();
        let mut k: usize = 0;
        while k < out.len() && out[k].rank_of() <= key
            invariant
                k <= out@.len(),
                forall|j: int| 0 <= j < k ==> #[trigger] out@[j].rank() <= key,
            decreases out@.len() - k,
        {
            k = k + 1;
        }
        let ghost before = out@;
        out.insert(k, x);
        proof {
            vstd::seq_lib::to_multiset_insert(before, k as int, x);
            assert(rows@.subrange(0, i + 1) =~= rows@.subrange(0, i as int).push(rows@[i as int]));
            vstd::seq_lib::to_multiset_build(rows@.subrange(0, i as int), rows@[i as int]);
            assert(out@ == before.insert(k as int, x));
        }
        assert forall|a: int, b: int| 0 <= a < b < out@.len() implies #[trigger] out@[a].rank()
            <= #[trigger] out@[b].rank() by {
            if b < k {
                assert(out@[a] == before[a] && out@[b] == before[b]);
            } else if b == k {
                assert(out@[a] == before[a]);
            } else if a == k {
                assert(out@[b] == before[b - 1]);
                if k < before.len() {
                    assert(before[k as int].rank() > key);
                    assert(before[k as int].rank() <= before[b - 1].rank());
                }
            } else if a < k {
                assert(out@[a] == before[a] && out@[b] == before[b - 1]);
            } else {
                assert(out@[a] == before[a - 1] && out@[b] == before[b - 1]);
            }
        }
        i = i + 1;
    }
    assert(rows@.subrange(0, rows@.len() as int) =~= rows@);
    out
}

} // verus!
