//! The repository: the schema's tables held in memory, with the rules the
//! relational store enforces. Keys are assigned from one sequence per table,
//! every reference names an existing record, deletes cascade along
//! references, and a composite write commits all of its records or none.

use vstd::prelude::*;
use crate::text::same_text;
use crate::model::{
    fits_column, Amount, AssetScope, DataProvider, NewBalance, NewBalanceEntry, NewBalancePriority,
    NewCurrency, NewCurrencyMap, NewPrice, NewPricePriority, NewWallet, NewWalletMetadata,
};
use crate::rows::{
    of_currency, not_of_currency, copy_all, reversed, sort_by_currency, sorted_by_currency, select_provider, provider_choice, ForCurrency, ProviderRank, Ranked,
    sort_by_rank, sorted_by_rank,
    find_by_key, has_key, index_of, keys_below, lemma_filter_has_key, lemma_filter_keys,
    lemma_filter_members, lemma_filter_congruent, lemma_push_keyed, lemma_update_keyed,
    lemma_remove_keyed, contains_key, owned_by, without_keys, keys_owned_by_any, unique_keys, without_owners, Balance, BalanceEntry,
    BalancePriority, Currency, CurrencyMap, Keyed, Owned, Price, PriceProvider, Wallet,
    WalletMetadata,
};

verus! {

broadcast use vstd::seq_lib::group_filter_ensures;

/// Why a write was refused.
#[derive(Debug, Clone, Copy, PartialEq, Eq, Structural)]
pub enum DbError {
    /// No record has the given key.
    RecordNotFound,
    /// A reference names a record that does not exist.
    ForeignKeyViolation,
    /// A unique key is already taken.
    UniqueViolation,
    /// An amount does not fit its decimal column.
    NumericOverflow,
    /// The new parent of a wallet is the wallet itself or one of its descendants.
    CycleDetected,
    /// A table's key sequence is used up.
    IdsExhausted,
}

/// The tables of the store.
pub struct QueryService {
    wallets: Vec<Wallet>,
    metadata: Vec<WalletMetadata>,
    balances: Vec<Balance>,
    entries: Vec<BalanceEntry>,
    balance_priorities: Vec<BalancePriority>,
    currencies: Vec<Currency>,
    currency_maps: Vec<CurrencyMap>,
    prices: Vec<Price>,
    price_providers: Vec<PriceProvider>,
    next_wallet_id: i32,
    next_metadata_id: i32,
    next_balance_id: i32,
    next_entry_id: i32,
    next_balance_priority_id: i32,
    next_currency_map_id: i32,
    next_price_id: i32,
    next_price_provider_id: i32,
}

/// The contents of the store: each table in order of insertion, and the next
/// key of each sequence.
pub struct StoreView {
    pub wallets: Seq<Wallet>,
    pub metadata: Seq<WalletMetadata>,
    pub balances: Seq<Balance>,
    pub entries: Seq<BalanceEntry>,
    pub balance_priorities: Seq<BalancePriority>,
    pub currencies: Seq<Currency>,
    pub currency_maps: Seq<CurrencyMap>,
    pub prices: Seq<Price>,
    pub price_providers: Seq<PriceProvider>,
    pub next_wallet_id: i32,
    pub next_metadata_id: i32,
    pub next_balance_id: i32,
    pub next_entry_id: i32,
    pub next_balance_priority_id: i32,
    pub next_currency_map_id: i32,
    pub next_price_id: i32,
    pub next_price_provider_id: i32,
}

impl View for QueryService {
    type V = StoreView;

    closed spec fn view(&self) -> StoreView {
        StoreView {
            wallets: self.wallets@,
            metadata: self.metadata@,
            balances: self.balances@,
            entries: self.entries@,
            balance_priorities: self.balance_priorities@,
            currencies: self.currencies@,
            currency_maps: self.currency_maps@,
            prices: self.prices@,
            price_providers: self.price_providers@,
            next_wallet_id: self.next_wallet_id,
            next_metadata_id: self.next_metadata_id,
            next_balance_id: self.next_balance_id,
            next_entry_id: self.next_entry_id,
            next_balance_priority_id: self.next_balance_priority_id,
            next_currency_map_id: self.next_currency_map_id,
            next_price_id: self.next_price_id,
            next_price_provider_id: self.next_price_provider_id,
        }
    }
}

/// Keys of `rows` are unique, positive and below `next`.
pub open spec fn keyed_table<R: Keyed>(rows: Seq<R>, next: i32) -> bool {
    &&& next >= 1
    &&& unique_keys(rows)
    &&& keys_below(rows, next)
}

/// Every record of `rows` belongs to a record of `parents`.
pub open spec fn owners_present<R: Owned, P: Keyed>(rows: Seq<R>, parents: Seq<P>) -> bool {
    forall|i: int| 0 <= i < rows.len() ==> has_key(parents, #[trigger] rows[i].owner())
}

/// Whether a currency named `name` is in `currencies`.
pub open spec fn has_currency(currencies: Seq<Currency>, name: Seq<char>) -> bool {
    exists|i: int| 0 <= i < currencies.len() && #[trigger] currencies[i].name@ == name
}

/// Currency names are unique.
pub open spec fn unique_names(currencies: Seq<Currency>) -> bool {
    forall|i: int, j: int|
        0 <= i < currencies.len() && 0 <= j < currencies.len() && i != j
            ==> #[trigger] currencies[i].name@ != #[trigger] currencies[j].name@
}

/// No two mappings share a scope and a raw symbol.
pub open spec fn unique_mappings(maps: Seq<CurrencyMap>) -> bool {
    forall|i: int, j: int|
        0 <= i < maps.len() && 0 <= j < maps.len() && i != j ==> !(#[trigger] maps[i].scope
            == #[trigger] maps[j].scope && maps[i].raw_currency@ == maps[j].raw_currency@)
}

/// Every wallet's parent, if it has one, is a wallet.
pub open spec fn parents_present(wallets: Seq<Wallet>) -> bool {
    forall|i: int|
        0 <= i < wallets.len() ==> (#[trigger] wallets[i].parent_id matches Some(p) ==> has_key(
            wallets,
            p,
        ))
}

/// The store's rules: keys, references, a wallet hierarchy without cycles,
/// unique names and mappings, amounts that fit their columns.
pub open spec fn wf(v: StoreView) -> bool {
    &&& keyed_table(v.wallets, v.next_wallet_id)
    &&& keyed_table(v.metadata, v.next_metadata_id)
    &&& keyed_table(v.balances, v.next_balance_id)
    &&& keyed_table(v.entries, v.next_entry_id)
    &&& keyed_table(v.balance_priorities, v.next_balance_priority_id)
    &&& keyed_table(v.currency_maps, v.next_currency_map_id)
    &&& keyed_table(v.prices, v.next_price_id)
    &&& keyed_table(v.price_providers, v.next_price_provider_id)
    &&& parents_present(v.wallets)
    &&& acyclic(v.wallets)
    &&& owners_present(v.metadata, v.wallets)
    &&& owners_present(v.balances, v.wallets)
    &&& owners_present(v.entries, v.balances)
    &&& owners_present(v.balance_priorities, v.wallets)
    &&& unique_names(v.currencies)
    &&& forall|i: int|
        0 <= i < v.currency_maps.len() ==> has_currency(
            v.currencies,
            #[trigger] v.currency_maps[i].currency@,
        )
    &&& forall|i: int|
        0 <= i < v.price_providers.len() ==> has_currency(
            v.currencies,
            #[trigger] v.price_providers[i].currency@,
        )
    &&& unique_mappings(v.currency_maps)
    &&& forall|i: int| 0 <= i < v.entries.len() ==> fits_column(#[trigger] v.entries[i].amount)
    &&& forall|i: int|
        0 <= i < v.prices.len() ==> fits_column(#[trigger] v.prices[i].value) && fits_column(
            v.prices[i].liquidity,
        )
}

/// The parent of the wallet with key `k`, if that wallet exists and has one.
pub open spec fn parent_in(wallets: Seq<Wallet>, k: i32) -> Option<i32> {
    if has_key(wallets, k) {
        wallets[choose|i: int| 0 <= i < wallets.len() && #[trigger] wallets[i].key() == k].parent_id
    } else {
        None
    }
}

/// Whether following parents from `from`, at most `fuel` times, meets `target`.
pub open spec fn reaches(wallets: Seq<Wallet>, from: i32, target: i32, fuel: nat) -> bool
    decreases fuel,
{
    if from == target {
        true
    } else if fuel == 0 {
        false
    } else {
        match parent_in(wallets, from) {
            Some(p) => reaches(wallets, p, target, (fuel - 1) as nat),
            None => false,
        }
    }
}

/// Whether `x` is `a` or one of its descendants: following parents from `x`
/// meets `a`.
pub open spec fn descends_from(wallets: Seq<Wallet>, x: i32, a: i32) -> bool {
    exists|k: nat| #[trigger] reaches(wallets, x, a, k)
}

/// Whether `w`'s parent, if it has one, is ranked below it by `depth`.
pub open spec fn parent_ranked_below(w: Wallet, depth: Map<i32, nat>) -> bool {
    match w.parent_id {
        Some(p) => depth.dom().contains(p) && depth[p] < depth[w.id],
        None => true,
    }
}

/// `depth` ranks every wallet strictly above its parent.
pub open spec fn ranked(wallets: Seq<Wallet>, depth: Map<i32, nat>) -> bool {
    forall|i: int|
        0 <= i < wallets.len() ==> depth.dom().contains(#[trigger] wallets[i].id) && parent_ranked_below(
            wallets[i],
            depth,
        )
}

/// The parent relation has no cycle: some ranking puts every wallet above
/// its parent.
pub open spec fn acyclic(wallets: Seq<Wallet>) -> bool {
    exists|depth: Map<i32, nat>| #[trigger] ranked(wallets, depth)
}

/// Whether `w` has a parent and it is among `keys`.
pub open spec fn parent_among(w: Wallet, keys: Seq<i32>) -> bool {
    match w.parent_id {
        Some(p) => keys.contains(p),
        None => false,
    }
}

/// Whether `parent` names a wallet that is not in `wallets`.
pub open spec fn dangling(wallets: Seq<Wallet>, parent: Option<i32>) -> bool {
    match parent {
        Some(p) => !has_key(wallets, p),
        None => false,
    }
}

/// Whether making `parent` the parent of wallet `id` closes a loop: the
/// parent is `id` itself or one of its descendants.
pub open spec fn creates_cycle(wallets: Seq<Wallet>, id: i32, parent: Option<i32>) -> bool {
    match parent {
        Some(p) => descends_from(wallets, p, id),
        None => false,
    }
}

/// The wallets removed by deleting wallet `id`: `id` and, through their
/// parents, its descendants. `removed` names them.
pub open spec fn wallet_cascade(old: StoreView, id: i32, removed: Seq<i32>, new: StoreView) -> bool {
    &&& removed.contains(id)
    &&& forall|k: i32|
        #[trigger] removed.contains(k) ==> k == id || exists|i: int|
            0 <= i < old.wallets.len() && #[trigger] old.wallets[i].id == k && parent_among(
                old.wallets[i],
                removed,
            )
    &&& new.wallets == old.wallets.filter(|w: Wallet| !removed.contains(w.id))
    &&& new.metadata == old.metadata.filter(|m: WalletMetadata| !removed.contains(m.wallet_id))
    &&& new.balances == old.balances.filter(|b: Balance| !removed.contains(b.wallet_id))
    &&& new.balance_priorities == old.balance_priorities.filter(
        |p: BalancePriority| !removed.contains(p.wallet_id),
    )
    &&& new.entries == old.entries.filter(
        |e: BalanceEntry| has_key(new.balances, e.balance_id),
    )
    &&& new.currencies == old.currencies
    &&& new.currency_maps == old.currency_maps
    &&& new.prices == old.prices
    &&& new.price_providers == old.price_providers
    &&& new.next_wallet_id == old.next_wallet_id
    &&& new.next_metadata_id == old.next_metadata_id
    &&& new.next_balance_id == old.next_balance_id
    &&& new.next_entry_id == old.next_entry_id
    &&& new.next_balance_priority_id == old.next_balance_priority_id
    &&& new.next_currency_map_id == old.next_currency_map_id
    &&& new.next_price_id == old.next_price_id
    &&& new.next_price_provider_id == old.next_price_provider_id
}

/// Deleting a wallet leaves none of its metadata, balances, provider ranks
/// or balance entries behind.
pub proof fn lemma_wallet_delete_leaves_nothing(
    old: StoreView,
    id: i32,
    removed: Seq<i32>,
    new: StoreView,
)
    requires
        wf(old),
        wf(new),
        wallet_cascade(old, id, removed, new),
    ensures
        !has_key(new.wallets, id),
        forall|i: int| 0 <= i < new.metadata.len() ==> #[trigger] new.metadata[i].wallet_id != id,
        forall|i: int| 0 <= i < new.balances.len() ==> #[trigger] new.balances[i].wallet_id != id,
        forall|i: int|
            0 <= i < new.balance_priorities.len() ==> #[trigger] new.balance_priorities[i].wallet_id
                != id,
        forall|i: int, j: int|
            0 <= i < new.entries.len() && 0 <= j < old.balances.len() && #[trigger] old.balances[j].id
                == #[trigger] new.entries[i].balance_id ==> old.balances[j].wallet_id != id,
{
    let fw = |w: Wallet| !removed.contains(w.id);
    let fm = |m: WalletMetadata| !removed.contains(m.wallet_id);
    let fb = |b: Balance| !removed.contains(b.wallet_id);
    let fp = |p: BalancePriority| !removed.contains(p.wallet_id);
    lemma_filter_members(old.wallets, fw);
    lemma_filter_members(old.metadata, fm);
    lemma_filter_members(old.balances, fb);
    lemma_filter_members(old.balance_priorities, fp);
    if has_key(new.wallets, id) {
        let i = choose|i: int| 0 <= i < new.wallets.len() && #[trigger] new.wallets[i].key() == id;
        assert(fw(new.wallets[i]));
    }
    assert forall|i: int| 0 <= i < new.metadata.len() implies #[trigger] new.metadata[i].wallet_id != id by {
        assert(fm(new.metadata[i]));
    }
    assert forall|i: int| 0 <= i < new.balances.len() implies #[trigger] new.balances[i].wallet_id != id by {
        assert(fb(new.balances[i]));
    }
    assert forall|i: int| 0 <= i < new.balance_priorities.len() implies #[trigger] new.balance_priorities[i].wallet_id
        != id by {
        assert(fp(new.balance_priorities[i]));
    }
    assert forall|i: int, j: int|
        0 <= i < new.entries.len() && 0 <= j < old.balances.len() && #[trigger] old.balances[j].id
            == #[trigger] new.entries[i].balance_id implies old.balances[j].wallet_id != id by {
        let bid = new.entries[i].balance_id;
        assert(has_key(new.balances, new.entries[i].owner()));
        let t = choose|t: int| 0 <= t < new.balances.len() && #[trigger] new.balances[t].key() == bid;
        assert(old.balances.contains(new.balances[t]));
        let q = choose|q: int| 0 <= q < old.balances.len() && old.balances[q] == new.balances[t];
        assert(old.balances[q].key() == old.balances[j].key());
        assert(q == j);
        assert(fb(new.balances[t]));
    }
}

/// Appending a record whose owner exists keeps every record owned.
pub proof fn lemma_owners_push<R: Owned, P: Keyed>(rows: Seq<R>, x: R, parents: Seq<P>)
    requires
        owners_present(rows, parents),
        has_key(parents, x.owner()),
    ensures
        owners_present(rows.push(x), parents),
{
    assert forall|i: int| 0 <= i < rows.push(x).len() implies has_key(
        parents,
        #[trigger] rows.push(x)[i].owner(),
    ) by {
        if i < rows.len() {
            assert(rows.push(x)[i] == rows[i]);
        }
    }
}

/// Replacing a record by one whose owner exists keeps every record owned.
pub proof fn lemma_owners_update<R: Owned, P: Keyed>(rows: Seq<R>, i: int, x: R, parents: Seq<P>)
    requires
        owners_present(rows, parents),
        0 <= i < rows.len(),
        has_key(parents, x.owner()),
    ensures
        owners_present(rows.update(i, x), parents),
{
    assert forall|j: int| 0 <= j < rows.update(i, x).len() implies has_key(
        parents,
        #[trigger] rows.update(i, x)[j].owner(),
    ) by {
        if j != i {
            assert(rows.update(i, x)[j] == rows[j]);
        }
    }
}

/// Removing a record keeps every other record owned.
pub proof fn lemma_owners_remove<R: Owned, P: Keyed>(rows: Seq<R>, i: int, parents: Seq<P>)
    requires
        owners_present(rows, parents),
        0 <= i < rows.len(),
    ensures
        owners_present(rows.remove(i), parents),
{
    assert forall|j: int| 0 <= j < rows.remove(i).len() implies has_key(
        parents,
        #[trigger] rows.remove(i)[j].owner(),
    ) by {
        let sj = if j < i { j } else { j + 1 };
        assert(rows.remove(i)[j] == rows[sj]);
    }
}

/// Records stay owned when every owner key remains.
pub proof fn lemma_owners_parents_grow<R: Owned, P: Keyed>(rows: Seq<R>, parents: Seq<P>, more: Seq<P>)
    requires
        owners_present(rows, parents),
        forall|k: i32| has_key(parents, k) ==> has_key(more, k),
    ensures
        owners_present(rows, more),
{
    assert forall|i: int| 0 <= i < rows.len() implies has_key(more, #[trigger] rows[i].owner()) by {
        assert(has_key(parents, rows[i].owner()));
    }
}

/// The records of the entries of balance `balance_id`, keyed from `first_id` on.
pub open spec fn entry_rows(entries: Seq<NewBalanceEntry>, balance_id: i32, first_id: int) -> Seq<
    BalanceEntry,
> {
    Seq::new(
        entries.len(),
        |i: int|
            BalanceEntry {
                id: (first_id + i) as i32,
                balance_id,
                raw_currency: entries[i].raw_currency,
                amount: entries[i].amount,
            },
    )
}

/// The error of the first entry, from the `i`-th on, that cannot be
/// inserted: its amount does not fit, or no key is left for it.
pub open spec fn entries_error_from(entries: Seq<NewBalanceEntry>, i: int, next_entry_id: int) -> Option<
    DbError,
>
    decreases entries.len() - i,
{
    if i < 0 || i >= entries.len() {
        None
    } else if !fits_column(entries[i].amount) {
        Some(DbError::NumericOverflow)
    } else if next_entry_id + i >= i32::MAX {
        Some(DbError::IdsExhausted)
    } else {
        entries_error_from(entries, i + 1, next_entry_id)
    }
}

/// Whether a mapping of `raw` in `scope` is in `maps`.
pub open spec fn has_mapping(maps: Seq<CurrencyMap>, scope: AssetScope, raw: Seq<char>) -> bool {
    exists|i: int| 0 <= i < maps.len() && #[trigger] maps[i].scope == scope && maps[i].raw_currency@ == raw
}

/// Whether a mapping other than the `skip`-th has `raw` in `scope`.
pub open spec fn has_other_mapping(maps: Seq<CurrencyMap>, skip: int, scope: AssetScope, raw: Seq<char>) -> bool {
    exists|i: int|
        0 <= i < maps.len() && i != skip && #[trigger] maps[i].scope == scope && maps[i].raw_currency@
            == raw
}

/// Why a raw symbol could not be reconciled.
#[derive(Debug, Clone, Copy, PartialEq, Eq, Structural)]
pub enum ReconcileError {
    /// No mapping names this raw symbol in this scope.
    Unmapped,
}

/// Deleting a currency leaves no mapping and no provider rank that refers
/// to it.
pub proof fn lemma_currency_delete_leaves_nothing(old: StoreView, name: Seq<char>, new: StoreView)
    requires
        new.currency_maps == old.currency_maps.filter(|m: CurrencyMap| m.currency@ != name),
        new.price_providers == old.price_providers.filter(|p: PriceProvider| p.currency@ != name),
    ensures
        forall|i: int| 0 <= i < new.currency_maps.len() ==> #[trigger] new.currency_maps[i].currency@ != name,
        forall|i: int|
            0 <= i < new.price_providers.len() ==> #[trigger] new.price_providers[i].currency@ != name,
{
    lemma_filter_members(old.currency_maps, |m: CurrencyMap| m.currency@ != name);
    lemma_filter_members(old.price_providers, |p: PriceProvider| p.currency@ != name);
}

/// Records of `rows` ordered by rank, highest first.
pub open spec fn sorted_by_rank_desc<R: Ranked>(rows: Seq<R>) -> bool {
    forall|i: int, j: int| 0 <= i < j < rows.len() ==> #[trigger] rows[i].rank() >= #[trigger] rows[j].rank()
}

proof fn lemma_push_keeps_acyclic(wallets: Seq<Wallet>, w: Wallet, next: i32)
    requires
        acyclic(wallets),
        parents_present(wallets),
        keys_below(wallets, next),
        w.id == next,
        !dangling(wallets, w.parent_id),
    ensures
        acyclic(wallets.push(w)),
{
    let d = choose|d: Map<i32, nat>| #[trigger] ranked(wallets, d);
    let base: nat = match w.parent_id {
        Some(p) => d[p] + 1,
        None => 0,
    };
    let d2 = d.insert(w.id, base);
    let t = wallets.push(w);
    assert forall|i: int| 0 <= i < t.len() implies d2.dom().contains(#[trigger] t[i].id)
        && parent_ranked_below(t[i], d2) by {
        if i < wallets.len() {
            assert(t[i] == wallets[i]);
            assert(wallets[i].key() < next);
            assert(d.dom().contains(wallets[i].id) && parent_ranked_below(wallets[i], d));
            if let Some(p) = wallets[i].parent_id {
                assert(has_key(wallets, p));
                let j = choose|j: int| 0 <= j < wallets.len() && #[trigger] wallets[j].key() == p;
                assert(wallets[j].key() < next);
            }
        } else {
            assert(t[i] == w);
            if let Some(p) = w.parent_id {
                let j = choose|j: int| 0 <= j < wallets.len() && #[trigger] wallets[j].key() == p;
                assert(d.dom().contains(wallets[j].id));
                assert(wallets[j].key() < next);
            }
        }
    }
    assert(ranked(t, d2));
}

proof fn lemma_filter_keeps_acyclic(wallets: Seq<Wallet>, f: spec_fn(Wallet) -> bool)
    requires
        acyclic(wallets),
    ensures
        acyclic(wallets.filter(f)),
{
    let d = choose|d: Map<i32, nat>| #[trigger] ranked(wallets, d);
    lemma_filter_members(wallets, f);
    let t = wallets.filter(f);
    assert forall|i: int| 0 <= i < t.len() implies d.dom().contains(#[trigger] t[i].id)
        && parent_ranked_below(t[i], d) by {
        assert(wallets.contains(t[i]));
        let j = choose|j: int| 0 <= j < wallets.len() && wallets[j] == t[i];
        assert(ranked(wallets, d));
        assert(d.dom().contains(wallets[j].id));
        assert(parent_ranked_below(wallets[j], d));
    }
    assert(ranked(t, d));
}

/// Giving wallet `wallets[i]` a parent that does not descend from it keeps
/// the hierarchy free of cycles: its subtree moves up or down as a whole.
proof fn lemma_reparent_keeps_acyclic(wallets: Seq<Wallet>, i: int, w: Wallet)
    requires
        0 <= i < wallets.len(),
        unique_keys(wallets),
        parents_present(wallets),
        acyclic(wallets),
        w.id == wallets[i].id,
        !dangling(wallets, w.parent_id),
        !creates_cycle(wallets, w.id, w.parent_id),
    ensures
        acyclic(wallets.update(i, w)),
{
    let id = w.id;
    let d = choose|d: Map<i32, nat>| #[trigger] ranked(wallets, d);
    assert(d.dom().contains(wallets[i].id));
    let base: nat = match w.parent_id {
        Some(p) => {
            let j = choose|j: int| 0 <= j < wallets.len() && #[trigger] wallets[j].key() == p;
            assert(d.dom().contains(wallets[j].id));
            d[p] + 1
        },
        None => 0,
    };
    let d2 = Map::new(
        |k: i32| d.dom().contains(k),
        |k: i32|
            if descends_from(wallets, k, id) {
                (d[k] - d[id] + base) as nat
            } else {
                d[k]
            },
    );
    let t = wallets.update(i, w);
    assert(reaches(wallets, id, id, 0));
    assert forall|j: int| 0 <= j < t.len() implies d2.dom().contains(#[trigger] t[j].id)
        && parent_ranked_below(t[j], d2) by {
        if j == i {
            assert(t[j] == w);
            if let Some(p) = w.parent_id {
                let q = choose|q: int| 0 <= q < wallets.len() && #[trigger] wallets[q].key() == p;
                assert(d.dom().contains(wallets[q].id));
                assert(!descends_from(wallets, p, id));
                assert(d2[p] == d[p]);
                assert(d2[id] == base);
            }
        } else {
            let x = wallets[j];
            assert(t[j] == x);
            assert(x.id != id) by {
                assert(wallets[j].key() != wallets[i].key());
            }
            assert(d.dom().contains(x.id) && parent_ranked_below(x, d));
            if let Some(q) = x.parent_id {
                lemma_unique_index(wallets, j);
                lemma_descends_step(wallets, x.id, id, q);
                assert(has_key(wallets, q));
                if descends_from(wallets, x.id, id) {
                    let kx = choose|k: nat| #[trigger] reaches(wallets, x.id, id, k);
                    let kq = choose|k: nat| #[trigger] reaches(wallets, q, id, k);
                    assert(has_key(wallets, x.id)) by {
                        assert(wallets[j].key() == x.id);
                    }
                    lemma_descends_depth(wallets, d, x.id, id, kx);
                    lemma_descends_depth(wallets, d, q, id, kq);
                }
            }
        }
    }
    assert(ranked(t, d2));
}

/// Number of `true`s in `s`.
pub open spec fn count_true(s: Seq<bool>) -> nat
    decreases s.len(),
{
    if s.len() == 0 {
        0
    } else {
        count_true(s.drop_last()) + if s.last() {
            1nat
        } else {
            0nat
        }
    }
}

proof fn lemma_count_true_bound(s: Seq<bool>)
    ensures
        count_true(s) <= s.len(),
    decreases s.len(),
{
    if s.len() > 0 {
        lemma_count_true_bound(s.drop_last());
    }
}

proof fn lemma_count_true_mark(s: Seq<bool>, i: int)
    requires
        0 <= i < s.len(),
        !s[i],
    ensures
        count_true(s.update(i, true)) == count_true(s) + 1,
    decreases s.len(),
{
    let t = s.update(i, true);
    if i == s.len() - 1 {
        assert(t.drop_last() =~= s.drop_last());
    } else {
        assert(t.drop_last() =~= s.drop_last().update(i, true));
        lemma_count_true_mark(s.drop_last(), i);
    }
}

/// Whether wallet `q`'s parent is a marked wallet.
pub open spec fn marked_parent(ws: Seq<Wallet>, mark: Seq<bool>, q: int) -> bool {
    exists|w: int| 0 <= w < ws.len() && #[trigger] mark[w] && ws[q].parent_id == Some(ws[w].id)
}

proof fn lemma_count_zero(s: Seq<bool>)
    requires
        forall|i: int| 0 <= i < s.len() ==> !s[i],
    ensures
        count_true(s) == 0,
    decreases s.len(),
{
    if s.len() > 0 {
        lemma_count_zero(s.drop_last());
    }
}

proof fn lemma_unique_index(wallets: Seq<Wallet>, i: int)
    requires
        unique_keys(wallets),
        0 <= i < wallets.len(),
    ensures
        parent_in(wallets, wallets[i].id) == wallets[i].parent_id,
{
    let k = wallets[i].id;
    assert(wallets[i].key() == k);
    let j = choose|j: int| 0 <= j < wallets.len() && #[trigger] wallets[j].key() == k;
    assert(i == j);
}

/// One step up: for `x` other than `a`, descending from `a` is the same as
/// its parent descending from `a`.
proof fn lemma_descends_step(wallets: Seq<Wallet>, x: i32, a: i32, p: i32)
    requires
        x != a,
        parent_in(wallets, x) == Some(p),
    ensures
        descends_from(wallets, x, a) == descends_from(wallets, p, a),
{
    if descends_from(wallets, x, a) {
        let k = choose|k: nat| #[trigger] reaches(wallets, x, a, k);
        assert(reaches(wallets, p, a, (k - 1) as nat));
    }
    if descends_from(wallets, p, a) {
        let k = choose|k: nat| #[trigger] reaches(wallets, p, a, k);
        assert(reaches(wallets, x, a, k + 1));
    }
}

/// A descendant is ranked at least as high as its ancestor.
proof fn lemma_descends_depth(wallets: Seq<Wallet>, depth: Map<i32, nat>, x: i32, a: i32, k: nat)
    requires
        unique_keys(wallets),
        ranked(wallets, depth),
        parents_present(wallets),
        has_key(wallets, x),
        reaches(wallets, x, a, k),
    ensures
        depth.dom().contains(a),
        depth[x] >= depth[a],
    decreases k,
{
    let i = choose|i: int| 0 <= i < wallets.len() && #[trigger] wallets[i].key() == x;
    lemma_unique_index(wallets, i);
    if x != a {
        let p = parent_in(wallets, x)->0;
        assert(has_key(wallets, p));
        lemma_descends_depth(wallets, depth, p, a, (k - 1) as nat);
    }
}

fn walk_reaches(wallets: &Vec<Wallet>, from: i32, target: i32, Ghost(depth): Ghost<Map<i32, nat>>) -> (r: bool)
    requires
        unique_keys(wallets@),
        parents_present(wallets@),
        ranked(wallets@, depth),
        has_key(wallets@, from),
    ensures
        r == descends_from(wallets@, from, target),
{
    let mut cur = from;
    loop
        invariant
            unique_keys(wallets@),
            parents_present(wallets@),
            ranked(wallets@, depth),
            has_key(wallets@, cur),
            descends_from(wallets@, from, target) == descends_from(wallets@, cur, target),
        decreases depth[cur],
    {
        if cur == target {
            assert(reaches(wallets@, cur, target, 0));
            return true;
        }
        let i = match index_of(wallets, cur) {
            Some(i) => i,
            None => {
                return false;
            },
        };
        proof {
            lemma_unique_index(wallets@, i as int);
        }
        match wallets[i].parent_id {
            None => {
                proof {
                    if descends_from(wallets@, cur, target) {
                        let k = choose|k: nat| #[trigger] reaches(wallets@, cur, target, k);
                        assert(!reaches(wallets@, cur, target, k));
                    }
                }
                return false;
            },
            Some(p) => {
                proof {
                    lemma_descends_step(wallets@, cur, target, p);
                    assert(has_key(wallets@, p));
                    assert(depth[p] < depth[cur]) by {
                        assert(wallets@[i as int].id == cur);
                        assert(parent_ranked_below(wallets@[i as int], depth));
                    }
                }
                cur = p;
            },
        }
    }
}

impl QueryService {
    /// An empty store.
    pub fn new() -> (r: Self)
        ensures
            wf(r@),
            r@.wallets.len() == 0,
            r@.metadata.len() == 0,
            r@.balances.len() == 0,
            r@.entries.len() == 0,
            r@.balance_priorities.len() == 0,
            r@.currencies.len() == 0,
            r@.currency_maps.len() == 0,
            r@.prices.len() == 0,
            r@.price_providers.len() == 0,
            r@.next_wallet_id == 1,
            r@.next_metadata_id == 1,
            r@.next_balance_id == 1,
            r@.next_entry_id == 1,
            r@.next_balance_priority_id == 1,
            r@.next_currency_map_id == 1,
            r@.next_price_id == 1,
            r@.next_price_provider_id == 1,
    {
        let r = QueryService {
            wallets: Vec::new(),
            metadata: Vec::new(),
            balances: Vec::new(),
            entries: Vec::new(),
            balance_priorities: Vec::new(),
            currencies: Vec::new(),
            currency_maps: Vec::new(),
            prices: Vec::new(),
            price_providers: Vec::new(),
            next_wallet_id: 1,
            next_metadata_id: 1,
            next_balance_id: 1,
            next_entry_id: 1,
            next_balance_priority_id: 1,
            next_currency_map_id: 1,
            next_price_id: 1,
            next_price_provider_id: 1,
        };
        assert(ranked(r.wallets@, Map::<i32, nat>::empty()));
        r
    }

    /// The wallet with key `id`.
    pub fn get_wallet_by_id(&self, id: i32) -> (r: Option<Wallet>)
        ensures
            match r {
                Some(w) => w.id == id && self@.wallets.contains(w),
                None => !has_key(self@.wallets, id),
            },
    {
        find_by_key(&self.wallets, id)
    }

    /// Creates a wallet under the next key. Fails when the parent does not
    /// exist or the keys are used up; the store is then unchanged.
    pub fn create_wallet(&mut self, new_wallet: NewWallet) -> (r: Result<Wallet, DbError>)
        requires
            wf(old(self)@),
        ensures
            wf(final(self)@),
            match r {
                Ok(w) => {
                    &&& !dangling(old(self)@.wallets, new_wallet.parent_id)
                    &&& old(self)@.next_wallet_id < i32::MAX
                    &&& w == (Wallet {
                        id: old(self)@.next_wallet_id,
                        parent_id: new_wallet.parent_id,
                        scope: new_wallet.scope,
                    })
                    &&& final(self)@ == (StoreView {
                        wallets: old(self)@.wallets.push(w),
                        next_wallet_id: (old(self)@.next_wallet_id + 1) as i32,
                        ..old(self)@
                    })
                },
                Err(e) => {
                    &&& final(self)@ == old(self)@
                    &&& e == if dangling(old(self)@.wallets, new_wallet.parent_id) {
                        DbError::ForeignKeyViolation
                    } else {
                        DbError::IdsExhausted
                    }
                    &&& e == DbError::IdsExhausted ==> old(self)@.next_wallet_id == i32::MAX
                },
            },
    {
        if let Some(p) = new_wallet.parent_id {
            if index_of(&self.wallets, p).is_none() {
                return Err(DbError::ForeignKeyViolation);
            }
        }
        if self.next_wallet_id == i32::MAX {
            return Err(DbError::IdsExhausted);
        }
        let w = Wallet { id: self.next_wallet_id, parent_id: new_wallet.parent_id, scope: new_wallet.scope };
        let ghost before = self.wallets@;
        self.wallets.push(w);
        self.next_wallet_id = self.next_wallet_id + 1;
        proof {
            assert forall|i: int| 0 <= i < before.len() implies #[trigger] self.wallets@[i] == before[i] by {}
            assert(self.wallets@[before.len() as int] == w);
            assert forall|k: i32| has_key(before, k) implies has_key(self.wallets@, k) by {
                let i = choose|i: int| 0 <= i < before.len() && #[trigger] before[i].key() == k;
                assert(self.wallets@[i].key() == k);
            }
            if let Some(p) = w.parent_id {
                assert(has_key(before, p));
            }
            lemma_push_keeps_acyclic(before, w, w.id);
        }
        Ok(w)
    }

    /// Gives wallet `id` a new scope and parent. Fails when there is no such
    /// wallet, when the parent does not exist, or when the parent is the
    /// wallet itself or one of its descendants; the store is then unchanged.
    pub fn update_wallet(&mut self, id: i32, new_wallet: NewWallet) -> (r: Result<Wallet, DbError>)
        requires
            wf(old(self)@),
        ensures
            wf(final(self)@),
            match r {
                Ok(w) => {
                    &&& has_key(old(self)@.wallets, id)
                    &&& !dangling(old(self)@.wallets, new_wallet.parent_id)
                    &&& !creates_cycle(old(self)@.wallets, id, new_wallet.parent_id)
                    &&& w == (Wallet { id, parent_id: new_wallet.parent_id, scope: new_wallet.scope })
                    &&& exists|i: int|
                        0 <= i < old(self)@.wallets.len() && #[trigger] old(self)@.wallets[i].id == id
                            && final(self)@ == (StoreView {
                            wallets: old(self)@.wallets.update(i, w),
                            ..old(self)@
                        })
                },
                Err(e) => {
                    &&& final(self)@ == old(self)@
                    &&& e == if !has_key(old(self)@.wallets, id) {
                        DbError::RecordNotFound
                    } else if dangling(old(self)@.wallets, new_wallet.parent_id) {
                        DbError::ForeignKeyViolation
                    } else {
                        DbError::CycleDetected
                    }
                    &&& e == DbError::CycleDetected ==> creates_cycle(
                        old(self)@.wallets,
                        id,
                        new_wallet.parent_id,
                    )
                },
            },
    {
        let i = match index_of(&self.wallets, id) {
            Some(i) => i,
            None => {
                return Err(DbError::RecordNotFound);
            },
        };
        if let Some(p) = new_wallet.parent_id {
            if index_of(&self.wallets, p).is_none() {
                return Err(DbError::ForeignKeyViolation);
            }
            let ghost depth = choose|d: Map<i32, nat>| #[trigger] ranked(self.wallets@, d);
            if walk_reaches(&self.wallets, p, id, Ghost(depth)) {
                return Err(DbError::CycleDetected);
            }
        }
        let w = Wallet { id, parent_id: new_wallet.parent_id, scope: new_wallet.scope };
        let ghost before = self.wallets@;
        self.wallets.set(i, w);
        proof {
            lemma_reparent_keeps_acyclic(before, i as int, w);
            lemma_update_keyed(before, i as int, w, self.next_wallet_id);
            assert(self.wallets@ == before.update(i as int, w));
            assert(!dangling(before, w.parent_id));
            assert forall|j: int| 0 <= j < self.wallets@.len() implies (
            #[trigger] self.wallets@[j].parent_id matches Some(p) ==> has_key(self.wallets@, p)) by {
                if j != i {
                    assert(self.wallets@[j] == before[j]);
                    if let Some(p) = before[j].parent_id {
                        assert(has_key(before, p));
                    }
                } else if let Some(p) = w.parent_id {
                    assert(has_key(before, p));
                }
            }
            assert(before[i as int].id == id);
        }
        Ok(w)
    }

    /// Deletes wallet `id` with everything that depends on it: its child
    /// wallets (and theirs, transitively), and the metadata, balances, balance
    /// entries and provider ranks of every removed wallet. Returns whether the
    /// wallet existed.
    pub fn delete_wallet(&mut self, id: i32) -> (r: bool)
        requires
            wf(old(self)@),
        ensures
            wf(final(self)@),
            r == has_key(old(self)@.wallets, id),
            !r ==> final(self)@ == old(self)@,
            r ==> exists|removed: Seq<i32>| #[trigger]
                wallet_cascade(old(self)@, id, removed, final(self)@),
    {
        let start = match index_of(&self.wallets, id) {
            Some(i) => i,
            None => {
                return false;
            },
        };
        let ghost old_view = self@;
        let ghost ws = self.wallets@;
        let n = self.wallets.len();
        let mut mark: Vec<bool> = Vec::new();
        let mut j: usize = 0;
        while j < n
            invariant
                j <= n,
                n == ws.len(),
                start < n,
                mark@.len() == j,
                forall|q: int| 0 <= q < j ==> #[trigger] mark@[q] == (q == start),
            decreases n - j,
        {
            mark.push(j == start);
            j = j + 1;
        }
        proof {
            assert(count_true(mark@) == 1) by {
                let zeros = Seq::new(n as nat, |q: int| false);
                assert(count_true(zeros) == 0) by {
                    lemma_count_true_bound(zeros);
                    lemma_count_zero(zeros);
                }
                assert(mark@ =~= zeros.update(start as int, true));
                lemma_count_true_mark(zeros, start as int);
            }
        }
        let mut count: usize = 1;
        loop
            invariant
                self.wallets@ == ws,
                self@ == old_view,
                wf(old_view),
                n == ws.len(),
                start < n,
                ws[start as int].id == id,
                mark@.len() == n,
                mark@[start as int],
                count == count_true(mark@),
                forall|q: int|
                    0 <= q < n && #[trigger] mark@[q] ==> q == start || marked_parent(ws, mark@, q),
            ensures
                self@ == old_view,
                mark@.len() == n,
                mark@[start as int],
                forall|q: int|
                    0 <= q < n && #[trigger] mark@[q] ==> q == start || marked_parent(ws, mark@, q),
                forall|q: int| 0 <= q < n && !#[trigger] mark@[q] ==> !marked_parent(ws, mark@, q),
            decreases n - count,
        {
            proof {
                lemma_count_true_bound(mark@);
            }
            let ghost pass_start = mark@;
            let mut changed = false;
            let mut i: usize = 0;
            while i < n
                invariant
                    self.wallets@ == ws,
                    wf(old_view),
                    self@ == old_view,
                    n == ws.len(),
                    start < n,
                    i <= n,
                    mark@.len() == n,
                    mark@[start as int],
                    count == count_true(mark@),
                    count <= n,
                    forall|q: int|
                        0 <= q < n && #[trigger] mark@[q] ==> q == start || marked_parent(
                            ws,
                            mark@,
                            q,
                        ),
                    !changed ==> mark@ == pass_start,
                    changed ==> count > count_true(pass_start),
                    !changed ==> forall|q: int|
                        0 <= q < i && !#[trigger] mark@[q] ==> !marked_parent(ws, mark@, q),
                decreases n - i,
            {
                proof {
                    lemma_count_true_bound(mark@);
                }
                if !mark[i] {
                    if let Some(p) = self.wallets[i].parent_id {
                        if let Some(pi) = index_of(&self.wallets, p) {
                            if mark[pi] {
                                let ghost before = mark@;
                                proof {
                                    lemma_count_true_mark(before, i as int);
                                    lemma_count_true_bound(before.update(i as int, true));
                                }
                                mark.set(i, true);
                                count = count + 1;
                                changed = true;
                                proof {
                                    assert forall|q: int|
                                        0 <= q < n && #[trigger] mark@[q] implies q == start
                                        || marked_parent(ws, mark@, q) by {
                                        if q == i {
                                            assert(mark@[pi as int]);
                                            assert(ws[pi as int].id == p);
                                        } else {
                                            assert(before[q]);
                                            if q != start {
                                                let w = choose|w: int|
                                                    0 <= w < n && #[trigger] before[w]
                                                        && ws[q].parent_id == Some(ws[w].id);
                                                assert(mark@[w]);
                                            }
                                        }
                                    }
                                }
                            } else {
                                proof {
                                    if marked_parent(ws, mark@, i as int) {
                                        let w = choose|w: int|
                                            0 <= w < n && #[trigger] mark@[w] && ws[i as int].parent_id
                                                == Some(ws[w].id);
                                        assert(ws[w].key() == p);
                                        assert(ws[pi as int].key() == p);
                                        assert(w == pi);
                                    }
                                }
                            }
                        } else {
                            proof {
                                if marked_parent(ws, mark@, i as int) {
                                    let w = choose|w: int|
                                        0 <= w < n && #[trigger] mark@[w] && ws[i as int].parent_id
                                            == Some(ws[w].id);
                                    assert(ws[w].key() == p);
                                }
                            }
                        }
                    }
                }
                i = i + 1;
            }
            if !changed {
                break;
            }
        }
        self.finish_wallet_cascade(id, start, &mark)
    }

    /// The metadata of wallet `wallet_id` (the first, if several).
    pub fn get_wallet_metadata(&self, wallet_id: i32) -> (r: Option<WalletMetadata>)
        ensures
            match r {
                Some(m) => {
                    let found = self@.metadata.filter(|x: WalletMetadata| x.owner() == wallet_id);
                    found.len() > 0 && m == found[0]
                },
                None => self@.metadata.filter(|x: WalletMetadata| x.owner() == wallet_id).len()
                    == 0,
            },
    {
        let found = owned_by(&self.metadata, wallet_id);
        if found.len() > 0 {
            Some(found[0].dup())
        } else {
            None
        }
    }

    /// Every wallet with its metadata, in table order.
    pub fn get_wallets_with_metadata(&self) -> (r: Vec<(Wallet, Vec<WalletMetadata>)>)
        ensures
            r@.len() == self@.wallets.len(),
            forall|i: int|
                0 <= i < r@.len() ==> (#[trigger] r@[i]).0 == self@.wallets[i] && r@[i].1@
                    == self@.metadata.filter(|x: WalletMetadata| x.owner() == self@.wallets[i].id),
    {
        let mut out: Vec<(Wallet, Vec<WalletMetadata>)> = Vec::new();
        let mut i: usize = 0;
        while i < self.wallets.len()
            invariant
                i <= self@.wallets.len(),
                out@.len() == i,
                forall|j: int|
                    0 <= j < i ==> (#[trigger] out@[j]).0 == self@.wallets[j] && out@[j].1@
                        == self@.metadata.filter(|x: WalletMetadata| x.owner() == self@.wallets[j].id),
            decreases self@.wallets.len() - i,
        {
            let w = self.wallets[i];
            let m = owned_by(&self.metadata, w.id);
            out.push((w, m));
            i = i + 1;
        }
        out
    }

    /// Attaches metadata to a wallet under the next key. Fails when the
    /// wallet does not exist or the keys are used up; the store is then
    /// unchanged.
    pub fn create_wallet_metadata(&mut self, new_metadata: NewWalletMetadata) -> (r: Result<
        WalletMetadata,
        DbError,
    >)
        requires
            wf(old(self)@),
        ensures
            wf(final(self)@),
            match r {
                Ok(m) => {
                    &&& has_key(old(self)@.wallets, new_metadata.wallet_id)
                    &&& m == (WalletMetadata {
                        id: old(self)@.next_metadata_id,
                        wallet_id: new_metadata.wallet_id,
                        alias: new_metadata.alias,
                        address: new_metadata.address,
                    })
                    &&& final(self)@ == (StoreView {
                        metadata: old(self)@.metadata.push(m),
                        next_metadata_id: (old(self)@.next_metadata_id + 1) as i32,
                        ..old(self)@
                    })
                },
                Err(e) => {
                    &&& final(self)@ == old(self)@
                    &&& e == if !has_key(old(self)@.wallets, new_metadata.wallet_id) {
                        DbError::ForeignKeyViolation
                    } else {
                        DbError::IdsExhausted
                    }
                    &&& e == DbError::IdsExhausted ==> old(self)@.next_metadata_id == i32::MAX
                },
            },
    {
        if index_of(&self.wallets, new_metadata.wallet_id).is_none() {
            return Err(DbError::ForeignKeyViolation);
        }
        if self.next_metadata_id == i32::MAX {
            return Err(DbError::IdsExhausted);
        }
        let m = WalletMetadata {
            id: self.next_metadata_id,
            wallet_id: new_metadata.wallet_id,
            alias: new_metadata.alias,
            address: new_metadata.address,
        };
        let ghost before = self.metadata@;
        self.metadata.push(m.dup());
        proof {
            lemma_push_keyed(before, m, self.next_metadata_id);
            assert forall|i: int| 0 <= i < self.metadata@.len() implies has_key(
                self.wallets@,
                #[trigger] self.metadata@[i].owner(),
            ) by {
                if i < before.len() {
                    assert(self.metadata@[i] == before[i]);
                }
            }
        }
        self.next_metadata_id = self.next_metadata_id + 1;
        Ok(m)
    }

    /// Replaces the values of metadata `id`. Fails when there is no such
    /// metadata or the wallet does not exist; the store is then unchanged.
    pub fn update_wallet_metadata(&mut self, id: i32, new_metadata: NewWalletMetadata) -> (r: Result<
        WalletMetadata,
        DbError,
    >)
        requires
            wf(old(self)@),
        ensures
            wf(final(self)@),
            match r {
                Ok(m) => {
                    &&& m == (WalletMetadata {
                        id,
                        wallet_id: new_metadata.wallet_id,
                        alias: new_metadata.alias,
                        address: new_metadata.address,
                    })
                    &&& has_key(old(self)@.wallets, new_metadata.wallet_id)
                    &&& exists|i: int|
                        0 <= i < old(self)@.metadata.len() && #[trigger] old(self)@.metadata[i].id
                            == id && final(self)@ == (StoreView {
                            metadata: old(self)@.metadata.update(i, m),
                            ..old(self)@
                        })
                },
                Err(e) => {
                    &&& final(self)@ == old(self)@
                    &&& e == if !has_key(old(self)@.metadata, id) {
                        DbError::RecordNotFound
                    } else {
                        DbError::ForeignKeyViolation
                    }
                    &&& e == DbError::ForeignKeyViolation ==> !has_key(
                        old(self)@.wallets,
                        new_metadata.wallet_id,
                    )
                },
            },
    {
        let i = match index_of(&self.metadata, id) {
            Some(i) => i,
            None => {
                return Err(DbError::RecordNotFound);
            },
        };
        if index_of(&self.wallets, new_metadata.wallet_id).is_none() {
            return Err(DbError::ForeignKeyViolation);
        }
        let m = WalletMetadata {
            id,
            wallet_id: new_metadata.wallet_id,
            alias: new_metadata.alias,
            address: new_metadata.address,
        };
        let ghost before = self.metadata@;
        self.metadata.set(i, m.dup());
        proof {
            lemma_update_keyed(before, i as int, m, self.next_metadata_id);
            assert(self.metadata@ == before.update(i as int, m));
            assert forall|j: int| 0 <= j < self.metadata@.len() implies has_key(
                self.wallets@,
                #[trigger] self.metadata@[j].owner(),
            ) by {
                if j != i {
                    assert(self.metadata@[j] == before[j]);
                }
            }
        }
        Ok(m)
    }

    /// Deletes metadata `id`; returns whether it existed.
    pub fn delete_wallet_metadata(&mut self, id: i32) -> (r: bool)
        requires
            wf(old(self)@),
        ensures
            wf(final(self)@),
            r == has_key(old(self)@.metadata, id),
            !r ==> final(self)@ == old(self)@,
            r ==> exists|i: int|
                0 <= i < old(self)@.metadata.len() && #[trigger] old(self)@.metadata[i].id == id
                    && final(self)@ == (StoreView {
                    metadata: old(self)@.metadata.remove(i),
                    ..old(self)@
                }),
    {
        match index_of(&self.metadata, id) {
            Some(i) => {
                let ghost before = self.metadata@;
                self.metadata.remove(i);
                proof {
                    lemma_remove_keyed(before, i as int, self.next_metadata_id);
                    assert forall|j: int| 0 <= j < self.metadata@.len() implies has_key(
                        self.wallets@,
                        #[trigger] self.metadata@[j].owner(),
                    ) by {
                        let sj = if j < i { j } else { j + 1 };
                        assert(self.metadata@[j] == before[sj]);
                    }
                }
                true
            },
            None => false,
        }
    }

    /// The balance with key `id`.
    pub fn get_balance_by_id(&self, id: i32) -> (r: Option<Balance>)
        ensures
            match r {
                Some(b) => b.id == id && self@.balances.contains(b),
                None => !has_key(self@.balances, id),
            },
    {
        find_by_key(&self.balances, id)
    }

    /// The balances of wallet `wallet_id`, in table order.
    pub fn get_balances_by_wallet_id(&self, wallet_id: i32) -> (r: Vec<Balance>)
        ensures
            r@ == self@.balances.filter(|x: Balance| x.owner() == wallet_id),
    {
        owned_by(&self.balances, wallet_id)
    }

    /// The entries of balance `balance_id`, in table order.
    pub fn get_balance_entries(&self, balance_id: i32) -> (r: Vec<BalanceEntry>)
        ensures
            r@ == self@.entries.filter(|x: BalanceEntry| x.owner() == balance_id),
    {
        owned_by(&self.entries, balance_id)
    }

    /// Balance `balance_id` with its entries.
    pub fn get_balance_with_entries(&self, balance_id: i32) -> (r: Option<(Balance, Vec<BalanceEntry>)>)
        ensures
            match r {
                Some((b, es)) => b.id == balance_id && self@.balances.contains(b) && es@
                    == self@.entries.filter(|x: BalanceEntry| x.owner() == balance_id),
                None => !has_key(self@.balances, balance_id),
            },
    {
        match find_by_key(&self.balances, balance_id) {
            Some(b) => Some((b, owned_by(&self.entries, balance_id))),
            None => None,
        }
    }

    /// Records a balance and its entries as one transaction: the balance
    /// under the next key, then each entry in order under the next keys. If
    /// any step fails, nothing is kept and that step's error is returned.
    pub fn create_balance_with_entries(
        &mut self,
        new_balance: NewBalance,
        entries: Vec<NewBalanceEntry>,
    ) -> (r: Result<Balance, DbError>)
        requires
            wf(old(self)@),
        ensures
            wf(final(self)@),
            match r {
                Ok(b) => {
                    &&& has_key(old(self)@.wallets, new_balance.wallet_id)
                    &&& old(self)@.next_balance_id < i32::MAX
                    &&& entries_error_from(entries@, 0, old(self)@.next_entry_id as int) is None
                    &&& b == (Balance {
                        id: old(self)@.next_balance_id,
                        wallet_id: new_balance.wallet_id,
                        time: new_balance.time,
                        provider: new_balance.provider,
                    })
                    &&& final(self)@ == (StoreView {
                        balances: old(self)@.balances.push(b),
                        entries: old(self)@.entries + entry_rows(
                            entries@,
                            b.id,
                            old(self)@.next_entry_id as int,
                        ),
                        next_balance_id: (old(self)@.next_balance_id + 1) as i32,
                        next_entry_id: (old(self)@.next_entry_id + entries@.len()) as i32,
                        ..old(self)@
                    })
                },
                Err(e) => {
                    &&& final(self)@ == old(self)@
                    &&& if !has_key(old(self)@.wallets, new_balance.wallet_id) {
                        e == DbError::ForeignKeyViolation
                    } else if old(self)@.next_balance_id == i32::MAX {
                        e == DbError::IdsExhausted
                    } else {
                        entries_error_from(entries@, 0, old(self)@.next_entry_id as int) == Some(e)
                    }
                },
            },
    {
        if index_of(&self.wallets, new_balance.wallet_id).is_none() {
            return Err(DbError::ForeignKeyViolation);
        }
        if self.next_balance_id == i32::MAX {
            return Err(DbError::IdsExhausted);
        }
        let ghost old_view = self@;
        let b = Balance {
            id: self.next_balance_id,
            wallet_id: new_balance.wallet_id,
            time: new_balance.time,
            provider: new_balance.provider,
        };
        let balances_len = self.balances.len();
        let entries_len = self.entries.len();
        let first_entry_id = self.next_entry_id;
        let ghost before = self.balances@;
        self.balances.push(b);
        self.next_balance_id = self.next_balance_id + 1;
        proof {
            lemma_push_keyed(before, b, old_view.next_balance_id);
            lemma_owners_push(before, b, self.wallets@);
            lemma_owners_parents_grow(self.entries@, before, self.balances@);
        }
        let ghost rows = entry_rows(entries@, b.id, first_entry_id as int);
        let mut i: usize = 0;
        while i < entries.len()
            invariant
                wf(self@),
                wf(old_view),
                old_view == old(self)@,
                has_key(old_view.wallets, new_balance.wallet_id),
                old_view.next_balance_id < i32::MAX,
                i <= entries@.len(),
                has_key(self@.balances, b.id),
                b.id == old_view.next_balance_id,
                balances_len == old_view.balances.len(),
                entries_len == old_view.entries.len(),
                first_entry_id == old_view.next_entry_id,
                rows == entry_rows(entries@, b.id, first_entry_id as int),
                self.next_entry_id == first_entry_id + i,
                entries_error_from(entries@, 0, first_entry_id as int) == entries_error_from(
                    entries@,
                    i as int,
                    first_entry_id as int,
                ),
                self@ == (StoreView {
                    balances: old_view.balances.push(b),
                    entries: old_view.entries + rows.subrange(0, i as int),
                    next_balance_id: (old_view.next_balance_id + 1) as i32,
                    next_entry_id: self.next_entry_id,
                    ..old_view
                }),
            decreases entries@.len() - i,
        {
            let amount = entries[i].amount;
            assert(amount == entries@[i as int].amount);
            if !amount.fits() || self.next_entry_id == i32::MAX {
                assert(entries_error_from(entries@, i as int, first_entry_id as int) == if !fits_column(amount) {
                    Some(DbError::NumericOverflow)
                } else {
                    Some(DbError::IdsExhausted)
                });
                self.entries.truncate(entries_len);
                self.balances.truncate(balances_len);
                self.next_entry_id = first_entry_id;
                self.next_balance_id = b.id;
                proof {
                    assert(self.entries@ =~= old_view.entries);
                    assert(self.balances@ =~= old_view.balances);
                    assert(self@ == old_view);
                }
                if !amount.fits() {
                    return Err(DbError::NumericOverflow);
                }
                return Err(DbError::IdsExhausted);
            }
            let e = BalanceEntry {
                id: self.next_entry_id,
                balance_id: b.id,
                raw_currency: entries[i].raw_currency.clone(),
                amount,
            };
            assert(entries_error_from(entries@, i as int, first_entry_id as int) == entries_error_from(
                entries@,
                i + 1,
                first_entry_id as int,
            ));
            let ghost before_entries = self.entries@;
            self.entries.push(e);
            proof {
                lemma_push_keyed(before_entries, e, self.next_entry_id);
                lemma_owners_push(before_entries, e, self.balances@);
                assert(e == rows[i as int]);
                assert(old_view.entries + rows.subrange(0, i + 1) =~= before_entries.push(e));
                assert forall|k: int| 0 <= k < self.entries@.len() implies fits_column(
                    #[trigger] self.entries@[k].amount,
                ) by {
                    if k < before_entries.len() {
                        assert(self.entries@[k] == before_entries[k]);
                    }
                }
            }
            self.next_entry_id = self.next_entry_id + 1;
            i = i + 1;
        }
        proof {
            assert(rows.subrange(0, entries@.len() as int) =~= rows);
        }
        Ok(b)
    }

    /// Replaces the values of balance `id`. Fails when there is no such
    /// balance or the wallet does not exist; the store is then unchanged.
    pub fn update_balance(&mut self, id: i32, new_balance: NewBalance) -> (r: Result<Balance, DbError>)
        requires
            wf(old(self)@),
        ensures
            wf(final(self)@),
            match r {
                Ok(b) => {
                    &&& b == (Balance {
                        id,
                        wallet_id: new_balance.wallet_id,
                        time: new_balance.time,
                        provider: new_balance.provider,
                    })
                    &&& has_key(old(self)@.wallets, new_balance.wallet_id)
                    &&& exists|i: int|
                        0 <= i < old(self)@.balances.len() && #[trigger] old(self)@.balances[i].id
                            == id && final(self)@ == (StoreView {
                            balances: old(self)@.balances.update(i, b),
                            ..old(self)@
                        })
                },
                Err(e) => {
                    &&& final(self)@ == old(self)@
                    &&& e == if !has_key(old(self)@.balances, id) {
                        DbError::RecordNotFound
                    } else {
                        DbError::ForeignKeyViolation
                    }
                    &&& e == DbError::ForeignKeyViolation ==> !has_key(
                        old(self)@.wallets,
                        new_balance.wallet_id,
                    )
                },
            },
    {
        let i = match index_of(&self.balances, id) {
            Some(i) => i,
            None => {
                return Err(DbError::RecordNotFound);
            },
        };
        if index_of(&self.wallets, new_balance.wallet_id).is_none() {
            return Err(DbError::ForeignKeyViolation);
        }
        let b = Balance {
            id,
            wallet_id: new_balance.wallet_id,
            time: new_balance.time,
            provider: new_balance.provider,
        };
        let ghost before = self.balances@;
        self.balances.set(i, b);
        proof {
            lemma_update_keyed(before, i as int, b, self.next_balance_id);
            lemma_owners_update(before, i as int, b, self.wallets@);
            lemma_owners_parents_grow(self.entries@, before, self.balances@);
        }
        Ok(b)
    }

    /// Deletes balance `id` with its entries; returns whether it existed.
    pub fn delete_balance(&mut self, id: i32) -> (r: bool)
        requires
            wf(old(self)@),
        ensures
            wf(final(self)@),
            r == has_key(old(self)@.balances, id),
            !r ==> final(self)@ == old(self)@,
            r ==> exists|i: int|
                0 <= i < old(self)@.balances.len() && #[trigger] old(self)@.balances[i].id == id
                    && final(self)@ == (StoreView {
                    balances: old(self)@.balances.remove(i),
                    entries: old(self)@.entries.filter(|e: BalanceEntry| e.balance_id != id),
                    ..old(self)@
                }),
    {
        match index_of(&self.balances, id) {
            Some(i) => {
                let ghost old_view = self@;
                let ghost before = self.balances@;
                self.balances.remove(i);
                let mut doomed: Vec<i32> = Vec::new();
                doomed.push(id);
                self.entries = without_owners(&self.entries, &doomed);
                proof {
                    let f = |x: BalanceEntry| !doomed@.contains(x.owner());
                    assert forall|j: int| 0 <= j < old_view.entries.len() implies f(
                        #[trigger] old_view.entries[j],
                    ) == (old_view.entries[j].balance_id != id) by {
                        assert(doomed@.len() == 1 && doomed@[0] == id);
                        if old_view.entries[j].balance_id == id {
                            assert(doomed@.contains(old_view.entries[j].owner()));
                        }
                    }
                    lemma_filter_congruent(old_view.entries, f, |e: BalanceEntry| e.balance_id != id);
                    lemma_remove_keyed(before, i as int, old_view.next_balance_id);
                    lemma_owners_remove(before, i as int, self.wallets@);
                    lemma_filter_keys(old_view.entries, f, old_view.next_entry_id);
                    lemma_filter_members(old_view.entries, f);
                    assert forall|t: int| 0 <= t < self.entries@.len() implies has_key(
                        self.balances@,
                        #[trigger] self.entries@[t].owner(),
                    ) && fits_column(self.entries@[t].amount) by {
                        assert(old_view.entries.contains(self.entries@[t]));
                        assert(f(self.entries@[t]));
                        assert(doomed@.len() == 1 && doomed@[0] == id);
                        if self.entries@[t].owner() == id {
                            assert(doomed@.contains(self.entries@[t].owner()));
                        }
                        assert(has_key(old_view.balances, self.entries@[t].owner()));
                        let q = choose|q: int| 0 <= q < old_view.balances.len() && #[trigger] old_view.balances[q].key() == self.entries@[t].owner();
                        assert(q != i);
                        assert(has_key(self.balances@, self.entries@[t].owner()));
                    }
                }
                true
            },
            None => false,
        }
    }

    /// Adds an entry to a balance under the next key. Fails when the balance
    /// does not exist, the amount does not fit its column, or the keys are
    /// used up; the store is then unchanged.
    pub fn add_balance_entry(&mut self, new_entry: NewBalanceEntry) -> (r: Result<
        BalanceEntry,
        DbError,
    >)
        requires
            wf(old(self)@),
        ensures
            wf(final(self)@),
            match r {
                Ok(e) => {
                    &&& has_key(old(self)@.balances, new_entry.balance_id)
                    &&& fits_column(new_entry.amount)
                    &&& e == (BalanceEntry {
                        id: old(self)@.next_entry_id,
                        balance_id: new_entry.balance_id,
                        raw_currency: new_entry.raw_currency,
                        amount: new_entry.amount,
                    })
                    &&& final(self)@ == (StoreView {
                        entries: old(self)@.entries.push(e),
                        next_entry_id: (old(self)@.next_entry_id + 1) as i32,
                        ..old(self)@
                    })
                },
                Err(err) => {
                    &&& final(self)@ == old(self)@
                    &&& err == if !has_key(old(self)@.balances, new_entry.balance_id) {
                        DbError::ForeignKeyViolation
                    } else if !fits_column(new_entry.amount) {
                        DbError::NumericOverflow
                    } else {
                        DbError::IdsExhausted
                    }
                    &&& err == DbError::IdsExhausted ==> old(self)@.next_entry_id == i32::MAX
                },
            },
    {
        if index_of(&self.balances, new_entry.balance_id).is_none() {
            return Err(DbError::ForeignKeyViolation);
        }
        if !new_entry.amount.fits() {
            return Err(DbError::NumericOverflow);
        }
        if self.next_entry_id == i32::MAX {
            return Err(DbError::IdsExhausted);
        }
        let e = BalanceEntry {
            id: self.next_entry_id,
            balance_id: new_entry.balance_id,
            raw_currency: new_entry.raw_currency,
            amount: new_entry.amount,
        };
        let ghost before = self.entries@;
        self.entries.push(e.dup());
        proof {
            lemma_push_keyed(before, e, self.next_entry_id);
            lemma_owners_push(before, e, self.balances@);
            assert forall|k: int| 0 <= k < self.entries@.len() implies fits_column(
                #[trigger] self.entries@[k].amount,
            ) by {
                if k < before.len() {
                    assert(self.entries@[k] == before[k]);
                }
            }
        }
        self.next_entry_id = self.next_entry_id + 1;
        Ok(e)
    }

    /// Replaces the values of entry `id`. Fails when there is no such entry,
    /// the balance does not exist, or the amount does not fit; the store is
    /// then unchanged.
    pub fn update_balance_entry(&mut self, id: i32, new_entry: NewBalanceEntry) -> (r: Result<
        BalanceEntry,
        DbError,
    >)
        requires
            wf(old(self)@),
        ensures
            wf(final(self)@),
            match r {
                Ok(e) => {
                    &&& e == (BalanceEntry {
                        id,
                        balance_id: new_entry.balance_id,
                        raw_currency: new_entry.raw_currency,
                        amount: new_entry.amount,
                    })
                    &&& has_key(old(self)@.balances, new_entry.balance_id)
                    &&& fits_column(new_entry.amount)
                    &&& exists|i: int|
                        0 <= i < old(self)@.entries.len() && #[trigger] old(self)@.entries[i].id
                            == id && final(self)@ == (StoreView {
                            entries: old(self)@.entries.update(i, e),
                            ..old(self)@
                        })
                },
                Err(err) => {
                    &&& final(self)@ == old(self)@
                    &&& err == if !has_key(old(self)@.entries, id) {
                        DbError::RecordNotFound
                    } else if !has_key(old(self)@.balances, new_entry.balance_id) {
                        DbError::ForeignKeyViolation
                    } else {
                        DbError::NumericOverflow
                    }
                    &&& err == DbError::NumericOverflow ==> !fits_column(new_entry.amount)
                },
            },
    {
        let i = match index_of(&self.entries, id) {
            Some(i) => i,
            None => {
                return Err(DbError::RecordNotFound);
            },
        };
        if index_of(&self.balances, new_entry.balance_id).is_none() {
            return Err(DbError::ForeignKeyViolation);
        }
        if !new_entry.amount.fits() {
            return Err(DbError::NumericOverflow);
        }
        let e = BalanceEntry {
            id,
            balance_id: new_entry.balance_id,
            raw_currency: new_entry.raw_currency,
            amount: new_entry.amount,
        };
        let ghost before = self.entries@;
        self.entries.set(i, e.dup());
        proof {
            lemma_update_keyed(before, i as int, e, self.next_entry_id);
            lemma_owners_update(before, i as int, e, self.balances@);
            assert(self.entries@ == before.update(i as int, e));
            assert forall|k: int| 0 <= k < self.entries@.len() implies fits_column(
                #[trigger] self.entries@[k].amount,
            ) by {
                if k != i {
                    assert(self.entries@[k] == before[k]);
                }
            }
        }
        Ok(e)
    }

    /// Deletes entry `id`; returns whether it existed.
    pub fn delete_balance_entry(&mut self, id: i32) -> (r: bool)
        requires
            wf(old(self)@),
        ensures
            wf(final(self)@),
            r == has_key(old(self)@.entries, id),
            !r ==> final(self)@ == old(self)@,
            r ==> exists|i: int|
                0 <= i < old(self)@.entries.len() && #[trigger] old(self)@.entries[i].id == id
                    && final(self)@ == (StoreView {
                    entries: old(self)@.entries.remove(i),
                    ..old(self)@
                }),
    {
        match index_of(&self.entries, id) {
            Some(i) => {
                let ghost before = self.entries@;
                self.entries.remove(i);
                proof {
                    lemma_remove_keyed(before, i as int, self.next_entry_id);
                    lemma_owners_remove(before, i as int, self.balances@);
                    assert forall|k: int| 0 <= k < self.entries@.len() implies fits_column(
                        #[trigger] self.entries@[k].amount,
                    ) by {
                        let sk = if k < i { k } else { k + 1 };
                        assert(self.entries@[k] == before[sk]);
                    }
                }
                true
            },
            None => false,
        }
    }

    /// The provider ranks of wallet `wallet_id`, lowest priority first.
    pub fn get_balance_priorities(&self, wallet_id: i32) -> (r: Vec<BalancePriority>)
        ensures
            sorted_by_rank(r@),
            r@.to_multiset() == self@.balance_priorities.filter(
                |x: BalancePriority| x.owner() == wallet_id,
            ).to_multiset(),
    {
        sort_by_rank(owned_by(&self.balance_priorities, wallet_id))
    }

    /// Ranks a provider for a wallet's balances, under the next key. Fails
    /// when the wallet does not exist or the keys are used up; the store is
    /// then unchanged.
    pub fn set_balance_priority(&mut self, new_priority: NewBalancePriority) -> (r: Result<
        BalancePriority,
        DbError,
    >)
        requires
            wf(old(self)@),
        ensures
            wf(final(self)@),
            match r {
                Ok(p) => {
                    &&& has_key(old(self)@.wallets, new_priority.wallet_id)
                    &&& p == (BalancePriority {
                        id: old(self)@.next_balance_priority_id,
                        wallet_id: new_priority.wallet_id,
                        provider: new_priority.provider,
                        priority: new_priority.priority,
                    })
                    &&& final(self)@ == (StoreView {
                        balance_priorities: old(self)@.balance_priorities.push(p),
                        next_balance_priority_id: (old(self)@.next_balance_priority_id + 1) as i32,
                        ..old(self)@
                    })
                },
                Err(e) => {
                    &&& final(self)@ == old(self)@
                    &&& e == if !has_key(old(self)@.wallets, new_priority.wallet_id) {
                        DbError::ForeignKeyViolation
                    } else {
                        DbError::IdsExhausted
                    }
                    &&& e == DbError::IdsExhausted ==> old(self)@.next_balance_priority_id
                        == i32::MAX
                },
            },
    {
        if index_of(&self.wallets, new_priority.wallet_id).is_none() {
            return Err(DbError::ForeignKeyViolation);
        }
        if self.next_balance_priority_id == i32::MAX {
            return Err(DbError::IdsExhausted);
        }
        let p = BalancePriority {
            id: self.next_balance_priority_id,
            wallet_id: new_priority.wallet_id,
            provider: new_priority.provider,
            priority: new_priority.priority,
        };
        let ghost before = self.balance_priorities@;
        self.balance_priorities.push(p);
        proof {
            lemma_push_keyed(before, p, self.next_balance_priority_id);
            lemma_owners_push(before, p, self.wallets@);
        }
        self.next_balance_priority_id = self.next_balance_priority_id + 1;
        Ok(p)
    }

    /// Replaces the values of rank `id`. Fails when there is no such rank or
    /// the wallet does not exist; the store is then unchanged.
    pub fn update_balance_priority(&mut self, id: i32, new_priority: NewBalancePriority) -> (r:
        Result<BalancePriority, DbError>)
        requires
            wf(old(self)@),
        ensures
            wf(final(self)@),
            match r {
                Ok(p) => {
                    &&& p == (BalancePriority {
                        id,
                        wallet_id: new_priority.wallet_id,
                        provider: new_priority.provider,
                        priority: new_priority.priority,
                    })
                    &&& has_key(old(self)@.wallets, new_priority.wallet_id)
                    &&& exists|i: int|
                        0 <= i < old(self)@.balance_priorities.len()
                            && #[trigger] old(self)@.balance_priorities[i].id == id && final(self)@
                            == (StoreView {
                            balance_priorities: old(self)@.balance_priorities.update(i, p),
                            ..old(self)@
                        })
                },
                Err(e) => {
                    &&& final(self)@ == old(self)@
                    &&& e == if !has_key(old(self)@.balance_priorities, id) {
                        DbError::RecordNotFound
                    } else {
                        DbError::ForeignKeyViolation
                    }
                    &&& e == DbError::ForeignKeyViolation ==> !has_key(
                        old(self)@.wallets,
                        new_priority.wallet_id,
                    )
                },
            },
    {
        let i = match index_of(&self.balance_priorities, id) {
            Some(i) => i,
            None => {
                return Err(DbError::RecordNotFound);
            },
        };
        if index_of(&self.wallets, new_priority.wallet_id).is_none() {
            return Err(DbError::ForeignKeyViolation);
        }
        let p = BalancePriority {
            id,
            wallet_id: new_priority.wallet_id,
            provider: new_priority.provider,
            priority: new_priority.priority,
        };
        let ghost before = self.balance_priorities@;
        self.balance_priorities.set(i, p);
        proof {
            lemma_update_keyed(before, i as int, p, self.next_balance_priority_id);
            lemma_owners_update(before, i as int, p, self.wallets@);
        }
        Ok(p)
    }

    /// Deletes rank `id`; returns whether it existed.
    pub fn delete_balance_priority(&mut self, id: i32) -> (r: bool)
        requires
            wf(old(self)@),
        ensures
            wf(final(self)@),
            r == has_key(old(self)@.balance_priorities, id),
            !r ==> final(self)@ == old(self)@,
            r ==> exists|i: int|
                0 <= i < old(self)@.balance_priorities.len()
                    && #[trigger] old(self)@.balance_priorities[i].id == id && final(self)@ == (
                StoreView { balance_priorities: old(self)@.balance_priorities.remove(i), ..old(self)@ }),
    {
        match index_of(&self.balance_priorities, id) {
            Some(i) => {
                let ghost before = self.balance_priorities@;
                self.balance_priorities.remove(i);
                proof {
                    lemma_remove_keyed(before, i as int, self.next_balance_priority_id);
                    lemma_owners_remove(before, i as int, self.wallets@);
                }
                true
            },
            None => false,
        }
    }

    fn currency_index(&self, name: &str) -> (r: Option<usize>)
        ensures
            match r {
                Some(i) => i < self@.currencies.len() && self@.currencies[i as int].name@ == name@,
                None => !has_currency(self@.currencies, name@),
            },
    {
        let mut i: usize = 0;
        while i < self.currencies.len()
            invariant
                i <= self@.currencies.len(),
                forall|j: int| 0 <= j < i ==> #[trigger] self@.currencies[j].name@ != name@,
            decreases self@.currencies.len() - i,
        {
            if same_text(self.currencies[i].name.as_str(), name) {
                return Some(i);
            }
            i = i + 1;
        }
        None
    }

    fn mapping_index(&self, scope: AssetScope, raw: &str, skip: usize) -> (r: Option<usize>)
        ensures
            match r {
                Some(i) => i < self@.currency_maps.len() && i != skip && self@.currency_maps[i as int].scope
                    == scope && self@.currency_maps[i as int].raw_currency@ == raw@,
                None => !has_other_mapping(self@.currency_maps, skip as int, scope, raw@),
            },
    {
        let mut i: usize = 0;
        while i < self.currency_maps.len()
            invariant
                i <= self@.currency_maps.len(),
                forall|j: int|
                    0 <= j < i && j != skip ==> !(#[trigger] self@.currency_maps[j].scope == scope
                        && self@.currency_maps[j].raw_currency@ == raw@),
            decreases self@.currency_maps.len() - i,
        {
            if i != skip && self.currency_maps[i].scope == scope && same_text(
                self.currency_maps[i].raw_currency.as_str(),
                raw,
            ) {
                return Some(i);
            }
            i = i + 1;
        }
        None
    }

    /// All currencies, in table order.
    pub fn get_currencies(&self) -> (r: Vec<Currency>)
        ensures
            r@ == self@.currencies,
    {
        let mut out: Vec<Currency> = Vec::new();
        let mut i: usize = 0;
        while i < self.currencies.len()
            invariant
                i <= self@.currencies.len(),
                out@ == self@.currencies.subrange(0, i as int),
            decreases self@.currencies.len() - i,
        {
            out.push(Currency { name: self.currencies[i].name.clone() });
            i = i + 1;
            assert(out@ =~= self@.currencies.subrange(0, i as int));
        }
        assert(self@.currencies.subrange(0, self@.currencies.len() as int) =~= self@.currencies);
        out
    }

    /// The currency named `name`.
    pub fn get_currency_by_name(&self, name: &str) -> (r: Option<Currency>)
        ensures
            match r {
                Some(c) => c.name@ == name@ && self@.currencies.contains(c),
                None => !has_currency(self@.currencies, name@),
            },
    {
        match self.currency_index(name) {
            Some(i) => {
                let c = Currency { name: self.currencies[i].name.clone() };
                assert(self@.currencies[i as int] == c);
                Some(c)
            },
            None => None,
        }
    }

    /// Creates a currency. Fails when the name is taken; the store is then
    /// unchanged.
    pub fn create_currency(&mut self, new_currency: NewCurrency) -> (r: Result<Currency, DbError>)
        requires
            wf(old(self)@),
        ensures
            wf(final(self)@),
            match r {
                Ok(c) => {
                    &&& !has_currency(old(self)@.currencies, new_currency.name@)
                    &&& c == (Currency { name: new_currency.name })
                    &&& final(self)@ == (StoreView {
                        currencies: old(self)@.currencies.push(c),
                        ..old(self)@
                    })
                },
                Err(e) => {
                    &&& final(self)@ == old(self)@
                    &&& e == DbError::UniqueViolation
                    &&& has_currency(old(self)@.currencies, new_currency.name@)
                },
            },
    {
        if self.currency_index(new_currency.name.as_str()).is_some() {
            return Err(DbError::UniqueViolation);
        }
        let c = Currency { name: new_currency.name };
        let ghost before = self.currencies@;
        self.currencies.push(Currency { name: c.name.clone() });
        proof {
            let after = self.currencies@;
            assert(after[before.len() as int] == c);
            assert forall|i: int| 0 <= i < before.len() implies #[trigger] after[i] == before[i] by {}
            assert forall|n: Seq<char>| has_currency(before, n) implies has_currency(after, n) by {
                let i = choose|i: int| 0 <= i < before.len() && #[trigger] before[i].name@ == n;
                assert(after[i].name@ == n);
            }
            assert forall|i: int, j: int|
                0 <= i < after.len() && 0 <= j < after.len() && i != j implies #[trigger] after[i].name@
                != #[trigger] after[j].name@ by {
                if i == before.len() {
                    assert(before[j].name@ != c.name@);
                } else if j == before.len() {
                    assert(before[i].name@ != c.name@);
                }
            }
        }
        Ok(c)
    }

    /// Deletes currency `name` with the mappings and provider ranks that
    /// refer to it; returns whether it existed.
    pub fn delete_currency(&mut self, name: &str) -> (r: bool)
        requires
            wf(old(self)@),
        ensures
            wf(final(self)@),
            r == has_currency(old(self)@.currencies, name@),
            !r ==> final(self)@ == old(self)@,
            r ==> exists|i: int|
                0 <= i < old(self)@.currencies.len() && #[trigger] old(self)@.currencies[i].name@
                    == name@ && final(self)@ == (StoreView {
                    currencies: old(self)@.currencies.remove(i),
                    currency_maps: old(self)@.currency_maps.filter(
                        |m: CurrencyMap| m.currency@ != name@,
                    ),
                    price_providers: old(self)@.price_providers.filter(
                        |p: PriceProvider| p.currency@ != name@,
                    ),
                    ..old(self)@
                }),
    {
        let i = match self.currency_index(name) {
            Some(i) => i,
            None => {
                return false;
            },
        };
        let ghost ov = self@;
        self.currencies.remove(i);
        self.currency_maps = not_of_currency(&self.currency_maps, name);
        self.price_providers = not_of_currency(&self.price_providers, name);
        proof {
            let nv = self@;
            let fm = |x: CurrencyMap| x.currency_name() != name@;
            let fp = |x: PriceProvider| x.currency_name() != name@;
            lemma_filter_congruent(ov.currency_maps, fm, |m: CurrencyMap| m.currency@ != name@);
            lemma_filter_congruent(ov.price_providers, fp, |p: PriceProvider| p.currency@ != name@);
            lemma_filter_keys(ov.currency_maps, fm, ov.next_currency_map_id);
            lemma_filter_keys(ov.price_providers, fp, ov.next_price_provider_id);
            lemma_filter_members(ov.currency_maps, fm);
            lemma_filter_members(ov.price_providers, fp);
            let cs = ov.currencies;
            assert forall|t: int| 0 <= t < nv.currencies.len() implies #[trigger] nv.currencies[t] == if t < i {
                cs[t]
            } else {
                cs[t + 1]
            } by {}
            assert forall|n: Seq<char>| has_currency(cs, n) && n != name@ implies has_currency(
                nv.currencies,
                n,
            ) by {
                let j = choose|j: int| 0 <= j < cs.len() && #[trigger] cs[j].name@ == n;
                if j < i {
                    assert(nv.currencies[j].name@ == n);
                } else {
                    assert(j != i);
                    assert(nv.currencies[j - 1].name@ == n);
                }
            }
            assert forall|a: int, b: int|
                0 <= a < nv.currencies.len() && 0 <= b < nv.currencies.len() && a != b implies #[trigger] nv.currencies[a].name@
                != #[trigger] nv.currencies[b].name@ by {
                let sa = if a < i { a } else { a + 1 };
                let sb = if b < i { b } else { b + 1 };
                assert(cs[sa].name@ != cs[sb].name@);
            }
            assert forall|t: int| 0 <= t < nv.currency_maps.len() implies has_currency(
                nv.currencies,
                #[trigger] nv.currency_maps[t].currency@,
            ) by {
                assert(ov.currency_maps.contains(nv.currency_maps[t]));
                let q = choose|q: int| 0 <= q < ov.currency_maps.len() && ov.currency_maps[q] == nv.currency_maps[t];
                assert(has_currency(cs, ov.currency_maps[q].currency@));
                assert(fm(nv.currency_maps[t]));
            }
            assert forall|t: int| 0 <= t < nv.price_providers.len() implies has_currency(
                nv.currencies,
                #[trigger] nv.price_providers[t].currency@,
            ) by {
                assert(ov.price_providers.contains(nv.price_providers[t]));
                let q = choose|q: int|
                    0 <= q < ov.price_providers.len() && ov.price_providers[q] == nv.price_providers[t];
                assert(has_currency(cs, ov.price_providers[q].currency@));
                assert(fp(nv.price_providers[t]));
            }
            assert forall|a: int, b: int|
                0 <= a < nv.currency_maps.len() && 0 <= b < nv.currency_maps.len() && a != b implies !(
                #[trigger] nv.currency_maps[a].scope == #[trigger] nv.currency_maps[b].scope
                    && nv.currency_maps[a].raw_currency@ == nv.currency_maps[b].raw_currency@) by {
                assert(ov.currency_maps.contains(nv.currency_maps[a]));
                assert(ov.currency_maps.contains(nv.currency_maps[b]));
                let qa = choose|q: int| 0 <= q < ov.currency_maps.len() && ov.currency_maps[q] == nv.currency_maps[a];
                let qb = choose|q: int| 0 <= q < ov.currency_maps.len() && ov.currency_maps[q] == nv.currency_maps[b];
                if qa == qb {
                    assert(nv.currency_maps[a].key() == nv.currency_maps[b].key());
                }
            }
        }
        true
    }

    /// The mappings of `scope`, in table order.
    pub fn get_currency_mappings_by_scope(&self, scope: AssetScope) -> (r: Vec<CurrencyMap>)
        ensures
            r@ == self@.currency_maps.filter(|m: CurrencyMap| m.scope == scope),
    {
        let ghost f = |m: CurrencyMap| m.scope == scope;
        let mut out: Vec<CurrencyMap> = Vec::new();
        let mut i: usize = 0;
        while i < self.currency_maps.len()
            invariant
                i <= self@.currency_maps.len(),
                f == (|m: CurrencyMap| m.scope == scope),
                out@ == self@.currency_maps.subrange(0, i as int).filter(f),
            decreases self@.currency_maps.len() - i,
        {
            proof {
                crate::rows::lemma_filter_step(self@.currency_maps, f, i as int);
            }
            if self.currency_maps[i].scope == scope {
                out.push(self.currency_maps[i].dup());
            }
            i = i + 1;
        }
        assert(self@.currency_maps.subrange(0, self@.currency_maps.len() as int) =~= self@.currency_maps);
        out
    }

    /// The mapping of `raw_currency` in `scope`, if any.
    pub fn get_currency_mapping(&self, scope: AssetScope, raw_currency: &str) -> (r: Option<CurrencyMap>)
        ensures
            match r {
                Some(m) => self@.currency_maps.contains(m) && m.scope == scope && m.raw_currency@
                    == raw_currency@,
                None => !has_mapping(self@.currency_maps, scope, raw_currency@),
            },
    {
        match self.mapping_index(scope, raw_currency, self.currency_maps.len()) {
            Some(i) => {
                let m = self.currency_maps[i].dup();
                assert(self@.currency_maps[i as int] == m);
                Some(m)
            },
            None => {
                proof {
                    if has_mapping(self@.currency_maps, scope, raw_currency@) {
                        let j = choose|j: int|
                            0 <= j < self@.currency_maps.len() && #[trigger] self@.currency_maps[j].scope
                                == scope && self@.currency_maps[j].raw_currency@ == raw_currency@;
                        assert(has_other_mapping(
                            self@.currency_maps,
                            self@.currency_maps.len() as int,
                            scope,
                            raw_currency@,
                        ));
                    }
                }
                None
            },
        }
    }

    /// The canonical name of `raw_currency` in `scope`. A symbol with no
    /// mapping is `Unmapped`: no name is ever guessed.
    pub fn resolve(&self, scope: AssetScope, raw_currency: &str) -> (r: Result<String, ReconcileError>)
        requires
            wf(self@),
        ensures
            match r {
                Ok(name) => exists|i: int|
                    0 <= i < self@.currency_maps.len() && #[trigger] self@.currency_maps[i].scope == scope
                        && self@.currency_maps[i].raw_currency@ == raw_currency@ && name@
                        == self@.currency_maps[i].currency@,
                Err(e) => e == ReconcileError::Unmapped && !has_mapping(
                    self@.currency_maps,
                    scope,
                    raw_currency@,
                ),
            },
            r is Err <==> !has_mapping(self@.currency_maps, scope, raw_currency@),
    {
        match self.get_currency_mapping(scope, raw_currency) {
            Some(m) => Ok(m.currency),
            None => Err(ReconcileError::Unmapped),
        }
    }

    /// All mappings, in table order.
    pub fn get_all_currency_mappings(&self) -> (r: Vec<CurrencyMap>)
        ensures
            r@ == self@.currency_maps,
    {
        copy_all(&self.currency_maps)
    }

    /// Maps a raw symbol in a scope to a currency, under the next key. Fails
    /// when the currency does not exist, the symbol is already mapped in that
    /// scope, or the keys are used up; the store is then unchanged.
    pub fn create_currency_mapping(&mut self, new_mapping: NewCurrencyMap) -> (r: Result<
        CurrencyMap,
        DbError,
    >)
        requires
            wf(old(self)@),
        ensures
            wf(final(self)@),
            match r {
                Ok(m) => {
                    &&& has_currency(old(self)@.currencies, new_mapping.currency@)
                    &&& !has_mapping(old(self)@.currency_maps, new_mapping.scope, new_mapping.raw_currency@)
                    &&& m == (CurrencyMap {
                        id: old(self)@.next_currency_map_id,
                        scope: new_mapping.scope,
                        raw_currency: new_mapping.raw_currency,
                        currency: new_mapping.currency,
                    })
                    &&& final(self)@ == (StoreView {
                        currency_maps: old(self)@.currency_maps.push(m),
                        next_currency_map_id: (old(self)@.next_currency_map_id + 1) as i32,
                        ..old(self)@
                    })
                },
                Err(e) => {
                    &&& final(self)@ == old(self)@
                    &&& e == if !has_currency(old(self)@.currencies, new_mapping.currency@) {
                        DbError::ForeignKeyViolation
                    } else if has_mapping(
                        old(self)@.currency_maps,
                        new_mapping.scope,
                        new_mapping.raw_currency@,
                    ) {
                        DbError::UniqueViolation
                    } else {
                        DbError::IdsExhausted
                    }
                    &&& e == DbError::IdsExhausted ==> old(self)@.next_currency_map_id == i32::MAX
                },
            },
    {
        let ci = match self.currency_index(new_mapping.currency.as_str()) {
            Some(ci) => ci,
            None => {
                return Err(DbError::ForeignKeyViolation);
            },
        };
        if self.get_currency_mapping(new_mapping.scope, new_mapping.raw_currency.as_str()).is_some() {
            return Err(DbError::UniqueViolation);
        }
        if self.next_currency_map_id == i32::MAX {
            return Err(DbError::IdsExhausted);
        }
        let m = CurrencyMap {
            id: self.next_currency_map_id,
            scope: new_mapping.scope,
            raw_currency: new_mapping.raw_currency,
            currency: new_mapping.currency,
        };
        let ghost before = self.currency_maps@;
        self.currency_maps.push(m.dup());
        proof {
            lemma_push_keyed(before, m, self.next_currency_map_id);
            let after = self.currency_maps@;
            assert(after[before.len() as int] == m);
            assert forall|i: int| 0 <= i < before.len() implies #[trigger] after[i] == before[i] by {}
            assert forall|t: int| 0 <= t < after.len() implies has_currency(
                self.currencies@,
                #[trigger] after[t].currency@,
            ) by {
                if t < before.len() {
                    assert(after[t] == before[t]);
                    assert(has_currency(old(self)@.currencies, before[t].currency@));
                } else {
                    assert(after[t] == m);
                    assert(self.currencies@[ci as int].name@ == m.currency@);
                    assert(0 <= ci < self.currencies@.len());
                }
            }
            assert forall|a: int, b: int|
                0 <= a < after.len() && 0 <= b < after.len() && a != b implies !(
                #[trigger] after[a].scope == #[trigger] after[b].scope && after[a].raw_currency@
                    == after[b].raw_currency@) by {
                if a == before.len() && after[a].scope == after[b].scope && after[a].raw_currency@ == after[b].raw_currency@ {
                    assert(before[b].scope == m.scope);
                }
                if b == before.len() && after[a].scope == after[b].scope && after[a].raw_currency@ == after[b].raw_currency@ {
                    assert(before[a].scope == m.scope);
                }
            }
        }
        self.next_currency_map_id = self.next_currency_map_id + 1;
        Ok(m)
    }

    /// Replaces the values of mapping `id`. Fails when there is no such
    /// mapping, the currency does not exist, or another mapping already maps
    /// the symbol in that scope; the store is then unchanged.
    pub fn update_currency_mapping(&mut self, id: i32, new_mapping: NewCurrencyMap) -> (r: Result<
        CurrencyMap,
        DbError,
    >)
        requires
            wf(old(self)@),
        ensures
            wf(final(self)@),
            match r {
                Ok(m) => {
                    &&& m == (CurrencyMap {
                        id,
                        scope: new_mapping.scope,
                        raw_currency: new_mapping.raw_currency,
                        currency: new_mapping.currency,
                    })
                    &&& has_currency(old(self)@.currencies, new_mapping.currency@)
                    &&& exists|i: int|
                        0 <= i < old(self)@.currency_maps.len() && #[trigger] old(self)@.currency_maps[i].id
                            == id && !has_other_mapping(
                            old(self)@.currency_maps,
                            i,
                            new_mapping.scope,
                            new_mapping.raw_currency@,
                        ) && final(self)@ == (StoreView {
                            currency_maps: old(self)@.currency_maps.update(i, m),
                            ..old(self)@
                        })
                },
                Err(e) => {
                    &&& final(self)@ == old(self)@
                    &&& e == if !has_key(old(self)@.currency_maps, id) {
                        DbError::RecordNotFound
                    } else if !has_currency(old(self)@.currencies, new_mapping.currency@) {
                        DbError::ForeignKeyViolation
                    } else {
                        DbError::UniqueViolation
                    }
                },
            },
    {
        let i = match index_of(&self.currency_maps, id) {
            Some(i) => i,
            None => {
                return Err(DbError::RecordNotFound);
            },
        };
        let ci = match self.currency_index(new_mapping.currency.as_str()) {
            Some(ci) => ci,
            None => {
                return Err(DbError::ForeignKeyViolation);
            },
        };
        if self.mapping_index(new_mapping.scope, new_mapping.raw_currency.as_str(), i).is_some() {
            return Err(DbError::UniqueViolation);
        }
        let m = CurrencyMap {
            id,
            scope: new_mapping.scope,
            raw_currency: new_mapping.raw_currency,
            currency: new_mapping.currency,
        };
        let ghost before = self.currency_maps@;
        self.currency_maps.set(i, m.dup());
        proof {
            lemma_update_keyed(before, i as int, m, self.next_currency_map_id);
            let after = self.currency_maps@;
            assert(after == before.update(i as int, m));
            assert forall|t: int| 0 <= t < after.len() implies has_currency(
                self.currencies@,
                #[trigger] after[t].currency@,
            ) by {
                if t != i {
                    assert(after[t] == before[t]);
                    assert(has_currency(old(self)@.currencies, before[t].currency@));
                } else {
                    assert(after[t] == m);
                    assert(self.currencies@[ci as int].name@ == m.currency@);
                    assert(0 <= ci < self.currencies@.len());
                }
            }
            assert forall|a: int, b: int|
                0 <= a < after.len() && 0 <= b < after.len() && a != b implies !(
                #[trigger] after[a].scope == #[trigger] after[b].scope && after[a].raw_currency@
                    == after[b].raw_currency@) by {
                if a == i && after[a].scope == after[b].scope && after[a].raw_currency@ == after[b].raw_currency@ {
                    assert(before[b].scope == m.scope);
                }
                if b == i && after[a].scope == after[b].scope && after[a].raw_currency@ == after[b].raw_currency@ {
                    assert(before[a].scope == m.scope);
                }
            }
        }
        Ok(m)
    }

    /// Deletes mapping `id`; returns whether it existed.
    pub fn delete_currency_mapping(&mut self, id: i32) -> (r: bool)
        requires
            wf(old(self)@),
        ensures
            wf(final(self)@),
            r == has_key(old(self)@.currency_maps, id),
            !r ==> final(self)@ == old(self)@,
            r ==> exists|i: int|
                0 <= i < old(self)@.currency_maps.len() && #[trigger] old(self)@.currency_maps[i].id
                    == id && final(self)@ == (StoreView {
                    currency_maps: old(self)@.currency_maps.remove(i),
                    ..old(self)@
                }),
    {
        match index_of(&self.currency_maps, id) {
            Some(i) => {
                let ghost before = self.currency_maps@;
                self.currency_maps.remove(i);
                proof {
                    lemma_remove_keyed(before, i as int, self.next_currency_map_id);
                    let after = self.currency_maps@;
                    assert forall|t: int| 0 <= t < after.len() implies #[trigger] after[t] == if t < i {
                        before[t]
                    } else {
                        before[t + 1]
                    } by {}
                    assert forall|t: int| 0 <= t < after.len() implies has_currency(
                        self.currencies@,
                        #[trigger] after[t].currency@,
                    ) by {
                        let st = if t < i { t } else { t + 1 };
                        assert(after[t] == before[st]);
                    }
                    assert forall|a: int, b: int|
                        0 <= a < after.len() && 0 <= b < after.len() && a != b implies !(
                        #[trigger] after[a].scope == #[trigger] after[b].scope && after[a].raw_currency@
                            == after[b].raw_currency@) by {
                        let sa = if a < i { a } else { a + 1 };
                        let sb = if b < i { b } else { b + 1 };
                        assert(after[a] == before[sa] && after[b] == before[sb]);
                    }
                }
                true
            },
            None => false,
        }
    }

    /// The price with key `id`.
    pub fn get_price_by_id(&self, id: i32) -> (r: Option<Price>)
        ensures
            match r {
                Some(p) => p.id == id && self@.prices.contains(p),
                None => !has_key(self@.prices, id),
            },
    {
        find_by_key(&self.prices, id)
    }

    /// The prices of `currency`, latest first.
    pub fn get_prices_by_currency(&self, currency: &str) -> (r: Vec<Price>)
        ensures
            sorted_by_rank_desc(r@),
            r@.to_multiset() == self@.prices.filter(|x: Price| x.currency_name() == currency@).to_multiset(),
    {
        let found = of_currency(&self.prices, currency);
        let ascending = sort_by_rank(found);
        let r = reversed(ascending);
        proof {
            ascending@.lemma_reverse_to_multiset();
            assert forall|i: int, j: int| 0 <= i < j < r@.len() implies #[trigger] r@[i].rank() >= #[trigger] r@[j].rank() by {
                let n = ascending@.len();
                assert(r@[i] == ascending@[n - 1 - i]);
                assert(r@[j] == ascending@[n - 1 - j]);
            }
        }
        r
    }

    /// The latest price of `currency`, if it has any.
    pub fn get_latest_price(&self, currency: &str) -> (r: Option<Price>)
        ensures
            match r {
                Some(p) => self@.prices.contains(p) && p.currency@ == currency@ && forall|i: int|
                    0 <= i < self@.prices.len() && #[trigger] self@.prices[i].currency@ == currency@
                        ==> self@.prices[i].time <= p.time,
                None => forall|i: int|
                    0 <= i < self@.prices.len() ==> #[trigger] self@.prices[i].currency@ != currency@,
            },
    {
        let mut best: Option<usize> = None;
        let mut i: usize = 0;
        while i < self.prices.len()
            invariant
                i <= self@.prices.len(),
                match best {
                    None => forall|j: int| 0 <= j < i ==> #[trigger] self@.prices[j].currency@ != currency@,
                    Some(b) => b < i && self@.prices[b as int].currency@ == currency@ && forall|j: int|
                        0 <= j < i && #[trigger] self@.prices[j].currency@ == currency@
                            ==> self@.prices[j].time <= self@.prices[b as int].time,
                },
            decreases self@.prices.len() - i,
        {
            if same_text(self.prices[i].currency.as_str(), currency) {
                match best {
                    None => {
                        best = Some(i);
                    },
                    Some(b) => {
                        if self.prices[i].time > self.prices[b].time {
                            best = Some(i);
                        }
                    },
                }
            }
            i = i + 1;
        }
        match best {
            None => None,
            Some(b) => {
                let p = self.prices[b].dup();
                assert(self@.prices[b as int] == p);
                Some(p)
            },
        }
    }

    /// The prices of `currency` at times from `start_time` to `end_time`
    /// inclusive, earliest first.
    pub fn get_prices_by_currency_and_time_range(&self, currency: &str, start_time: i128, end_time: i128) -> (r: Vec<Price>)
        ensures
            sorted_by_rank(r@),
            r@.to_multiset() == self@.prices.filter(
                |x: Price| x.currency@ == currency@ && start_time <= x.time <= end_time,
            ).to_multiset(),
    {
        let ghost f = |x: Price| x.currency@ == currency@ && start_time <= x.time <= end_time;
        let mut out: Vec<Price> = Vec::new();
        let mut i: usize = 0;
        while i < self.prices.len()
            invariant
                i <= self@.prices.len(),
                f == (|x: Price| x.currency@ == currency@ && start_time <= x.time <= end_time),
                out@ == self@.prices.subrange(0, i as int).filter(f),
            decreases self@.prices.len() - i,
        {
            proof {
                crate::rows::lemma_filter_step(self@.prices, f, i as int);
            }
            if same_text(self.prices[i].currency.as_str(), currency) && start_time <= self.prices[i].time
                && self.prices[i].time <= end_time {
                out.push(self.prices[i].dup());
            }
            i = i + 1;
        }
        assert(self@.prices.subrange(0, self@.prices.len() as int) =~= self@.prices);
        sort_by_rank(out)
    }

    /// Records a price under the next key. Fails when the value or the
    /// liquidity does not fit its column or the keys are used up; the store
    /// is then unchanged.
    pub fn create_price(&mut self, new_price: NewPrice) -> (r: Result<Price, DbError>)
        requires
            wf(old(self)@),
        ensures
            wf(final(self)@),
            match r {
                Ok(p) => {
                    &&& fits_column(new_price.value) && fits_column(new_price.liquidity)
                    &&& p == (Price {
                        id: old(self)@.next_price_id,
                        currency: new_price.currency,
                        time: new_price.time,
                        value: new_price.value,
                        liquidity: new_price.liquidity,
                        provider: new_price.provider,
                    })
                    &&& final(self)@ == (StoreView {
                        prices: old(self)@.prices.push(p),
                        next_price_id: (old(self)@.next_price_id + 1) as i32,
                        ..old(self)@
                    })
                },
                Err(e) => {
                    &&& final(self)@ == old(self)@
                    &&& e == if !(fits_column(new_price.value) && fits_column(new_price.liquidity)) {
                        DbError::NumericOverflow
                    } else {
                        DbError::IdsExhausted
                    }
                    &&& e == DbError::IdsExhausted ==> old(self)@.next_price_id == i32::MAX
                },
            },
    {
        if !(new_price.value.fits() && new_price.liquidity.fits()) {
            return Err(DbError::NumericOverflow);
        }
        if self.next_price_id == i32::MAX {
            return Err(DbError::IdsExhausted);
        }
        let p = Price {
            id: self.next_price_id,
            currency: new_price.currency,
            time: new_price.time,
            value: new_price.value,
            liquidity: new_price.liquidity,
            provider: new_price.provider,
        };
        let ghost before = self.prices@;
        self.prices.push(p.dup());
        proof {
            lemma_push_keyed(before, p, self.next_price_id);
            assert forall|k: int| 0 <= k < self.prices@.len() implies fits_column(
                #[trigger] self.prices@[k].value,
            ) && fits_column(self.prices@[k].liquidity) by {
                if k < before.len() {
                    assert(self.prices@[k] == before[k]);
                }
            }
        }
        self.next_price_id = self.next_price_id + 1;
        Ok(p)
    }

    /// Replaces the values of price `id`. Fails when there is no such price
    /// or an amount does not fit its column; the store is then unchanged.
    pub fn update_price(&mut self, id: i32, new_price: NewPrice) -> (r: Result<Price, DbError>)
        requires
            wf(old(self)@),
        ensures
            wf(final(self)@),
            match r {
                Ok(p) => {
                    &&& p == (Price {
                        id,
                        currency: new_price.currency,
                        time: new_price.time,
                        value: new_price.value,
                        liquidity: new_price.liquidity,
                        provider: new_price.provider,
                    })
                    &&& fits_column(new_price.value) && fits_column(new_price.liquidity)
                    &&& exists|i: int|
                        0 <= i < old(self)@.prices.len() && #[trigger] old(self)@.prices[i].id == id
                            && final(self)@ == (StoreView {
                            prices: old(self)@.prices.update(i, p),
                            ..old(self)@
                        })
                },
                Err(e) => {
                    &&& final(self)@ == old(self)@
                    &&& e == if !has_key(old(self)@.prices, id) {
                        DbError::RecordNotFound
                    } else {
                        DbError::NumericOverflow
                    }
                    &&& e == DbError::NumericOverflow ==> !(fits_column(new_price.value)
                        && fits_column(new_price.liquidity))
                },
            },
    {
        let i = match index_of(&self.prices, id) {
            Some(i) => i,
            None => {
                return Err(DbError::RecordNotFound);
            },
        };
        if !(new_price.value.fits() && new_price.liquidity.fits()) {
            return Err(DbError::NumericOverflow);
        }
        let p = Price {
            id,
            currency: new_price.currency,
            time: new_price.time,
            value: new_price.value,
            liquidity: new_price.liquidity,
            provider: new_price.provider,
        };
        let ghost before = self.prices@;
        self.prices.set(i, p.dup());
        proof {
            lemma_update_keyed(before, i as int, p, self.next_price_id);
            assert(self.prices@ == before.update(i as int, p));
            assert forall|k: int| 0 <= k < self.prices@.len() implies fits_column(
                #[trigger] self.prices@[k].value,
            ) && fits_column(self.prices@[k].liquidity) by {
                if k != i {
                    assert(self.prices@[k] == before[k]);
                    assert(fits_column(old(self)@.prices[k].value));
                }
            }
        }
        Ok(p)
    }

    /// Deletes price `id`; returns whether it existed.
    pub fn delete_price(&mut self, id: i32) -> (r: bool)
        requires
            wf(old(self)@),
        ensures
            wf(final(self)@),
            r == has_key(old(self)@.prices, id),
            !r ==> final(self)@ == old(self)@,
            r ==> exists|i: int|
                0 <= i < old(self)@.prices.len() && #[trigger] old(self)@.prices[i].id == id
                    && final(self)@ == (StoreView { prices: old(self)@.prices.remove(i), ..old(self)@ }),
    {
        match index_of(&self.prices, id) {
            Some(i) => {
                let ghost before = self.prices@;
                self.prices.remove(i);
                proof {
                    lemma_remove_keyed(before, i as int, self.next_price_id);
                    assert forall|k: int| 0 <= k < self.prices@.len() implies fits_column(
                        #[trigger] self.prices@[k].value,
                    ) && fits_column(self.prices@[k].liquidity) by {
                        let sk = if k < i { k } else { k + 1 };
                        assert(self.prices@[k] == before[sk]);
                    }
                }
                true
            },
            None => false,
        }
    }

    /// The provider ranks of `currency`, lowest priority first.
    pub fn get_price_providers(&self, currency: &str) -> (r: Vec<PriceProvider>)
        ensures
            sorted_by_rank(r@),
            r@.to_multiset() == self@.price_providers.filter(
                |x: PriceProvider| x.currency_name() == currency@,
            ).to_multiset(),
    {
        sort_by_rank(of_currency(&self.price_providers, currency))
    }

    /// Ranks a provider for a currency's prices, under the next key. Fails
    /// when the currency does not exist or the keys are used up; the store
    /// is then unchanged.
    pub fn set_price_provider(&mut self, new_priority: NewPricePriority) -> (r: Result<
        PriceProvider,
        DbError,
    >)
        requires
            wf(old(self)@),
        ensures
            wf(final(self)@),
            match r {
                Ok(p) => {
                    &&& has_currency(old(self)@.currencies, new_priority.currency@)
                    &&& p == (PriceProvider {
                        id: old(self)@.next_price_provider_id,
                        currency: new_priority.currency,
                        provider: new_priority.provider,
                        priority: new_priority.priority,
                    })
                    &&& final(self)@ == (StoreView {
                        price_providers: old(self)@.price_providers.push(p),
                        next_price_provider_id: (old(self)@.next_price_provider_id + 1) as i32,
                        ..old(self)@
                    })
                },
                Err(e) => {
                    &&& final(self)@ == old(self)@
                    &&& e == if !has_currency(old(self)@.currencies, new_priority.currency@) {
                        DbError::ForeignKeyViolation
                    } else {
                        DbError::IdsExhausted
                    }
                    &&& e == DbError::IdsExhausted ==> old(self)@.next_price_provider_id == i32::MAX
                },
            },
    {
        let ci = match self.currency_index(new_priority.currency.as_str()) {
            Some(ci) => ci,
            None => {
                return Err(DbError::ForeignKeyViolation);
            },
        };
        if self.next_price_provider_id == i32::MAX {
            return Err(DbError::IdsExhausted);
        }
        let p = PriceProvider {
            id: self.next_price_provider_id,
            currency: new_priority.currency,
            provider: new_priority.provider,
            priority: new_priority.priority,
        };
        let ghost before = self.price_providers@;
        self.price_providers.push(p.dup());
        proof {
            lemma_push_keyed(before, p, self.next_price_provider_id);
            let after = self.price_providers@;
            assert forall|t: int| 0 <= t < after.len() implies has_currency(
                self.currencies@,
                #[trigger] after[t].currency@,
            ) by {
                if t < before.len() {
                    assert(after[t] == before[t]);
                    assert(has_currency(old(self)@.currencies, before[t].currency@));
                } else {
                    assert(after[t] == p);
                    assert(self.currencies@[ci as int].name@ == p.currency@);
                }
            }
        }
        self.next_price_provider_id = self.next_price_provider_id + 1;
        Ok(p)
    }

    /// Replaces the values of rank `id`. Fails when there is no such rank or
    /// the currency does not exist; the store is then unchanged.
    pub fn update_price_provider(&mut self, id: i32, new_priority: NewPricePriority) -> (r: Result<
        PriceProvider,
        DbError,
    >)
        requires
            wf(old(self)@),
        ensures
            wf(final(self)@),
            match r {
                Ok(p) => {
                    &&& p == (PriceProvider {
                        id,
                        currency: new_priority.currency,
                        provider: new_priority.provider,
                        priority: new_priority.priority,
                    })
                    &&& has_currency(old(self)@.currencies, new_priority.currency@)
                    &&& exists|i: int|
                        0 <= i < old(self)@.price_providers.len()
                            && #[trigger] old(self)@.price_providers[i].id == id && final(self)@ == (
                        StoreView { price_providers: old(self)@.price_providers.update(i, p), ..old(self)@ })
                },
                Err(e) => {
                    &&& final(self)@ == old(self)@
                    &&& e == if !has_key(old(self)@.price_providers, id) {
                        DbError::RecordNotFound
                    } else {
                        DbError::ForeignKeyViolation
                    }
                    &&& e == DbError::ForeignKeyViolation ==> !has_currency(
                        old(self)@.currencies,
                        new_priority.currency@,
                    )
                },
            },
    {
        let i = match index_of(&self.price_providers, id) {
            Some(i) => i,
            None => {
                return Err(DbError::RecordNotFound);
            },
        };
        let ci = match self.currency_index(new_priority.currency.as_str()) {
            Some(ci) => ci,
            None => {
                return Err(DbError::ForeignKeyViolation);
            },
        };
        let p = PriceProvider {
            id,
            currency: new_priority.currency,
            provider: new_priority.provider,
            priority: new_priority.priority,
        };
        let ghost before = self.price_providers@;
        self.price_providers.set(i, p.dup());
        proof {
            lemma_update_keyed(before, i as int, p, self.next_price_provider_id);
            let after = self.price_providers@;
            assert(after == before.update(i as int, p));
            assert forall|t: int| 0 <= t < after.len() implies has_currency(
                self.currencies@,
                #[trigger] after[t].currency@,
            ) by {
                if t != i {
                    assert(after[t] == before[t]);
                    assert(has_currency(old(self)@.currencies, before[t].currency@));
                } else {
                    assert(after[t] == p);
                    assert(self.currencies@[ci as int].name@ == p.currency@);
                }
            }
        }
        Ok(p)
    }

    /// Deletes rank `id`; returns whether it existed.
    pub fn delete_price_provider(&mut self, id: i32) -> (r: bool)
        requires
            wf(old(self)@),
        ensures
            wf(final(self)@),
            r == has_key(old(self)@.price_providers, id),
            !r ==> final(self)@ == old(self)@,
            r ==> exists|i: int|
                0 <= i < old(self)@.price_providers.len()
                    && #[trigger] old(self)@.price_providers[i].id == id && final(self)@ == (StoreView {
                    price_providers: old(self)@.price_providers.remove(i),
                    ..old(self)@
                }),
    {
        match index_of(&self.price_providers, id) {
            Some(i) => {
                let ghost before = self.price_providers@;
                self.price_providers.remove(i);
                proof {
                    lemma_remove_keyed(before, i as int, self.next_price_provider_id);
                    let after = self.price_providers@;
                    assert forall|t: int| 0 <= t < after.len() implies has_currency(
                        self.currencies@,
                        #[trigger] after[t].currency@,
                    ) by {
                        let st = if t < i { t } else { t + 1 };
                        assert(after[t] == before[st]);
                        assert(has_currency(old(self)@.currencies, before[st].currency@));
                    }
                }
                true
            },
            None => false,
        }
    }

    /// All provider ranks, ordered by currency (code-point order), then
    /// priority.
    pub fn get_all_price_providers(&self) -> (r: Vec<PriceProvider>)
        ensures
            sorted_by_currency(r@),
            r@.to_multiset() == self@.price_providers.to_multiset(),
    {
        sort_by_currency(copy_all(&self.price_providers))
    }

    /// The provider that wins for wallet `wallet_id` among `available`: the
    /// one with the lowest priority (the first such rank in table order on a
    /// tie). None when no available provider is ranked for the wallet.
    pub fn select_balance_provider(&self, wallet_id: i32, available: &Vec<DataProvider>) -> (r:
        Option<DataProvider>)
        ensures
            provider_choice(
                self@.balance_priorities.filter(|x: BalancePriority| x.owner() == wallet_id),
                available@,
                r,
            ),
    {
        let ranks = owned_by(&self.balance_priorities, wallet_id);
        select_provider(&ranks, available)
    }

    /// The provider that wins for `currency` among `available`: the one with
    /// the lowest priority (the first such rank in table order on a tie).
    /// None when no available provider is ranked for the currency.
    pub fn select_price_provider(&self, currency: &str, available: &Vec<DataProvider>) -> (r: Option<
        DataProvider,
    >)
        ensures
            provider_choice(
                self@.price_providers.filter(|x: PriceProvider| x.currency_name() == currency@),
                available@,
                r,
            ),
    {
        let ranks = of_currency(&self.price_providers, currency);
        select_provider(&ranks, available)
    }

    fn finish_wallet_cascade(&mut self, id: i32, start: usize, mark: &Vec<bool>) -> (r: bool)
        requires
            wf(old(self)@),
            mark@.len() == old(self)@.wallets.len(),
            start < mark@.len(),
            old(self)@.wallets[start as int].id == id,
            mark@[start as int],
            forall|q: int|
                0 <= q < mark@.len() && #[trigger] mark@[q] ==> q == start || marked_parent(
                    old(self)@.wallets,
                    mark@,
                    q,
                ),
            forall|q: int|
                0 <= q < mark@.len() && !#[trigger] mark@[q] ==> !marked_parent(
                    old(self)@.wallets,
                    mark@,
                    q,
                ),
        ensures
            wf(final(self)@),
            r,
            exists|removed: Seq<i32>| #[trigger] wallet_cascade(old(self)@, id, removed, final(self)@),
    {
        let ghost old_view = self@;
        let ghost ws = self.wallets@;
        let n = self.wallets.len();
        let mut removed: Vec<i32> = Vec::new();
        let mut i: usize = 0;
        while i < n
            invariant
                i <= n,
                n == ws.len(),
                self.wallets@ == ws,
                mark@.len() == n,
                forall|k: i32|
                    removed@.contains(k) <==> exists|q: int|
                        0 <= q < i && #[trigger] mark@[q] && ws[q].id == k,
            decreases n - i,
        {
            if mark[i] {
                let ghost before = removed@;
                removed.push(self.wallets[i].id);
                assert forall|k: i32|
                    removed@.contains(k) <==> exists|q: int|
                        0 <= q < i + 1 && #[trigger] mark@[q] && ws[q].id == k by {
                    if removed@.contains(k) && k != ws[i as int].id {
                        let t = choose|t: int| 0 <= t < removed@.len() && removed@[t] == k;
                        assert(before[t] == k);
                        assert(before.contains(k));
                    }
                    if before.contains(k) {
                        let t = choose|t: int| 0 <= t < before.len() && before[t] == k;
                        assert(removed@[t] == k);
                    }
                    assert(removed@[before.len() as int] == ws[i as int].id);
                }
            }
            i = i + 1;
        }
        let ghost rm = removed@;
        proof {
            // a wallet is removed exactly when it is marked
            assert forall|q: int| 0 <= q < n implies (rm.contains(#[trigger] ws[q].id) == mark@[q]) by {
                if rm.contains(ws[q].id) {
                    let w = choose|w: int| 0 <= w < n && #[trigger] mark@[w] && ws[w].id == ws[q].id;
                    assert(ws[w].key() == ws[q].key());
                }
            }
        }
        self.wallets = without_keys(&self.wallets, &removed);
        let doomed_balances = keys_owned_by_any(&self.balances, &removed);
        self.metadata = without_owners(&self.metadata, &removed);
        self.balances = without_owners(&self.balances, &removed);
        self.balance_priorities = without_owners(&self.balance_priorities, &removed);
        self.entries = without_owners(&self.entries, &doomed_balances);
        proof {
            let ov = old_view;
            let nv = self@;
            lemma_filter_congruent(ws, |x: Wallet| !rm.contains(x.key()), |w: Wallet| !rm.contains(w.id));
            lemma_filter_congruent(
                ov.metadata,
                |x: WalletMetadata| !rm.contains(x.owner()),
                |m: WalletMetadata| !rm.contains(m.wallet_id),
            );
            lemma_filter_congruent(
                ov.balances,
                |x: Balance| !rm.contains(x.owner()),
                |b: Balance| !rm.contains(b.wallet_id),
            );
            lemma_filter_congruent(
                ov.balance_priorities,
                |x: BalancePriority| !rm.contains(x.owner()),
                |p: BalancePriority| !rm.contains(p.wallet_id),
            );
            let db = doomed_balances@;
            lemma_filter_members(ov.balances, |x: Balance| !rm.contains(x.owner()));
            assert forall|e: int| 0 <= e < ov.entries.len() implies (!db.contains(
                #[trigger] ov.entries[e].owner(),
            )) == has_key(nv.balances, ov.entries[e].balance_id) by {
                let bid = ov.entries[e].balance_id;
                assert(has_key(ov.balances, ov.entries[e].owner()));
                let q = choose|q: int| 0 <= q < ov.balances.len() && #[trigger] ov.balances[q].key() == bid;
                if db.contains(bid) {
                    let q2 = choose|q2: int|
                        0 <= q2 < ov.balances.len() && #[trigger] ov.balances[q2].key() == bid
                            && rm.contains(ov.balances[q2].owner());
                    if has_key(nv.balances, bid) {
                        let t = choose|t: int| 0 <= t < nv.balances.len() && #[trigger] nv.balances[t].key() == bid;
                        assert(ov.balances.contains(nv.balances[t]));
                        let q3 = choose|q3: int| 0 <= q3 < ov.balances.len() && ov.balances[q3] == nv.balances[t];
                        assert(ov.balances[q3].key() == bid);
                        assert(q3 == q2);
                    }
                } else {
                    assert(!rm.contains(ov.balances[q].owner()));
                    lemma_filter_has_key(ov.balances, |x: Balance| !rm.contains(x.owner()), q);
                }
            }
            lemma_filter_congruent(
                ov.entries,
                |x: BalanceEntry| !db.contains(x.owner()),
                |x: BalanceEntry| has_key(nv.balances, x.balance_id),
            );
            // keys stay unique and in range
            lemma_filter_keys(ws, |x: Wallet| !rm.contains(x.key()), ov.next_wallet_id);
            lemma_filter_keys(ov.metadata, |x: WalletMetadata| !rm.contains(x.owner()), ov.next_metadata_id);
            lemma_filter_keys(ov.balances, |x: Balance| !rm.contains(x.owner()), ov.next_balance_id);
            lemma_filter_keys(
                ov.balance_priorities,
                |x: BalancePriority| !rm.contains(x.owner()),
                ov.next_balance_priority_id,
            );
            lemma_filter_keys(ov.entries, |x: BalanceEntry| !db.contains(x.owner()), ov.next_entry_id);
            lemma_filter_members(ws, |x: Wallet| !rm.contains(x.key()));
            lemma_filter_members(ov.metadata, |x: WalletMetadata| !rm.contains(x.owner()));
            lemma_filter_members(ov.balance_priorities, |x: BalancePriority| !rm.contains(x.owner()));
            lemma_filter_members(ov.entries, |x: BalanceEntry| !db.contains(x.owner()));
            // a wallet that is not removed survives
            assert forall|k: i32| has_key(ws, k) && !rm.contains(k) implies has_key(nv.wallets, k) by {
                let q = choose|q: int| 0 <= q < ws.len() && #[trigger] ws[q].key() == k;
                lemma_filter_has_key(ws, |x: Wallet| !rm.contains(x.key()), q);
            }
            // parents of surviving wallets survive
            assert forall|t: int| 0 <= t < nv.wallets.len() implies (
            #[trigger] nv.wallets[t].parent_id matches Some(p) ==> has_key(nv.wallets, p)) by {
                let w = nv.wallets[t];
                assert(ws.contains(w));
                let q = choose|q: int| 0 <= q < ws.len() && ws[q] == w;
                assert(!rm.contains(ws[q].id));
                assert(!mark@[q]);
                if let Some(p) = w.parent_id {
                    assert(has_key(ws, p));
                    if rm.contains(p) {
                        let m = choose|m: int| 0 <= m < i && #[trigger] mark@[m] && ws[m].id == p;
                        assert(marked_parent(ws, mark@, q));
                    }
                }
            }
            assert forall|t: int| 0 <= t < nv.metadata.len() implies has_key(
                nv.wallets,
                #[trigger] nv.metadata[t].owner(),
            ) by {
                assert(ov.metadata.contains(nv.metadata[t]));
                let q = choose|q: int| 0 <= q < ov.metadata.len() && ov.metadata[q] == nv.metadata[t];
                assert(has_key(ws, ov.metadata[q].owner()));
            }
            assert forall|t: int| 0 <= t < nv.balances.len() implies has_key(
                nv.wallets,
                #[trigger] nv.balances[t].owner(),
            ) by {
                assert(ov.balances.contains(nv.balances[t]));
                let q = choose|q: int| 0 <= q < ov.balances.len() && ov.balances[q] == nv.balances[t];
                assert(has_key(ws, ov.balances[q].owner()));
            }
            assert forall|t: int| 0 <= t < nv.balance_priorities.len() implies has_key(
                nv.wallets,
                #[trigger] nv.balance_priorities[t].owner(),
            ) by {
                assert(ov.balance_priorities.contains(nv.balance_priorities[t]));
                let q = choose|q: int|
                    0 <= q < ov.balance_priorities.len() && ov.balance_priorities[q] == nv.balance_priorities[t];
                assert(has_key(ws, ov.balance_priorities[q].owner()));
            }
            assert forall|t: int| 0 <= t < nv.entries.len() implies has_key(
                nv.balances,
                #[trigger] nv.entries[t].owner(),
            ) by {
                assert(ov.entries.contains(nv.entries[t]));
                let q = choose|q: int| 0 <= q < ov.entries.len() && ov.entries[q] == nv.entries[t];
                assert(has_key(nv.balances, ov.entries[q].balance_id));
            }
            assert forall|t: int| 0 <= t < nv.entries.len() implies fits_column(
                #[trigger] nv.entries[t].amount,
            ) by {
                assert(ov.entries.contains(nv.entries[t]));
            }
            lemma_filter_keeps_acyclic(ws, |x: Wallet| !rm.contains(x.key()));
            // the removed set is the cascade of `id`
            assert(rm.contains(id)) by {
                assert(mark@[start as int] && ws[start as int].id == id);
            }
            assert forall|k: i32| #[trigger] rm.contains(k) implies k == id || exists|q: int|
                0 <= q < ov.wallets.len() && #[trigger] ov.wallets[q].id == k && parent_among(
                    ov.wallets[q],
                    rm,
                ) by {
                let q = choose|q: int| 0 <= q < i && #[trigger] mark@[q] && ws[q].id == k;
                if q != start {
                    let w = choose|w: int|
                        0 <= w < ws.len() && #[trigger] mark@[w] && ws[q].parent_id == Some(ws[w].id);
                    assert(rm.contains(ws[w].id));
                    assert(parent_among(ws[q], rm));
                }
            }
            assert(wallet_cascade(ov, id, rm, nv));
        }
        true
    }
}

} // verus!
