use vstd::prelude::*;

use crate::curve::{BondingCurve, TransactionType};
use crate::error::ContractError;
use crate::index::{PairQuote, PriceIndex};
use crate::pair::{config_valid, ids_view, validate_config, Pair, PairConfig, PairImmutable, PoolType};
use crate::quote::{PayoutContext, TokenPayment};
use crate::swap_processor::{
    sell_failure,
    bought_at_quote, covers, purchase_stuck, sale_stuck, lemma_covers_fresh, lemma_linked_empty, lemma_records_empty, linked, purchases_at_states,
    sales_at_states, sold_at_quote,
    aggregates, flatten, flatten_legs, lemma_purchases_settle, lemma_sales_settle, pay_list,
    settlement_overflows, total_spent, total_network_fee, NftPayment, NftSwap,
    PoolNftSwap, PoolPair, Settlement, Swap, SwapParams, SwapProcessor,
};

verus! {

/// The most items one call of `execute_withdraw_all_nfts` takes out.
pub const WITHDRAWAL_BATCH_SIZE: usize = 10;

/// What a new pool is created with.
#[derive(Debug, Clone, PartialEq, Eq)]
pub struct PoolInfo {
    pub collection: String,
    pub denom: String,
    pub asset_recipient: Option<String>,
    pub pool_type: PoolType,
    pub bonding_curve: BondingCurve,
    pub is_active: bool,
}

/// The pool among `pairs` with id `id`, if there is one.
pub open spec fn pair_with_id(pairs: Seq<Pair>, id: u64) -> Option<Pair> {
    if exists|i: int| 0 <= i < pairs.len() && pairs[i].id == id {
        Some(pairs[choose|i: int| 0 <= i < pairs.len() && pairs[i].id == id])
    } else {
        None
    }
}

/// No two pools share an id.
pub open spec fn ids_unique(pairs: Seq<Pair>) -> bool {
    forall|i: int, j: int| 0 <= i < j < pairs.len() ==> pairs[i].id != pairs[j].id
}

proof fn lemma_pair_at(pairs: Seq<Pair>, i: int)
    requires
        ids_unique(pairs),
        0 <= i < pairs.len(),
    ensures
        pair_with_id(pairs, pairs[i].id) == Some(pairs[i]),
{
    let id = pairs[i].id;
    assert(exists|k: int| 0 <= k < pairs.len() && pairs[k].id == id);
    let k = choose|k: int| 0 <= k < pairs.len() && pairs[k].id == id;
    if k < i {
        assert(pairs[k].id != pairs[i].id);
    } else if k > i {
        assert(pairs[i].id != pairs[k].id);
    }
}

/// All pools, the index of their quotes, and the id the next pool gets.
#[derive(Debug, Clone, PartialEq, Eq)]
pub struct PoolStore {
    pub pairs: Vec<Pair>,
    pub index: PriceIndex,
    pub next_pair_id: u64,
}

impl PoolStore {
    pub open spec fn get(&self, id: u64) -> Option<Pair> {
        pair_with_id(self.pairs@, id)
    }

    /// Every pool is well formed with consistent quotes and an id below the
    /// next one; ids are distinct; the index holds exactly the published
    /// quotes of the pools.
    pub open spec fn wf(&self) -> bool {
        &&& self.index.wf()
        &&& ids_unique(self.pairs@)
        &&& forall|i: int|
            0 <= i < self.pairs@.len() ==> {
                &&& (#[trigger] self.pairs@[i]).wf()
                &&& self.pairs@[i].quotes_consistent()
                &&& self.pairs@[i].id < self.next_pair_id
                &&& self.index.has(self.pairs@[i].index_entry())
            }
        &&& forall|e: PairQuote| #[trigger]
            self.index.has(e) ==> exists|i: int|
                0 <= i < self.pairs@.len() && e == (#[trigger] self.pairs@[i]).index_entry()
    }

    /// Pools other than `id` are as in `before`.
    pub open spec fn same_except(&self, before: PoolStore, id: u64) -> bool {
        &&& self.next_pair_id == before.next_pair_id
        &&& forall|x: u64| x != id ==> #[trigger] self.get(x) == before.get(x)
    }

    /// Why `sender` may not manage pool `id`: it does not exist, or
    /// `sender` is not its owner.
    pub open spec fn access_error(&self, id: u64, sender: String) -> Option<ContractError> {
        match self.get(id) {
            None => Some(ContractError::InvalidPool),
            Some(p) => if p.immutable.owner@ != sender@ {
                Some(ContractError::Unauthorized)
            } else {
                None
            },
        }
    }

    pub fn new() -> (r: PoolStore)
        ensures
            r.wf(),
            r.next_pair_id == 1,
            forall|id: u64| #[trigger] r.get(id) is None,
    {
        PoolStore { pairs: Vec::new(), index: PriceIndex::new(), next_pair_id: 1 }
    }

    fn find_pair(&self, id: u64) -> (r: Option<usize>)
        requires
            self.wf(),
        ensures
            r matches Some(i) ==> i < self.pairs@.len() && self.pairs@[i as int].id == id
                && self.get(id) == Some(self.pairs@[i as int]),
            r is None ==> self.get(id) is None,
    {
        let mut j: usize = 0;
        while j < self.pairs.len()
            invariant
                0 <= j <= self.pairs@.len(),
                self.wf(),
                forall|a: int| 0 <= a < j ==> self.pairs@[a].id != id,
            decreases self.pairs@.len() - j,
        {
            if self.pairs[j].id == id {
                proof {
                    lemma_pair_at(self.pairs@, j as int);
                }
                return Some(j);
            }
            j = j + 1;
        }
        None
    }

    /// Pool `id`, if it exists.
    pub fn get_pair(&self, id: u64) -> (r: Option<&Pair>)
        requires
            self.wf(),
        ensures
            r matches Some(p) ==> self.get(id) == Some(*p),
            r is None ==> self.get(id) is None,
    {
        match self.find_pair(id) {
            Some(i) => Some(&self.pairs[i]),
            None => None,
        }
    }

    /// A copy of pool `id`, if it exists.
    pub fn fetch(&self, id: u64) -> (r: Option<Pair>)
        requires
            self.wf(),
        ensures
            r matches Some(c) ==> self.get(id) matches Some(p) && c.same_as(p),
            r is None ==> self.get(id) is None,
    {
        match self.find_pair(id) {
            Some(i) => Some(self.pairs[i].duplicate()),
            None => None,
        }
    }

    /// A published entry is that of the stored pool with its id.
    pub proof fn lemma_entry_of_pool(&self, e: PairQuote)
        requires
            self.wf(),
            self.index.has(e),
        ensures
            self.get(e.pair_id) matches Some(p) && p.index_entry() == e && p.wf()
                && p.quotes_consistent(),
    {
        let k = choose|k: int|
            0 <= k < self.pairs@.len() && e == (#[trigger] self.pairs@[k]).index_entry();
        lemma_pair_at(self.pairs@, k);
    }

    /// Finds pool `id` and checks that `sender` owns it.
    fn authorize(&self, id: u64, sender: &String) -> (r: Result<usize, ContractError>)
        requires
            self.wf(),
        ensures
            r matches Ok(i) ==> i < self.pairs@.len() && self.pairs@[i as int].id == id
                && self.get(id) == Some(self.pairs@[i as int]),
            r is Ok <==> self.access_error(id, *sender) is None,
            r matches Err(e) ==> self.access_error(id, *sender) == Some(e),
    {
        match self.find_pair(id) {
            None => Err(ContractError::InvalidPool),
            Some(i) => {
                if self.pairs[i].immutable.owner == *sender {
                    Ok(i)
                } else {
                    Err(ContractError::Unauthorized)
                }
            },
        }
    }

    /// `self` is `before` with the pool at position `i` replaced by a well
    /// formed pool of the same id, not yet published.
    pub open spec fn edited_at(&self, before: PoolStore, i: int) -> bool {
        &&& before.wf()
        &&& 0 <= i < before.pairs@.len()
        &&& self.index == before.index
        &&& self.next_pair_id == before.next_pair_id
        &&& self.pairs@ == before.pairs@.update(i, self.pairs@[i])
        &&& self.pairs@[i].wf()
        &&& self.pairs@[i].id == before.pairs@[i].id
    }

    /// Nothing of `before` has changed.
    pub open spec fn unchanged(&self, before: PoolStore) -> bool {
        &&& self.pairs@ == before.pairs@
        &&& self.index == before.index
        &&& self.next_pair_id == before.next_pair_id
    }

    /// Recomputes and publishes the quotes of the pool at position `i`.
    fn commit_pair(&mut self, i: usize, ctx: &PayoutContext, Ghost(before): Ghost<PoolStore>)
        requires
            old(self).edited_at(before, i as int),
        ensures
            final(self).wf(),
            final(self).get(old(self).pairs@[i as int].id) == Some(
                old(self).pairs@[i as int].refreshed(*ctx),
            ),
            final(self).same_except(before, old(self).pairs@[i as int].id),
    {
        let ghost edited = old(self).pairs@[i as int];
        self.pairs[i].save_and_update_indices(ctx, &mut self.index);
        proof {
            let o = before.pairs@;
            let n = self.pairs@;
            let id = edited.id;
            let pair = n[i as int];
            assert(n =~= o.update(i as int, pair));
            assert(ids_unique(n)) by {
                assert forall|a: int, b: int| 0 <= a < b < n.len() implies n[a].id != n[b].id by {
                    assert(o[a].id != o[b].id);
                }
            }
            assert forall|a: int| 0 <= a < n.len() implies {
                &&& (#[trigger] n[a]).wf()
                &&& n[a].quotes_consistent()
                &&& n[a].id < self.next_pair_id
                &&& self.index.has(n[a].index_entry())
            } by {
                if a != i {
                    assert(n[a] == o[a]);
                    assert(o[a].id != id) by {
                        if a < i {
                            assert(o[a].id != o[i as int].id);
                        } else {
                            assert(o[i as int].id != o[a].id);
                        }
                    }
                    assert(before.index.has(o[a].index_entry()));
                } else {
                    assert(o[a].id < self.next_pair_id);
                }
            }
            assert forall|e: PairQuote| #[trigger] self.index.has(e) implies exists|k: int|
                0 <= k < n.len() && e == (#[trigger] n[k]).index_entry() by {
                if e == pair.index_entry() {
                    assert(n[i as int] == pair);
                } else {
                    assert(before.index.has(e) && e.pair_id != id);
                    let k = choose|k: int| 0 <= k < o.len() && e == (#[trigger] o[k]).index_entry();
                    assert(k != i);
                    assert(n[k] == o[k]);
                }
            }
            lemma_pair_at(n, i as int);
            assert forall|x: u64| x != id implies #[trigger] self.get(x) == before.get(x) by {
                if exists|k: int| 0 <= k < o.len() && o[k].id == x {
                    let k = choose|k: int| 0 <= k < o.len() && o[k].id == x;
                    lemma_pair_at(o, k);
                    assert(k != i);
                    assert(n[k] == o[k]);
                    lemma_pair_at(n, k);
                } else {
                    assert forall|k: int| 0 <= k < n.len() implies n[k].id != x by {
                        if k != i {
                            assert(n[k] == o[k]);
                        }
                    }
                }
            }
        }
    }
}

/// The configuration a new pool gets from `info`.
pub open spec fn config_of(info: PoolInfo) -> PairConfig {
    PairConfig {
        pool_type: info.pool_type,
        bonding_curve: info.bonding_curve,
        is_active: info.is_active,
        asset_recipient: info.asset_recipient,
    }
}

/// `p` is the empty pool `id` that `sender` created from `info`, with fresh
/// quotes.
pub open spec fn is_created_pair(p: Pair, id: u64, sender: String, info: PoolInfo, ctx: PayoutContext) -> bool {
    &&& p.id == id
    &&& p.immutable == (PairImmutable { collection: info.collection, owner: sender, denom: info.denom })
    &&& p.config == config_of(info)
    &&& p.total_tokens == 0
    &&& p.total_nfts() == 0
    &&& p.quotes_fresh(ctx)
}

/// `after` holds `p`, with fresh quotes, as pool `id`, and every other pool
/// as `before` did.
pub open spec fn stores_pair(after: PoolStore, before: PoolStore, id: u64, p: Pair, ctx: PayoutContext) -> bool {
    &&& after.get(id) == Some(p.refreshed(ctx))
    &&& after.same_except(before, id)
}

/// Where withdrawn assets go: the given recipient, else the sender.
pub open spec fn recipient_or(asset_recipient: Option<String>, sender: String) -> String {
    match asset_recipient {
        Some(a) => a,
        None => sender,
    }
}

/// Creates a pool owned by `sender`. The configuration must be legal and
/// the listing fee paid must be exactly the required one.
pub fn execute_create_pool(
    store: &mut PoolStore,
    ctx: &PayoutContext,
    sender: &String,
    pool_info: PoolInfo,
    listing_fee_paid: u128,
    listing_fee: u128,
) -> (r: Result<u64, ContractError>)
    requires
        old(store).wf(),
    ensures
        final(store).wf(),
        r is Ok <==> {
            &&& config_valid(config_of(pool_info))
            &&& listing_fee_paid == listing_fee
            &&& old(store).next_pair_id < u64::MAX
        },
        !config_valid(config_of(pool_info)) ==> r == Err::<u64, ContractError>(
            ContractError::InvalidPool,
        ),
        config_valid(config_of(pool_info)) && listing_fee_paid != listing_fee
            ==> r == Err::<u64, ContractError>(ContractError::InvalidListingFee(listing_fee_paid)),
        r is Err ==> *final(store) == *old(store),
        r matches Ok(id) ==> {
            &&& id == old(store).next_pair_id
            &&& final(store).next_pair_id == old(store).next_pair_id + 1
            &&& final(store).get(id) matches Some(p) && is_created_pair(p, id, *sender, pool_info, *ctx)
            &&& forall|x: u64| x != id ==> #[trigger] final(store).get(x) == old(store).get(x)
        },
{
    let id = store.next_pair_id;
    let immutable = PairImmutable {
        collection: pool_info.collection,
        owner: sender.clone(),
        denom: pool_info.denom,
    };
    let config = PairConfig {
        pool_type: pool_info.pool_type,
        bonding_curve: pool_info.bonding_curve,
        is_active: pool_info.is_active,
        asset_recipient: pool_info.asset_recipient,
    };
    let mut pair = Pair::initialize(id, immutable, config)?;
    if listing_fee_paid != listing_fee {
        return Err(ContractError::InvalidListingFee(listing_fee_paid));
    }
    if id == u64::MAX {
        return Err(ContractError::InvalidPool);
    }
    pair.save_and_update_indices(ctx, &mut store.index);
    store.pairs.push(pair);
    store.next_pair_id = id + 1;
    proof {
        let o = old(store).pairs@;
        let n = store.pairs@;
        assert(n == o.push(pair));
        assert(ids_unique(n)) by {
            assert forall|a: int, b: int| 0 <= a < b < n.len() implies n[a].id != n[b].id by {
                if b == o.len() {
                    assert(o[a].id < id);
                }
            }
        }
        assert forall|a: int| 0 <= a < n.len() implies {
            &&& (#[trigger] n[a]).wf()
            &&& n[a].quotes_consistent()
            &&& n[a].id < store.next_pair_id
            &&& store.index.has(n[a].index_entry())
        } by {
            if a < o.len() {
                assert(n[a] == o[a]);
                assert(old(store).index.has(o[a].index_entry()));
            }
        }
        assert forall|e: PairQuote| #[trigger] store.index.has(e) implies exists|k: int|
            0 <= k < n.len() && e == (#[trigger] n[k]).index_entry() by {
            if e == pair.index_entry() {
                assert(n[o.len() as int] == pair);
            } else {
                let k = choose|k: int| 0 <= k < o.len() && e == (#[trigger] o[k]).index_entry();
                assert(n[k] == o[k]);
            }
        }
        lemma_pair_at(n, o.len() as int);
        assert forall|x: u64| x != id implies #[trigger] store.get(x) == old(store).get(x) by {
            if exists|k: int| 0 <= k < o.len() && o[k].id == x {
                let k = choose|k: int| 0 <= k < o.len() && o[k].id == x;
                lemma_pair_at(o, k);
                assert(n[k] == o[k]);
                lemma_pair_at(n, k);
            } else {
                assert forall|k: int| 0 <= k < n.len() implies n[k].id != x by {
                    if k < o.len() {
                        assert(n[k] == o[k]);
                    }
                }
            }
        }
    }
    Ok(id)
}

/// Only the owner manages a pool: for any existing pool and any sender
/// other than its owner, every owner operation (deposit, withdrawal,
/// configuration update, activation, removal) fails with `Unauthorized`,
/// as their contracts state through `access_error`.
pub proof fn lemma_only_owner_manages(store: PoolStore, pool_id: u64, sender: String)
    requires
        store.get(pool_id) matches Some(p) && p.immutable.owner@ != sender@,
    ensures
        store.access_error(pool_id, sender) == Some(ContractError::Unauthorized),
{
}

/// A one-sided pool cannot use a constant-product curve, and cannot be
/// given a swap fee.
pub proof fn lemma_one_sided_pool_constraints(
    c: PairConfig,
    swap_fee_bps: u128,
    asset_recipient: Option<String>,
    delta: Option<u128>,
    spot_price: Option<u128>,
    reinvest_tokens: Option<bool>,
    reinvest_nfts: Option<bool>,
)
    requires
        c.pool_type == PoolType::NftOnly,
        swap_fee_bps != 0,
    ensures
        c.bonding_curve is ConstantProduct ==> !config_valid(c),
        config_update(
            c,
            asset_recipient,
            delta,
            spot_price,
            Some(swap_fee_bps),
            reinvest_tokens,
            reinvest_nfts,
        ) == Err::<PairConfig, ContractError>(ContractError::InvalidPool),
{
}

/// A direct sale batch over the legs `legs` stands at `p`: its trades so far
/// were made at known states of the stored pool, and the next leg cannot be
/// filled by that pool in the state the trades left it in, or would take
/// the gross total beyond 128 bits.
pub open spec fn direct_sale_stuck(
    store: PoolStore,
    ctx: PayoutContext,
    p: SwapProcessor,
    legs: Seq<NftSwap>,
    seller: String,
    custody: String,
    block_time: u64,
    deadline: u64,
) -> bool {
    &&& linked(store, ctx, TransactionType::UserSubmitsNfts, p.swaps@, p.traded@, p.pool_set@)
    &&& sales_at_states(p.swaps@, p.traded@, legs, seller, custody)
    &&& p.swaps@.len() < legs.len()
    &&& p.pool_set@.len() == 1
    &&& (sell_failure(p.pool_set@[0].pool, legs[p.swaps@.len() as int], block_time, deadline) is Some
        || p.gross_overflow())
}

/// Adds `amount` tokens, paid by the owner, to pool `pool_id`.
pub fn execute_deposit_tokens(
    store: &mut PoolStore,
    ctx: &PayoutContext,
    sender: &String,
    pool_id: u64,
    amount: u128,
) -> (r: Result<(), ContractError>)
    requires
        old(store).wf(),
    ensures
        final(store).wf(),
        r is Err ==> final(store).unchanged(*old(store)),
        old(store).access_error(pool_id, *sender) matches Some(e) ==> r == Err::<(), ContractError>(e),
        old(store).access_error(pool_id, *sender) is None ==> {
            let p = old(store).get(pool_id).unwrap();
            &&& r is Ok <==> p.total_tokens + amount <= u128::MAX
            &&& r is Err ==> r == Err::<(), ContractError>(ContractError::InvalidInput)
            &&& r is Ok ==> stores_pair(
                *final(store),
                *old(store),
                pool_id,
                Pair { total_tokens: (p.total_tokens + amount) as u128, ..p },
                *ctx,
            )
        },
{
    let i = store.authorize(pool_id, sender)?;
    let ghost before = *store;
    let res = store.pairs[i].deposit_tokens(amount);
    if res.is_err() {
        proof {
            assert(store.pairs@ =~= before.pairs@);
        }
        return res;
    }
    store.commit_pair(i, ctx, Ghost(before));
    Ok(())
}

/// Adds the owner's items to pool `pool_id`, which must be of `collection`.
pub fn execute_deposit_nfts(
    store: &mut PoolStore,
    ctx: &PayoutContext,
    sender: &String,
    pool_id: u64,
    collection: &String,
    nft_token_ids: &Vec<String>,
) -> (r: Result<(), ContractError>)
    requires
        old(store).wf(),
    ensures
        final(store).wf(),
        r is Err ==> final(store).unchanged(*old(store)),
        old(store).access_error(pool_id, *sender) matches Some(e) ==> r == Err::<(), ContractError>(e),
        old(store).access_error(pool_id, *sender) is None ==> {
            let p = old(store).get(pool_id).unwrap();
            &&& r is Ok <==> {
                &&& p.immutable.collection@ == collection@
                &&& ids_view(nft_token_ids@).no_duplicates()
                &&& ids_view(nft_token_ids@).disjoint(p.inventory())
                &&& p.total_nfts() + nft_token_ids@.len() <= u64::MAX
            }
            &&& r is Err ==> r == Err::<(), ContractError>(ContractError::InvalidInput)
            &&& r is Ok ==> (final(store).get(pool_id) matches Some(q) && q.inventory() == p.inventory()
                + ids_view(nft_token_ids@) && q.id == p.id && q.immutable == p.immutable && q.config == p.config && q.total_tokens == p.total_tokens
                && q.quotes_fresh(*ctx) && final(store).same_except(*old(store), pool_id))
        },
{
    let i = store.authorize(pool_id, sender)?;
    if store.pairs[i].immutable.collection != *collection {
        return Err(ContractError::InvalidInput);
    }
    let ghost before = *store;
    let res = store.pairs[i].deposit_nfts(nft_token_ids);
    if res.is_err() {
        proof {
            assert(store.pairs@ =~= before.pairs@);
        }
        return res;
    }
    store.commit_pair(i, ctx, Ghost(before));
    Ok(())
}

/// Takes `amount` tokens out of pool `pool_id`; returns the transfer to
/// the given recipient, else to the owner.
pub fn execute_withdraw_tokens(
    store: &mut PoolStore,
    ctx: &PayoutContext,
    sender: &String,
    pool_id: u64,
    amount: u128,
    asset_recipient: Option<String>,
) -> (r: Result<TokenPayment, ContractError>)
    requires
        old(store).wf(),
    ensures
        final(store).wf(),
        r is Err ==> final(store).unchanged(*old(store)),
        old(store).access_error(pool_id, *sender) matches Some(e) ==> r == Err::<
            TokenPayment,
            ContractError,
        >(e),
        old(store).access_error(pool_id, *sender) is None ==> {
            let p = old(store).get(pool_id).unwrap();
            &&& r is Ok <==> amount <= p.total_tokens
            &&& r is Err ==> r == Err::<TokenPayment, ContractError>(ContractError::InvalidInput)
            &&& r is Ok ==> stores_pair(
                *final(store),
                *old(store),
                pool_id,
                Pair { total_tokens: (p.total_tokens - amount) as u128, ..p },
                *ctx,
            )
            &&& r matches Ok(t) ==> t == (TokenPayment {
                amount,
                address: recipient_or(asset_recipient, *sender),
            })
        },
{
    let i = store.authorize(pool_id, sender)?;
    let ghost before = *store;
    let res = store.pairs[i].withdraw_tokens(amount);
    if let Err(e) = res {
        proof {
            assert(store.pairs@ =~= before.pairs@);
        }
        return Err(e);
    }
    store.commit_pair(i, ctx, Ghost(before));
    let address = match asset_recipient {
        Some(a) => a,
        None => sender.clone(),
    };
    Ok(TokenPayment { amount, address })
}

/// Takes every token out of pool `pool_id`.
pub fn execute_withdraw_all_tokens(
    store: &mut PoolStore,
    ctx: &PayoutContext,
    sender: &String,
    pool_id: u64,
    asset_recipient: Option<String>,
) -> (r: Result<TokenPayment, ContractError>)
    requires
        old(store).wf(),
    ensures
        final(store).wf(),
        r is Err ==> final(store).unchanged(*old(store)),
        old(store).access_error(pool_id, *sender) matches Some(e) ==> r == Err::<
            TokenPayment,
            ContractError,
        >(e),
        old(store).access_error(pool_id, *sender) is None ==> {
            let p = old(store).get(pool_id).unwrap();
            &&& r is Ok
            &&& stores_pair(*final(store), *old(store), pool_id, Pair { total_tokens: 0, ..p }, *ctx)
            &&& r matches Ok(t) && t == (TokenPayment {
                amount: p.total_tokens,
                address: recipient_or(asset_recipient, *sender),
            })
        },
{
    let amount = match store.find_pair(pool_id) {
        Some(i) => store.pairs[i].total_tokens,
        None => 0,
    };
    execute_withdraw_tokens(store, ctx, sender, pool_id, amount, asset_recipient)
}

/// Takes the items `nft_token_ids` out of pool `pool_id`; returns the
/// transfers to the given recipient, else to the owner.
#[verifier::rlimit(50)]
pub fn execute_withdraw_nfts(
    store: &mut PoolStore,
    ctx: &PayoutContext,
    sender: &String,
    pool_id: u64,
    nft_token_ids: &Vec<String>,
    asset_recipient: Option<String>,
) -> (r: Result<Vec<NftPayment>, ContractError>)
    requires
        old(store).wf(),
    ensures
        final(store).wf(),
        r is Err ==> final(store).unchanged(*old(store)),
        old(store).access_error(pool_id, *sender) matches Some(e) ==> r == Err::<
            Vec<NftPayment>,
            ContractError,
        >(e),
        old(store).access_error(pool_id, *sender) is None ==> {
            let p = old(store).get(pool_id).unwrap();
            &&& r is Ok <==> {
                &&& ids_view(nft_token_ids@).no_duplicates()
                &&& forall|k: int|
                    0 <= k < nft_token_ids@.len() ==> p.inventory().contains(
                        #[trigger] ids_view(nft_token_ids@)[k],
                    )
            }
            &&& r is Err ==> r == Err::<Vec<NftPayment>, ContractError>(ContractError::InvalidInput)
            &&& r is Ok ==> (final(store).get(pool_id) matches Some(q) && (forall|id: Seq<char>|
                #[trigger] q.inventory().contains(id) <==> (p.inventory().contains(id)
                    && !ids_view(nft_token_ids@).contains(id))) && q.total_nfts() == p.total_nfts()
                - nft_token_ids@.len() && q.id == p.id && q.immutable == p.immutable && q.config == p.config && q.total_tokens == p.total_tokens
                && q.quotes_fresh(*ctx) && final(store).same_except(*old(store), pool_id))
            &&& r matches Ok(v) ==> v@.len() == nft_token_ids@.len() && forall|k: int|
                0 <= k < v@.len() ==> (#[trigger] v@[k]).nft_token_id@ == nft_token_ids@[k]@
                    && v@[k].address == recipient_or(asset_recipient, *sender)
        },
{
    let i = store.authorize(pool_id, sender)?;
    let ghost before = *store;
    let res = store.pairs[i].withdraw_nfts(nft_token_ids);
    if let Err(e) = res {
        proof {
            assert(store.pairs@ =~= before.pairs@);
        }
        return Err(e);
    }
    store.commit_pair(i, ctx, Ghost(before));
    let recipient = match asset_recipient {
        Some(a) => a,
        None => sender.clone(),
    };
    let mut payments: Vec<NftPayment> = Vec::new();
    let mut k: usize = 0;
    while k < nft_token_ids.len()
        invariant
            0 <= k <= nft_token_ids@.len(),
            payments@.len() == k,
            recipient == recipient_or(asset_recipient, *sender),
            forall|a: int|
                0 <= a < k ==> (#[trigger] payments@[a]).nft_token_id@ == nft_token_ids@[a]@
                    && payments@[a].address == recipient,
        decreases nft_token_ids@.len() - k,
    {
        payments.push(
            NftPayment { nft_token_id: nft_token_ids[k].clone(), address: recipient.clone() },
        );
        k = k + 1;
    }
    Ok(payments)
}

/// Takes up to `WITHDRAWAL_BATCH_SIZE` items, the first ones the pool
/// holds, out of pool `pool_id`.
pub fn execute_withdraw_all_nfts(
    store: &mut PoolStore,
    ctx: &PayoutContext,
    sender: &String,
    pool_id: u64,
    asset_recipient: Option<String>,
) -> (r: Result<Vec<NftPayment>, ContractError>)
    requires
        old(store).wf(),
    ensures
        final(store).wf(),
        r is Err ==> final(store).unchanged(*old(store)),
        old(store).access_error(pool_id, *sender) matches Some(e) ==> r == Err::<
            Vec<NftPayment>,
            ContractError,
        >(e),
        old(store).access_error(pool_id, *sender) is None ==> {
            let p = old(store).get(pool_id).unwrap();
            let n = if p.total_nfts() < WITHDRAWAL_BATCH_SIZE {
                p.total_nfts() as int
            } else {
                WITHDRAWAL_BATCH_SIZE as int
            };
            &&& r is Ok
            &&& final(store).get(pool_id) matches Some(q) && forall|id: Seq<char>|
                #[trigger] q.inventory().contains(id) <==> (p.inventory().contains(id)
                    && !p.inventory().subrange(0, n).contains(id))
            &&& final(store).get(pool_id) matches Some(q) && q.total_nfts() == p.total_nfts() - n
                && q.id == p.id && q.immutable == p.immutable && q.quotes_fresh(*ctx) && q.config == p.config && q.total_tokens == p.total_tokens
                && final(store).same_except(*old(store), pool_id)
            &&& r matches Ok(v) && v@.len() == n && forall|k: int|
                0 <= k < n ==> (#[trigger] v@[k]).nft_token_id@ == p.inventory()[k]
                    && v@[k].address == recipient_or(asset_recipient, *sender)
        },
{
    let i = match store.find_pair(pool_id) {
        Some(i) => i,
        None => return Err(ContractError::InvalidPool),
    };
    let ids = &store.pairs[i].internal.nft_token_ids;
    let mut batch: Vec<String> = Vec::new();
    let mut k: usize = 0;
    while k < ids.len() && k < WITHDRAWAL_BATCH_SIZE
        invariant
            0 <= k <= ids@.len(),
            k <= WITHDRAWAL_BATCH_SIZE,
            batch@.len() == k,
            forall|a: int| 0 <= a < k ==> (#[trigger] batch@[a])@ == ids@[a]@,
        decreases ids@.len() - k,
    {
        batch.push(ids[k].clone());
        k = k + 1;
    }
    proof {
        let p = store.pairs@[i as int];
        let w = ids_view(batch@);
        assert(p.wf());
        assert forall|a: int, b: int| 0 <= a < w.len() && 0 <= b < w.len() && a != b implies w[a]
            != w[b] by {
            assert(w[a] == p.inventory()[a]);
            assert(w[b] == p.inventory()[b]);
        }
        assert forall|a: int| 0 <= a < batch@.len() implies p.inventory().contains(
            #[trigger] w[a],
        ) by {
            assert(p.inventory()[a] == w[a]);
        }
        assert(w =~= p.inventory().subrange(0, k as int));
    }
    execute_withdraw_nfts(store, ctx, sender, pool_id, &batch, asset_recipient)
}

/// The configuration after a partial update, or why the update is illegal:
/// a constant-product curve stores no spot price or delta, and a one-sided
/// pool takes neither a swap fee nor reinvestment.
pub open spec fn config_update(
    c: PairConfig,
    asset_recipient: Option<String>,
    delta: Option<u128>,
    spot_price: Option<u128>,
    swap_fee_bps: Option<u128>,
    reinvest_tokens: Option<bool>,
    reinvest_nfts: Option<bool>,
) -> Result<PairConfig, ContractError> {
    let recipient = match asset_recipient {
        Some(a) => Some(a),
        None => c.asset_recipient,
    };
    let curve = match c.bonding_curve {
        BondingCurve::Linear { spot_price: s, delta: d } => Ok(
            BondingCurve::Linear {
                spot_price: match spot_price {
                    Some(v) => v,
                    None => s,
                },
                delta: match delta {
                    Some(v) => v,
                    None => d,
                },
            },
        ),
        BondingCurve::Exponential { spot_price: s, delta: d } => Ok(
            BondingCurve::Exponential {
                spot_price: match spot_price {
                    Some(v) => v,
                    None => s,
                },
                delta: match delta {
                    Some(v) => v,
                    None => d,
                },
            },
        ),
        BondingCurve::ConstantProduct => if spot_price is Some || delta is Some {
            Err(ContractError::InvalidPool)
        } else {
            Ok(BondingCurve::ConstantProduct)
        },
    };
    let pool_type = match c.pool_type {
        PoolType::NftOnly => if (swap_fee_bps matches Some(f) && f != 0) || (
        reinvest_tokens matches Some(b) && b) || (reinvest_nfts matches Some(b) && b) {
            Err(ContractError::InvalidPool)
        } else {
            Ok(PoolType::NftOnly)
        },
        PoolType::Trade { reinvest_tokens: rt, reinvest_nfts: rn, swap_fee_bps: f } => Ok(
            PoolType::Trade {
                reinvest_tokens: match reinvest_tokens {
                    Some(b) => b,
                    None => rt,
                },
                reinvest_nfts: match reinvest_nfts {
                    Some(b) => b,
                    None => rn,
                },
                swap_fee_bps: match swap_fee_bps {
                    Some(v) => v,
                    None => f,
                },
            },
        ),
    };
    match (curve, pool_type) {
        (Ok(curve), Ok(pool_type)) => {
            let n = PairConfig {
                pool_type,
                bonding_curve: curve,
                is_active: c.is_active,
                asset_recipient: recipient,
            };
            if config_valid(n) {
                Ok(n)
            } else {
                Err(ContractError::InvalidPool)
            }
        },
        _ => Err(ContractError::InvalidPool),
    }
}

/// Changes the given fields of pool `pool_id`'s configuration; fields
/// given as `None` keep their value.
pub fn execute_update_pool_config(
    store: &mut PoolStore,
    ctx: &PayoutContext,
    sender: &String,
    pool_id: u64,
    asset_recipient: Option<String>,
    delta: Option<u128>,
    spot_price: Option<u128>,
    swap_fee_bps: Option<u128>,
    reinvest_tokens: Option<bool>,
    reinvest_nfts: Option<bool>,
) -> (r: Result<(), ContractError>)
    requires
        old(store).wf(),
    ensures
        final(store).wf(),
        r is Err ==> final(store).unchanged(*old(store)),
        old(store).access_error(pool_id, *sender) matches Some(e) ==> r == Err::<(), ContractError>(e),
        old(store).access_error(pool_id, *sender) is None ==> {
            let p = old(store).get(pool_id).unwrap();
            match config_update(
                p.config,
                asset_recipient,
                delta,
                spot_price,
                swap_fee_bps,
                reinvest_tokens,
                reinvest_nfts,
            ) {
                Ok(c) => r is Ok && stores_pair(
                    *final(store),
                    *old(store),
                    pool_id,
                    Pair { config: c, ..p },
                    *ctx,
                ),
                Err(e) => r == Err::<(), ContractError>(e),
            }
        },
{
    let i = store.authorize(pool_id, sender)?;
    let c = &store.pairs[i].config;
    let recipient = match asset_recipient {
        Some(a) => Some(a),
        None => match &c.asset_recipient {
            Some(a) => Some(a.clone()),
            None => None,
        },
    };
    let curve = match c.bonding_curve {
        BondingCurve::Linear { spot_price: s, delta: d } => BondingCurve::Linear {
            spot_price: match spot_price {
                Some(v) => v,
                None => s,
            },
            delta: match delta {
                Some(v) => v,
                None => d,
            },
        },
        BondingCurve::Exponential { spot_price: s, delta: d } => BondingCurve::Exponential {
            spot_price: match spot_price {
                Some(v) => v,
                None => s,
            },
            delta: match delta {
                Some(v) => v,
                None => d,
            },
        },
        BondingCurve::ConstantProduct => {
            if spot_price.is_some() || delta.is_some() {
                return Err(ContractError::InvalidPool);
            }
            BondingCurve::ConstantProduct
        },
    };
    let pool_type = match c.pool_type {
        PoolType::NftOnly => {
            let fee_set = match swap_fee_bps {
                Some(f) => f != 0,
                None => false,
            };
            let tokens_set = match reinvest_tokens {
                Some(b) => b,
                None => false,
            };
            let nfts_set = match reinvest_nfts {
                Some(b) => b,
                None => false,
            };
            if fee_set || tokens_set || nfts_set {
                return Err(ContractError::InvalidPool);
            }
            PoolType::NftOnly
        },
        PoolType::Trade { reinvest_tokens: rt, reinvest_nfts: rn, swap_fee_bps: f } => {
            PoolType::Trade {
                reinvest_tokens: match reinvest_tokens {
                    Some(b) => b,
                    None => rt,
                },
                reinvest_nfts: match reinvest_nfts {
                    Some(b) => b,
                    None => rn,
                },
                swap_fee_bps: match swap_fee_bps {
                    Some(v) => v,
                    None => f,
                },
            }
        },
    };
    let config = PairConfig {
        pool_type,
        bonding_curve: curve,
        is_active: c.is_active,
        asset_recipient: recipient,
    };
    validate_config(&config)?;
    let ghost before = *store;
    store.pairs[i].config = config;
    store.commit_pair(i, ctx, Ghost(before));
    Ok(())
}

/// Turns trading of pool `pool_id` on or off.
pub fn execute_set_active_pool(
    store: &mut PoolStore,
    ctx: &PayoutContext,
    sender: &String,
    pool_id: u64,
    is_active: bool,
) -> (r: Result<(), ContractError>)
    requires
        old(store).wf(),
    ensures
        final(store).wf(),
        r is Err ==> final(store).unchanged(*old(store)),
        old(store).access_error(pool_id, *sender) matches Some(e) ==> r == Err::<(), ContractError>(e),
        old(store).access_error(pool_id, *sender) is None ==> {
            let p = old(store).get(pool_id).unwrap();
            &&& r is Ok
            &&& stores_pair(
                *final(store),
                *old(store),
                pool_id,
                Pair { config: PairConfig { is_active, ..p.config }, ..p },
                *ctx,
            )
        },
{
    let i = store.authorize(pool_id, sender)?;
    let ghost before = *store;
    store.pairs[i].set_active(is_active);
    store.commit_pair(i, ctx, Ghost(before));
    Ok(())
}

/// Deletes pool `pool_id`, which must hold no items; returns the transfer
/// of its remaining tokens, if any, to the given recipient, else the owner.
pub fn execute_remove_pool(
    store: &mut PoolStore,
    sender: &String,
    pool_id: u64,
    asset_recipient: Option<String>,
) -> (r: Result<Option<TokenPayment>, ContractError>)
    requires
        old(store).wf(),
    ensures
        final(store).wf(),
        r is Err ==> final(store).unchanged(*old(store)),
        old(store).access_error(pool_id, *sender) matches Some(e) ==> r == Err::<
            Option<TokenPayment>,
            ContractError,
        >(e),
        old(store).access_error(pool_id, *sender) is None ==> {
            let p = old(store).get(pool_id).unwrap();
            &&& r is Ok <==> p.total_nfts() == 0
            &&& r is Err ==> r == Err::<Option<TokenPayment>, ContractError>(
                ContractError::InvalidPool,
            )
            &&& r is Ok ==> final(store).get(pool_id) is None && final(store).same_except(
                *old(store),
                pool_id,
            )
            &&& r matches Ok(t) ==> t == if p.total_tokens > 0 {
                Some(
                    TokenPayment {
                        amount: p.total_tokens,
                        address: recipient_or(asset_recipient, *sender),
                    },
                )
            } else {
                None
            }
        },
{
    let i = store.authorize(pool_id, sender)?;
    if store.pairs[i].internal.nft_token_ids.len() > 0 {
        return Err(ContractError::InvalidPool);
    }
    let total_tokens = store.pairs[i].total_tokens;
    let ghost o = store.pairs@;
    let ghost oi = store.index;
    store.pairs.remove(i);
    store.index.remove_pair(pool_id);
    proof {
        let n = store.pairs@;
        assert(n == o.remove(i as int));
        assert(ids_unique(n)) by {
            assert forall|a: int, b: int| 0 <= a < b < n.len() implies n[a].id != n[b].id by {
                let sa = if a < i { a } else { a + 1 };
                let sb = if b < i { b } else { b + 1 };
                assert(n[a] == o[sa] && n[b] == o[sb]);
            }
        }
        assert forall|a: int| 0 <= a < n.len() implies {
            &&& (#[trigger] n[a]).wf()
            &&& n[a].quotes_consistent()
            &&& n[a].id < store.next_pair_id
            &&& store.index.has(n[a].index_entry())
        } by {
            let sa = if a < i { a } else { a + 1 };
            assert(n[a] == o[sa]);
            assert(oi.has(o[sa].index_entry()));
            if sa < i {
                assert(o[sa].id != o[i as int].id);
            } else {
                assert(o[i as int].id != o[sa].id);
            }
        }
        assert forall|e: PairQuote| #[trigger] store.index.has(e) implies exists|k: int|
            0 <= k < n.len() && e == (#[trigger] n[k]).index_entry() by {
            let k = choose|k: int| 0 <= k < o.len() && e == (#[trigger] o[k]).index_entry();
            assert(k != i);
            if k < i {
                assert(n[k] == o[k]);
            } else {
                assert(n[k - 1] == o[k]);
            }
        }
        assert forall|k: int| 0 <= k < n.len() implies n[k].id != pool_id by {
            let sk = if k < i { k } else { k + 1 };
            assert(n[k] == o[sk]);
            if sk < i {
                assert(o[sk].id != o[i as int].id);
            } else {
                assert(o[i as int].id != o[sk].id);
            }
        }
        assert forall|x: u64| x != pool_id implies #[trigger] store.get(x) == old(store).get(x) by {
            if exists|k: int| 0 <= k < o.len() && o[k].id == x {
                let k = choose|k: int| 0 <= k < o.len() && o[k].id == x;
                lemma_pair_at(o, k);
                assert(k != i);
                let nk = if k < i { k } else { k - 1 };
                assert(n[nk] == o[k]);
                lemma_pair_at(n, nk);
            } else {
                assert forall|k: int| 0 <= k < n.len() implies n[k].id != x by {
                    let sk = if k < i { k } else { k + 1 };
                    assert(n[k] == o[sk]);
                }
            }
        }
    }
    if total_tokens > 0 {
        let address = match asset_recipient {
            Some(a) => a,
            None => sender.clone(),
        };
        Ok(Some(TokenPayment { amount: total_tokens, address }))
    } else {
        Ok(None)
    }
}

/// How a batch ended when it did not fail.
#[derive(Debug, Clone, Copy, PartialEq, Eq, Structural)]
pub enum BatchStatus {
    /// Every leg was filled.
    Completed,
    /// A leg could not be filled; the legs before it stand.
    PartiallyCompleted,
}

/// The outcome of a batch: how it ended, the trades in leg order, their
/// settlement, and the part of the caller's payment handed back.
#[derive(Debug, Clone, PartialEq, Eq)]
pub struct SwapResponse {
    pub status: BatchStatus,
    pub swaps: Vec<Swap>,
    pub settlement: Settlement,
    pub refund: u128,
}

/// `st` settles the trades in `swaps`.
pub open spec fn settles(st: Settlement, swaps: Seq<Swap>, custody: Seq<char>) -> bool {
    &&& st.fair_burn_amount == total_network_fee(swaps)
    &&& aggregates(st.token_payments@, pay_list(swaps), custody)
    &&& st.nft_payments@.len() == swaps.len()
    &&& forall|i: int| 0 <= i < swaps.len() ==> (#[trigger] st.nft_payments@[i]) == swaps[i].nft_payment
}

/// The sum of `amounts`.
pub open spec fn sum_of(amounts: Seq<u128>) -> int
    decreases amounts.len(),
{
    if amounts.len() == 0 {
        0
    } else {
        sum_of(amounts.drop_last()) + amounts.last()
    }
}

/// The sum of `amounts`, if it fits in 128 bits.
fn checked_sum(amounts: &Vec<u128>) -> (r: Option<u128>)
    ensures
        r matches Some(t) ==> t == sum_of(amounts@),
        r is None ==> sum_of(amounts@) > u128::MAX,
{
    let mut total: u128 = 0;
    let mut i: usize = 0;
    while i < amounts.len()
        invariant
            0 <= i <= amounts@.len(),
            total == sum_of(amounts@.subrange(0, i as int)),
        decreases amounts@.len() - i,
    {
        proof {
            assert(amounts@.subrange(0, i + 1).drop_last() =~= amounts@.subrange(0, i as int));
        }
        if total > u128::MAX - amounts[i] {
            proof {
                lemma_sum_prefix_le(amounts@, i + 1);
            }
            return None;
        }
        total = total + amounts[i];
        i = i + 1;
    }
    proof {
        assert(amounts@.subrange(0, i as int) =~= amounts@);
    }
    Some(total)
}

proof fn lemma_sum_prefix_le(amounts: Seq<u128>, k: int)
    requires
        0 <= k <= amounts.len(),
    ensures
        sum_of(amounts.subrange(0, k)) <= sum_of(amounts),
    decreases amounts.len() - k,
{
    if k < amounts.len() {
        lemma_sum_prefix_le(amounts, k + 1);
        assert(amounts.subrange(0, k + 1).drop_last() =~= amounts.subrange(0, k));
    } else {
        assert(amounts.subrange(0, k) =~= amounts);
    }
}

/// Writes back the pools a batch changed, with their quotes recomputed and
/// published.
fn save_pools(store: &mut PoolStore, ctx: &PayoutContext, pools: Vec<PoolPair>)
    requires
        old(store).wf(),
        forall|a: int|
            0 <= a < pools@.len() ==> {
                &&& (#[trigger] pools@[a]).pool.wf()
                &&& pools@[a].pool.quotes_consistent()
                &&& old(store).get(pools@[a].pool.id) is Some
            },
        forall|a: int, b: int|
            0 <= a < pools@.len() && 0 <= b < pools@.len() && a != b ==> pools@[a].pool.id
                != pools@[b].pool.id,
    ensures
        final(store).wf(),
        final(store).next_pair_id == old(store).next_pair_id,
        forall|a: int|
            0 <= a < pools@.len() && (#[trigger] pools@[a]).needs_saving ==> final(store).get(
                pools@[a].pool.id,
            ) == Some(pools@[a].pool.refreshed(*ctx)),
        forall|x: u64|
            (forall|a: int| 0 <= a < pools@.len() && (#[trigger] pools@[a]).needs_saving ==> pools@[a].pool.id != x)
                ==> #[trigger] final(store).get(x) == old(store).get(x),
{
    let ghost all = pools@;
    let mut pools = pools;
    while pools.len() > 0
        invariant
            store.wf(),
            store.next_pair_id == old(store).next_pair_id,
            pools@ == all.subrange(0, pools@.len() as int),
            pools@.len() <= all.len(),
            forall|a: int|
                0 <= a < all.len() ==> {
                    &&& (#[trigger] all[a]).pool.wf()
                    &&& all[a].pool.quotes_consistent()
                    &&& old(store).get(all[a].pool.id) is Some
                },
            forall|a: int, b: int|
                0 <= a < all.len() && 0 <= b < all.len() && a != b ==> all[a].pool.id != all[b].pool.id,
            forall|a: int| 0 <= a < pools@.len() ==> store.get((#[trigger] all[a]).pool.id) is Some,
            forall|a: int|
                pools@.len() <= a < all.len() && (#[trigger] all[a]).needs_saving ==> store.get(
                    all[a].pool.id,
                ) == Some(all[a].pool.refreshed(*ctx)),
            forall|x: u64|
                (forall|a: int| 0 <= a < all.len() && (#[trigger] all[a]).needs_saving ==> all[a].pool.id != x) ==> #[trigger] store.get(x)
                    == old(store).get(x),
        decreases pools@.len(),
    {
        let pp = pools.pop().unwrap();
        let ghost k = pools@.len() as int;
        proof {
            assert(pp == all[k]);
        }
        if pp.needs_saving {
            let i = match store.find_pair(pp.pool.id) {
                Some(i) => i,
                None => {
                    proof {
                        assert(store.get(all[k].pool.id) is Some);
                    }
                    return;
                },
            };
            let ghost before = *store;
            let id = pp.pool.id;
            store.pairs.set(i, pp.pool);
            store.commit_pair(i, ctx, Ghost(before));
            proof {
                assert forall|a: int| 0 <= a < pools@.len() implies store.get((#[trigger] all[a]).pool.id) is Some by {
                    assert(all[a].pool.id != all[k].pool.id);
                    assert(before.get(all[a].pool.id) is Some);
                }
                assert forall|a: int|
                    pools@.len() <= a < all.len() && (#[trigger] all[a]).needs_saving implies store.get(
                        all[a].pool.id,
                    ) == Some(all[a].pool.refreshed(*ctx)) by {
                    if a != k {
                        assert(all[a].pool.id != all[k].pool.id);
                    }
                }
                assert forall|x: u64|
                    (forall|a: int| 0 <= a < all.len() && (#[trigger] all[a]).needs_saving ==> all[a].pool.id != x) implies #[trigger] store.get(x)
                        == old(store).get(x) by {
                    assert(all[k].pool.id != x);
                    assert(before.get(x) == old(store).get(x));
                }
            }
        }
    }
}

/// Finishes a batch of `n_legs` legs: settles its trades and writes back
/// the pools it changed.
fn finish(
    store: &mut PoolStore,
    ctx: &PayoutContext,
    processor: SwapProcessor,
    n_legs: usize,
    refund: u128,
) -> (r: Result<SwapResponse, ContractError>)
    requires
        old(store).wf(),
        processor.set_sound(*old(store)),
        processor.changes_traced(0),
        !settlement_overflows(processor.swaps@),
    ensures
        r is Ok,
        final(store).wf(),
        final(store).next_pair_id == old(store).next_pair_id,
        forall|x: u64|
            (forall|i: int| 0 <= i < processor.swaps@.len() ==> (#[trigger] processor.swaps@[i]).pool_id != x)
                ==> #[trigger] final(store).get(x) == old(store).get(x),
        r is Err ==> final(store).unchanged(*old(store)),
        r is Err ==> r == Err::<SwapResponse, ContractError>(ContractError::InvalidInput),
        r matches Ok(resp) ==> {
            &&& resp.swaps@ == processor.swaps@
            &&& resp.refund == refund
            &&& (resp.status == BatchStatus::Completed <==> processor.swaps@.len() == n_legs)
            &&& processor.swaps@.len() > 0 ==> settles(
                resp.settlement,
                processor.swaps@,
                processor.contract_address@,
            )
        },
{
    let n = processor.swaps.len();
    let settlement = if n == 0 {
        Settlement { fair_burn_amount: 0, token_payments: Vec::new(), nft_payments: Vec::new() }
    } else {
        match processor.commit_messages() {
            Ok(st) => st,
            Err(_) => return Err(ContractError::InvalidInput),
        }
    };
    let ghost set = processor.pool_set@;
    save_pools(store, ctx, processor.pool_set);
    proof {
        assert forall|x: u64|
            (forall|i: int| 0 <= i < processor.swaps@.len() ==> (#[trigger] processor.swaps@[i]).pool_id != x)
                implies #[trigger] store.get(x) == old(store).get(x) by {
            assert forall|a: int| 0 <= a < set.len() && (#[trigger] set[a]).needs_saving implies set[a].pool.id != x by {
                let j = choose|j: int| 0 <= j < processor.swaps@.len() && processor.swaps@[j].pool_id == set[a].pool.id;
                assert(processor.swaps@[j].pool_id != x);
            }
        }
    }
    let status = if n == n_legs {
        BatchStatus::Completed
    } else {
        BatchStatus::PartiallyCompleted
    };
    Ok(SwapResponse { status, swaps: processor.swaps, settlement, refund })
}

/// The gross prices of `swaps`, summed.
fn spent_by(swaps: &Vec<Swap>, bound: u128) -> (r: u128)
    requires
        total_spent(swaps@) <= bound,
    ensures
        r == total_spent(swaps@),
{
    let mut total: u128 = 0;
    let mut i: usize = 0;
    while i < swaps.len()
        invariant
            0 <= i <= swaps@.len(),
            total == total_spent(swaps@.subrange(0, i as int)),
            total_spent(swaps@) <= bound,
        decreases swaps@.len() - i,
    {
        proof {
            assert(swaps@.subrange(0, i + 1).drop_last() =~= swaps@.subrange(0, i as int));
            lemma_spent_prefix_le(swaps@, i + 1);
        }
        total = total + swaps[i].spot_price;
        i = i + 1;
    }
    proof {
        assert(swaps@.subrange(0, i as int) =~= swaps@);
    }
    total
}

proof fn lemma_spent_prefix_le(swaps: Seq<Swap>, k: int)
    requires
        0 <= k <= swaps.len(),
    ensures
        total_spent(swaps.subrange(0, k)) <= total_spent(swaps),
    decreases swaps.len() - k,
{
    if k < swaps.len() {
        lemma_spent_prefix_le(swaps, k + 1);
        assert(swaps.subrange(0, k + 1).drop_last() =~= swaps.subrange(0, k));
    } else {
        assert(swaps.subrange(0, k) =~= swaps);
    }
}

/// Trades each paying at most its leg's bound spend at most the bounds'
/// sum.
proof fn lemma_spent_within_bounds(swaps: Seq<Swap>, bounds: Seq<u128>)
    requires
        swaps.len() <= bounds.len(),
        forall|i: int| 0 <= i < swaps.len() ==> (#[trigger] swaps[i]).spot_price <= bounds[i],
    ensures
        total_spent(swaps) <= sum_of(bounds),
    decreases swaps.len(),
{
    if swaps.len() > 0 {
        let k = swaps.len() - 1;
        let d = swaps.drop_last();
        let b = bounds.subrange(0, k);
        assert forall|i: int| 0 <= i < d.len() implies (#[trigger] d[i]).spot_price <= b[i] by {
            assert(d[i] == swaps[i]);
        }
        lemma_spent_within_bounds(d, b);
        assert(bounds.subrange(0, k + 1).drop_last() =~= b);
        assert(bounds.subrange(0, k + 1).last() == bounds[k]);
        assert(swaps[k] == swaps.last());
        lemma_sum_prefix_le(bounds, k + 1);
    } else {
        lemma_sum_prefix_le(bounds, 0);
        assert(bounds.subrange(0, 0) =~= Seq::<u128>::empty());
    }
}

/// Sells the caller's items, leg by leg, each to the pool of the
/// collection that pays most for it at that moment.
pub fn execute_swap_nfts_for_tokens(
    store: &mut PoolStore,
    ctx: &PayoutContext,
    sender: &String,
    contract_address: &String,
    collection: &String,
    denom: &String,
    nfts_to_swap: Vec<NftSwap>,
    swap_params: SwapParams,
    block_time: u64,
) -> (r: Result<SwapResponse, ContractError>)
    requires
        old(store).wf(),
    ensures
        (r matches Err(ContractError::SwapError(_))) ==> exists|p: SwapProcessor|
            p.cursor.collection@ == collection@ && p.cursor.denom@ == denom@
                && p.block_time == block_time && p.deadline == swap_params.deadline && sale_stuck(
                *old(store),
                *ctx,
                p,
                nfts_to_swap@,
                recipient_or(swap_params.asset_recipient, *sender),
                *contract_address,
            ),
        r matches Ok(resp) ==> (resp.swaps@.len() < nfts_to_swap@.len() ==> exists|p: SwapProcessor|
            p.swaps@ == resp.swaps@ && p.cursor.collection@ == collection@ && p.cursor.denom@ == denom@
                && p.block_time == block_time && p.deadline == swap_params.deadline && sale_stuck(
                *old(store),
                *ctx,
                p,
                nfts_to_swap@,
                recipient_or(swap_params.asset_recipient, *sender),
                *contract_address,
            )),
        r matches Ok(resp) ==> exists|tr: Seq<Pair>, set: Seq<PoolPair>|
            linked(*old(store), *ctx, TransactionType::UserSubmitsNfts, resp.swaps@, tr, set) && sales_at_states(resp.swaps@, tr, nfts_to_swap@, recipient_or(swap_params.asset_recipient, *sender), *contract_address),
        r is Err ==> (r matches Err(ContractError::SwapError(_))) && !swap_params.robust,
        r matches Ok(resp) ==> forall|i: int|
            0 <= i < resp.swaps@.len() ==> sold_at_quote(
                #[trigger] resp.swaps@[i],
                nfts_to_swap@[i].nft_token_id,
                recipient_or(swap_params.asset_recipient, *sender),
                *contract_address,
            ),
        final(store).wf(),
        r is Err ==> final(store).unchanged(*old(store)),
        r matches Err(ContractError::SwapError(_)) ==> !swap_params.robust,
        r matches Ok(resp) ==> {
            let s = resp.swaps@;
            &&& forall|x: u64|
                #![trigger final(store).get(x)]
                (forall|i: int| 0 <= i < s.len() ==> (#[trigger] s[i]).pool_id != x) ==> final(store).get(x)
                    == old(store).get(x)
            &&& s.len() <= nfts_to_swap@.len()
            &&& !swap_params.robust ==> s.len() == nfts_to_swap@.len()
            &&& (resp.status == BatchStatus::Completed <==> s.len() == nfts_to_swap@.len())
            &&& forall|i: int|
                0 <= i < s.len() ==> {
                    &&& (#[trigger] s[i]).transaction_type == TransactionType::UserSubmitsNfts
                    &&& s[i].nft_payment.nft_token_id == nfts_to_swap@[i].nft_token_id
                    &&& s[i].spot_price >= nfts_to_swap@[i].token_amount
                }
            &&& forall|i: int, j: int|
                0 <= i < j < s.len() ==> (#[trigger] s[j]).spot_price <= (#[trigger] s[i]).spot_price
            &&& s.len() > 0 ==> settles(resp.settlement, s, contract_address@)
            &&& resp.refund == 0
        },
{
    let seller_recipient = match &swap_params.asset_recipient {
        Some(a) => a.clone(),
        None => sender.clone(),
    };
    let mut processor = SwapProcessor::new(
        TransactionType::UserSubmitsNfts,
        collection.clone(),
        denom.clone(),
        seller_recipient,
        contract_address.clone(),
        ctx.duplicate(),
        swap_params.deadline,
        block_time,
    );
    let n = nfts_to_swap.len();
    let ghost legs = nfts_to_swap@;
    proof {
        lemma_linked_empty(*store, processor.ctx, TransactionType::UserSubmitsNfts);
        lemma_records_empty(nfts_to_swap@, processor.seller_recipient, processor.contract_address);
        assert(processor.swaps@ =~= Seq::<Swap>::empty());
        assert(processor.traded@ =~= Seq::<Pair>::empty());
        assert(processor.pool_set@ =~= Seq::<PoolPair>::empty());
        lemma_covers_fresh(*store, processor.pool_set@, processor.cursor);
    }
    let res = processor.swap_nfts_for_tokens(&*store, nfts_to_swap, swap_params.robust);
    if let Err(e) = res {
        proof {
            assert(processor.cursor.collection@ == collection@);
            assert(processor.cursor.denom@ == denom@);
            assert(processor.block_time == block_time);
            assert(processor.deadline == swap_params.deadline);
            assert(processor.seller_recipient == recipient_or(swap_params.asset_recipient, *sender));
            assert(processor.contract_address == *contract_address);
            assert(sale_stuck(*store, *ctx, processor, legs, processor.seller_recipient, processor.contract_address));
        }
        return Err(e);
    }
    proof {
        assert(processor.cursor.collection@ == collection@);
        assert(processor.cursor.denom@ == denom@);
        assert(processor.block_time == block_time);
        assert(processor.deadline == swap_params.deadline);
        assert(processor.seller_recipient == recipient_or(swap_params.asset_recipient, *sender));
        assert(processor.contract_address == *contract_address);
        if processor.swaps@.len() < legs.len() {
            assert(sale_stuck(*store, *ctx, processor, legs, processor.seller_recipient, processor.contract_address));
        }
    }
    let ghost stuck_at = processor;
    proof {
        assert(processor.swaps@.subrange(0, 0) =~= Seq::<Swap>::empty());
        lemma_sales_settle(processor.swaps@, legs, processor.seller_recipient, processor.contract_address);
    }
    let ghost tr = processor.traded@;
    let ghost set = processor.pool_set@;
    let ghost before = *store;
    let r = finish(store, ctx, processor, n, 0);
    proof {
        assert(r matches Ok(resp) ==> resp.swaps@ == stuck_at.swaps@);
        assert(r matches Ok(resp) ==> linked(before, *ctx, TransactionType::UserSubmitsNfts, resp.swaps@, tr, set));
    }
    r
}

/// Sells the caller's items, leg by leg, to pool `pool_id`.
pub fn execute_direct_swap_nfts_for_tokens(
    store: &mut PoolStore,
    ctx: &PayoutContext,
    sender: &String,
    contract_address: &String,
    pool_id: u64,
    nfts_to_swap: Vec<NftSwap>,
    swap_params: SwapParams,
    block_time: u64,
) -> (r: Result<SwapResponse, ContractError>)
    requires
        old(store).wf(),
    ensures
        (r matches Err(ContractError::SwapError(_))) ==> exists|p: SwapProcessor| direct_sale_stuck(
                *old(store),
                *ctx,
                p,
                nfts_to_swap@,
                recipient_or(swap_params.asset_recipient, *sender),
                *contract_address,
                block_time,
                swap_params.deadline,
            ),
        r matches Ok(resp) ==> (resp.swaps@.len() < nfts_to_swap@.len() ==> exists|
            p: SwapProcessor,
        | p.swaps@ == resp.swaps@ && direct_sale_stuck(
                *old(store),
                *ctx,
                p,
                nfts_to_swap@,
                recipient_or(swap_params.asset_recipient, *sender),
                *contract_address,
                block_time,
                swap_params.deadline,
            )),
        r matches Ok(resp) ==> exists|tr: Seq<Pair>, set: Seq<PoolPair>|
            linked(*old(store), *ctx, TransactionType::UserSubmitsNfts, resp.swaps@, tr, set) && sales_at_states(resp.swaps@, tr, nfts_to_swap@, recipient_or(swap_params.asset_recipient, *sender), *contract_address),
        r is Err ==> (r == Err::<SwapResponse, ContractError>(ContractError::InvalidPool)
            && old(store).get(pool_id) is None) || ((r matches Err(ContractError::SwapError(_)))
            && !swap_params.robust),
        r matches Ok(resp) ==> forall|i: int|
            0 <= i < resp.swaps@.len() ==> sold_at_quote(
                #[trigger] resp.swaps@[i],
                nfts_to_swap@[i].nft_token_id,
                recipient_or(swap_params.asset_recipient, *sender),
                *contract_address,
            ),
        final(store).wf(),
        r is Err ==> final(store).unchanged(*old(store)),
        old(store).get(pool_id) is None ==> r == Err::<SwapResponse, ContractError>(
            ContractError::InvalidPool,
        ),
        r matches Err(ContractError::SwapError(_)) ==> !swap_params.robust,
        r matches Ok(resp) ==> {
            let s = resp.swaps@;
            &&& forall|x: u64|
                #![trigger final(store).get(x)]
                (forall|i: int| 0 <= i < s.len() ==> (#[trigger] s[i]).pool_id != x) ==> final(store).get(x)
                    == old(store).get(x)
            &&& s.len() <= nfts_to_swap@.len()
            &&& !swap_params.robust ==> s.len() == nfts_to_swap@.len()
            &&& (resp.status == BatchStatus::Completed <==> s.len() == nfts_to_swap@.len())
            &&& forall|i: int|
                0 <= i < s.len() ==> {
                    &&& (#[trigger] s[i]).transaction_type == TransactionType::UserSubmitsNfts
                    &&& s[i].pool_id == pool_id
                    &&& s[i].nft_payment.nft_token_id == nfts_to_swap@[i].nft_token_id
                    &&& s[i].spot_price >= nfts_to_swap@[i].token_amount
                }
            &&& forall|i: int, j: int|
                0 <= i < j < s.len() ==> (#[trigger] s[j]).spot_price <= (#[trigger] s[i]).spot_price
            &&& s.len() > 0 ==> settles(resp.settlement, s, contract_address@)
            &&& resp.refund == 0
        },
{
    let i = match store.find_pair(pool_id) {
        Some(i) => i,
        None => return Err(ContractError::InvalidPool),
    };
    let collection = store.pairs[i].immutable.collection.clone();
    let denom = store.pairs[i].immutable.denom.clone();
    let seller_recipient = match &swap_params.asset_recipient {
        Some(a) => a.clone(),
        None => sender.clone(),
    };
    let mut processor = SwapProcessor::new(
        TransactionType::UserSubmitsNfts,
        collection,
        denom,
        seller_recipient,
        contract_address.clone(),
        ctx.duplicate(),
        swap_params.deadline,
        block_time,
    );
    let n = nfts_to_swap.len();
    let ghost legs = nfts_to_swap@;
    proof {
        lemma_linked_empty(*store, processor.ctx, TransactionType::UserSubmitsNfts);
        lemma_records_empty(nfts_to_swap@, processor.seller_recipient, processor.contract_address);
        assert(processor.swaps@ =~= Seq::<Swap>::empty());
        assert(processor.traded@ =~= Seq::<Pair>::empty());
        assert(processor.pool_set@ =~= Seq::<PoolPair>::empty());
    }
    let res = processor.direct_swap_nfts_for_tokens(&*store, pool_id, nfts_to_swap, swap_params.robust);
    if let Err(e) = res {
        proof {
        assert(processor.swaps@.len() < legs.len());
        assert(processor.pool_set@.len() == 1);
        assert(linked(*store, *ctx, TransactionType::UserSubmitsNfts, processor.swaps@, processor.traded@, processor.pool_set@));
        assert(sales_at_states(processor.swaps@, processor.traded@, legs, recipient_or(swap_params.asset_recipient, *sender), *contract_address));
        assert(sell_failure(processor.pool_set@[0].pool, legs[processor.swaps@.len() as int], block_time, swap_params.deadline) is Some || processor.gross_overflow());
        assert(direct_sale_stuck(*store, *ctx, processor, legs, recipient_or(swap_params.asset_recipient, *sender), *contract_address, block_time, swap_params.deadline));
        assert(processor.block_time == block_time);
        assert(processor.deadline == swap_params.deadline);
        assert(processor.seller_recipient == recipient_or(swap_params.asset_recipient, *sender));
        assert(processor.contract_address == *contract_address);
        }
        return Err(e);
    }
    proof {
        assert(processor.block_time == block_time);
        assert(processor.deadline == swap_params.deadline);
        assert(processor.seller_recipient == recipient_or(swap_params.asset_recipient, *sender));
        assert(processor.contract_address == *contract_address);
    }
    proof {
        if processor.swaps@.len() < legs.len() {
            assert(processor.pool_set@.len() == 1);
            assert(direct_sale_stuck(*store, *ctx, processor, legs, recipient_or(swap_params.asset_recipient, *sender), *contract_address, block_time, swap_params.deadline));
        }
    }
    let ghost stuck_at = processor;
    proof {
        assert(processor.swaps@.subrange(0, 0) =~= Seq::<Swap>::empty());
        lemma_sales_settle(processor.swaps@, legs, processor.seller_recipient, processor.contract_address);
    }
    let ghost tr = processor.traded@;
    let ghost set = processor.pool_set@;
    let ghost before = *store;
    let r = finish(store, ctx, processor, n, 0);
    proof {
        assert(r matches Ok(resp) ==> resp.swaps@ == stuck_at.swaps@);
        assert(r matches Ok(resp) ==> linked(before, *ctx, TransactionType::UserSubmitsNfts, resp.swaps@, tr, set));
    }
    r
}

/// Buys one item per entry of `max_expected_token_input`, each from the
/// pool of the collection that asks least at that moment. The caller's
/// payment must cover every entry; what the trades do not spend is handed
/// back.
pub fn execute_swap_tokens_for_any_nfts(
    store: &mut PoolStore,
    ctx: &PayoutContext,
    sender: &String,
    contract_address: &String,
    collection: &String,
    denom: &String,
    max_expected_token_input: Vec<u128>,
    swap_params: SwapParams,
    block_time: u64,
    received_amount: u128,
) -> (r: Result<SwapResponse, ContractError>)
    requires
        old(store).wf(),
    ensures
        (r matches Err(ContractError::SwapError(_))) ==> exists|p: SwapProcessor|
            p.cursor.collection@ == collection@ && p.cursor.denom@ == denom@
                && p.block_time == block_time && p.deadline == swap_params.deadline && purchase_stuck(
                *old(store),
                *ctx,
                p,
                max_expected_token_input@,
                recipient_or(swap_params.asset_recipient, *sender),
                *contract_address,
            ),
        r matches Ok(resp) ==> (resp.swaps@.len() < max_expected_token_input@.len() ==> exists|
            p: SwapProcessor,
        | p.swaps@ == resp.swaps@ && p.cursor.collection@ == collection@ && p.cursor.denom@ == denom@
                && p.block_time == block_time && p.deadline == swap_params.deadline && purchase_stuck(
                *old(store),
                *ctx,
                p,
                max_expected_token_input@,
                recipient_or(swap_params.asset_recipient, *sender),
                *contract_address,
            )),
        r matches Ok(resp) ==> exists|tr: Seq<Pair>, set: Seq<PoolPair>|
            linked(*old(store), *ctx, TransactionType::UserSubmitsTokens, resp.swaps@, tr, set) && purchases_at_states(resp.swaps@, tr, recipient_or(swap_params.asset_recipient, *sender), *contract_address),
        r is Err ==> (r == Err::<SwapResponse, ContractError>(ContractError::InsufficientFunds)
            && sum_of(max_expected_token_input@) > received_amount) || ((r matches Err(
            ContractError::SwapError(_),
        )) && !swap_params.robust),
        r matches Ok(resp) ==> forall|i: int|
            0 <= i < resp.swaps@.len() ==> bought_at_quote(
                #[trigger] resp.swaps@[i],
                recipient_or(swap_params.asset_recipient, *sender),
                *contract_address,
            ),
        final(store).wf(),
        r is Err ==> final(store).unchanged(*old(store)),
        sum_of(max_expected_token_input@) > received_amount ==> r == Err::<
            SwapResponse,
            ContractError,
        >(ContractError::InsufficientFunds),
        r matches Err(ContractError::SwapError(_)) ==> !swap_params.robust,
        r matches Ok(resp) ==> {
            let s = resp.swaps@;
            &&& forall|x: u64|
                #![trigger final(store).get(x)]
                (forall|i: int| 0 <= i < s.len() ==> (#[trigger] s[i]).pool_id != x) ==> final(store).get(x)
                    == old(store).get(x)
            &&& s.len() <= max_expected_token_input@.len()
            &&& !swap_params.robust ==> s.len() == max_expected_token_input@.len()
            &&& (resp.status == BatchStatus::Completed <==> s.len()
                == max_expected_token_input@.len())
            &&& forall|i: int|
                0 <= i < s.len() ==> {
                    &&& (#[trigger] s[i]).transaction_type == TransactionType::UserSubmitsTokens
                    &&& s[i].spot_price <= max_expected_token_input@[i]
                }
            &&& forall|i: int, j: int|
                0 <= i < j < s.len() ==> (#[trigger] s[j]).spot_price >= (#[trigger] s[i]).spot_price
            &&& s.len() > 0 ==> settles(resp.settlement, s, contract_address@)
            &&& resp.refund == received_amount - total_spent(s)
        },
{
    match checked_sum(&max_expected_token_input) {
        Some(t) => {
            if t > received_amount {
                return Err(ContractError::InsufficientFunds);
            }
        },
        None => return Err(ContractError::InsufficientFunds),
    }
    let buyer_recipient = match &swap_params.asset_recipient {
        Some(a) => a.clone(),
        None => sender.clone(),
    };
    let mut processor = SwapProcessor::new(
        TransactionType::UserSubmitsTokens,
        collection.clone(),
        denom.clone(),
        buyer_recipient,
        contract_address.clone(),
        ctx.duplicate(),
        swap_params.deadline,
        block_time,
    );
    let n = max_expected_token_input.len();
    let ghost bounds = max_expected_token_input@;
    proof {
        lemma_linked_empty(*store, processor.ctx, TransactionType::UserSubmitsTokens);
        lemma_records_empty(Seq::empty(), processor.seller_recipient, processor.contract_address);
        assert(processor.swaps@ =~= Seq::<Swap>::empty());
        assert(processor.traded@ =~= Seq::<Pair>::empty());
        assert(processor.pool_set@ =~= Seq::<PoolPair>::empty());
        lemma_covers_fresh(*store, processor.pool_set@, processor.cursor);
    }
    let res = processor.swap_tokens_for_any_nfts(&*store, max_expected_token_input, swap_params.robust);
    if let Err(e) = res {
        proof {
            assert(processor.cursor.collection@ == collection@);
            assert(processor.cursor.denom@ == denom@);
            assert(processor.block_time == block_time);
            assert(processor.deadline == swap_params.deadline);
            assert(processor.seller_recipient == recipient_or(swap_params.asset_recipient, *sender));
            assert(processor.contract_address == *contract_address);
            assert(purchase_stuck(*store, *ctx, processor, bounds, processor.seller_recipient, processor.contract_address));
        }
        return Err(e);
    }
    proof {
        assert(processor.cursor.collection@ == collection@);
        assert(processor.cursor.denom@ == denom@);
        assert(processor.block_time == block_time);
        assert(processor.deadline == swap_params.deadline);
        assert(processor.seller_recipient == recipient_or(swap_params.asset_recipient, *sender));
        assert(processor.contract_address == *contract_address);
        if processor.swaps@.len() < bounds.len() {
            assert(purchase_stuck(*store, *ctx, processor, bounds, processor.seller_recipient, processor.contract_address));
        }
    }
    let ghost stuck_at = processor;
    proof {
        assert(processor.swaps@.subrange(0, 0) =~= Seq::<Swap>::empty());
        lemma_spent_within_bounds(processor.swaps@, bounds);
        lemma_purchases_settle(processor.swaps@, processor.seller_recipient, processor.contract_address);
    }
    let spent = spent_by(&processor.swaps, received_amount);
    let ghost tr = processor.traded@;
    let ghost set = processor.pool_set@;
    let ghost before = *store;
    let r = finish(store, ctx, processor, n, received_amount - spent);
    proof {
        assert(r matches Ok(resp) ==> resp.swaps@ == stuck_at.swaps@);
        assert(r matches Ok(resp) ==> linked(before, *ctx, TransactionType::UserSubmitsTokens, resp.swaps@, tr, set));
    }
    r
}

/// The price bounds of `legs`, in order.
pub open spec fn leg_bounds(legs: Seq<(u64, NftSwap)>) -> Seq<u128> {
    legs.map_values(|l: (u64, NftSwap)| l.1.token_amount)
}

fn bounds_of(legs: &Vec<(u64, NftSwap)>) -> (r: Vec<u128>)
    ensures
        r@ == leg_bounds(legs@),
{
    let mut r: Vec<u128> = Vec::new();
    let mut i: usize = 0;
    while i < legs.len()
        invariant
            0 <= i <= legs@.len(),
            r@ == leg_bounds(legs@.subrange(0, i as int)),
        decreases legs@.len() - i,
    {
        r.push(legs[i].1.token_amount);
        proof {
            assert(r@ =~= leg_bounds(legs@.subrange(0, i + 1)));
        }
        i = i + 1;
    }
    proof {
        assert(legs@.subrange(0, i as int) =~= legs@);
    }
    r
}

/// Buys the named items from the named pools, leg by leg. The caller's
/// payment must cover every leg's bound; what the trades do not spend is
/// handed back.
pub fn execute_swap_tokens_for_specific_nfts(
    store: &mut PoolStore,
    ctx: &PayoutContext,
    sender: &String,
    contract_address: &String,
    collection: &String,
    denom: &String,
    nfts_to_swap_for: Vec<PoolNftSwap>,
    swap_params: SwapParams,
    block_time: u64,
    received_amount: u128,
) -> (r: Result<SwapResponse, ContractError>)
    requires
        old(store).wf(),
    ensures
        r matches Ok(resp) ==> exists|tr: Seq<Pair>, set: Seq<PoolPair>|
            linked(*old(store), *ctx, TransactionType::UserSubmitsTokens, resp.swaps@, tr, set) && purchases_at_states(resp.swaps@, tr, recipient_or(swap_params.asset_recipient, *sender), *contract_address),
        r is Err ==> {
            let legs = flatten_legs(nfts_to_swap_for@);
            ||| r == Err::<SwapResponse, ContractError>(ContractError::InsufficientFunds) && sum_of(
                leg_bounds(legs),
            ) > received_amount
            ||| (r matches Err(ContractError::SwapError(_))) && !swap_params.robust
            ||| r == Err::<SwapResponse, ContractError>(ContractError::InvalidPool) && exists|i: int|
                0 <= i < legs.len() && old(store).get((#[trigger] legs[i]).0) is None
            ||| r == Err::<SwapResponse, ContractError>(ContractError::InvalidInput) && exists|i: int|
                0 <= i < legs.len() && (old(store).get((#[trigger] legs[i]).0) matches Some(p) && (
                p.immutable.collection@ != collection@ || p.immutable.denom@ != denom@))
        },
        r matches Ok(resp) ==> forall|i: int|
            0 <= i < resp.swaps@.len() ==> bought_at_quote(
                #[trigger] resp.swaps@[i],
                recipient_or(swap_params.asset_recipient, *sender),
                *contract_address,
            ),
        final(store).wf(),
        r is Err ==> final(store).unchanged(*old(store)),
        sum_of(leg_bounds(flatten_legs(nfts_to_swap_for@))) > received_amount ==> r == Err::<
            SwapResponse,
            ContractError,
        >(ContractError::InsufficientFunds),
        r matches Err(ContractError::SwapError(_)) ==> !swap_params.robust,
        r matches Ok(resp) ==> {
            let s = resp.swaps@;
            let legs = flatten_legs(nfts_to_swap_for@);
            &&& forall|x: u64|
                #![trigger final(store).get(x)]
                (forall|i: int| 0 <= i < s.len() ==> (#[trigger] s[i]).pool_id != x) ==> final(store).get(x)
                    == old(store).get(x)
            &&& s.len() <= legs.len()
            &&& !swap_params.robust ==> s.len() == legs.len()
            &&& (resp.status == BatchStatus::Completed <==> s.len() == legs.len())
            &&& forall|i: int|
                0 <= i < s.len() ==> {
                    &&& (#[trigger] s[i]).transaction_type == TransactionType::UserSubmitsTokens
                    &&& s[i].pool_id == legs[i].0
                    &&& s[i].nft_payment.nft_token_id == legs[i].1.nft_token_id
                    &&& s[i].spot_price <= legs[i].1.token_amount
                }
            &&& s.len() > 0 ==> settles(resp.settlement, s, contract_address@)
            &&& resp.refund == received_amount - total_spent(s)
        },
{
    let legs = flatten(&nfts_to_swap_for);
    let bounds = bounds_of(&legs);
    match checked_sum(&bounds) {
        Some(t) => {
            if t > received_amount {
                return Err(ContractError::InsufficientFunds);
            }
        },
        None => return Err(ContractError::InsufficientFunds),
    }
    let buyer_recipient = match &swap_params.asset_recipient {
        Some(a) => a.clone(),
        None => sender.clone(),
    };
    let mut processor = SwapProcessor::new(
        TransactionType::UserSubmitsTokens,
        collection.clone(),
        denom.clone(),
        buyer_recipient,
        contract_address.clone(),
        ctx.duplicate(),
        swap_params.deadline,
        block_time,
    );
    let n = legs.len();
    proof {
        lemma_linked_empty(*store, processor.ctx, TransactionType::UserSubmitsTokens);
        lemma_records_empty(Seq::empty(), processor.seller_recipient, processor.contract_address);
        assert(processor.swaps@ =~= Seq::<Swap>::empty());
        assert(processor.traded@ =~= Seq::<Pair>::empty());
        assert(processor.pool_set@ =~= Seq::<PoolPair>::empty());
    }
    processor.swap_tokens_for_specific_nfts(&*store, nfts_to_swap_for, swap_params.robust)?;
    proof {
        assert(processor.swaps@.subrange(0, 0) =~= Seq::<Swap>::empty());
        let s = processor.swaps@;
        assert forall|i: int| 0 <= i < s.len() implies (#[trigger] s[i]).spot_price <= bounds@[i] by {
            assert(bounds@[i] == legs@[i].1.token_amount);
        }
        lemma_spent_within_bounds(processor.swaps@, bounds@);
        lemma_purchases_settle(processor.swaps@, processor.seller_recipient, processor.contract_address);
    }
    let spent = spent_by(&processor.swaps, received_amount);
    let ghost tr = processor.traded@;
    let ghost set = processor.pool_set@;
    let ghost before = *store;
    let r = finish(store, ctx, processor, n, received_amount - spent);
    proof {
        assert(r matches Ok(resp) ==> linked(before, *ctx, TransactionType::UserSubmitsTokens, resp.swaps@, tr, set));
    }
    r
}

/// Buys the named items from pool `pool_id`, leg by leg.
pub fn execute_direct_swap_tokens_for_specific_nfts(
    store: &mut PoolStore,
    ctx: &PayoutContext,
    sender: &String,
    contract_address: &String,
    pool_id: u64,
    nfts_to_swap_for: Vec<NftSwap>,
    swap_params: SwapParams,
    block_time: u64,
    received_amount: u128,
) -> (r: Result<SwapResponse, ContractError>)
    requires
        old(store).wf(),
    ensures
        r matches Ok(resp) ==> exists|tr: Seq<Pair>, set: Seq<PoolPair>|
            linked(*old(store), *ctx, TransactionType::UserSubmitsTokens, resp.swaps@, tr, set) && purchases_at_states(resp.swaps@, tr, recipient_or(swap_params.asset_recipient, *sender), *contract_address),
        r is Err ==> (r == Err::<SwapResponse, ContractError>(ContractError::InvalidPool)
            && old(store).get(pool_id) is None) || (r == Err::<SwapResponse, ContractError>(
            ContractError::InsufficientFunds,
        ) && sum_of(nfts_to_swap_for@.map_values(|l: NftSwap| l.token_amount)) > received_amount)
            || ((r matches Err(ContractError::SwapError(_))) && !swap_params.robust),
        r matches Ok(resp) ==> forall|i: int|
            0 <= i < resp.swaps@.len() ==> bought_at_quote(
                #[trigger] resp.swaps@[i],
                recipient_or(swap_params.asset_recipient, *sender),
                *contract_address,
            ),
        final(store).wf(),
        r is Err ==> final(store).unchanged(*old(store)),
        old(store).get(pool_id) is None ==> r == Err::<SwapResponse, ContractError>(
            ContractError::InvalidPool,
        ),
        r matches Err(ContractError::SwapError(_)) ==> !swap_params.robust,
        r matches Ok(resp) ==> {
            let s = resp.swaps@;
            &&& forall|x: u64|
                #![trigger final(store).get(x)]
                (forall|i: int| 0 <= i < s.len() ==> (#[trigger] s[i]).pool_id != x) ==> final(store).get(x)
                    == old(store).get(x)
            &&& s.len() <= nfts_to_swap_for@.len()
            &&& !swap_params.robust ==> s.len() == nfts_to_swap_for@.len()
            &&& (resp.status == BatchStatus::Completed <==> s.len() == nfts_to_swap_for@.len())
            &&& forall|i: int|
                0 <= i < s.len() ==> {
                    &&& (#[trigger] s[i]).transaction_type == TransactionType::UserSubmitsTokens
                    &&& s[i].pool_id == pool_id
                    &&& s[i].nft_payment.nft_token_id == nfts_to_swap_for@[i].nft_token_id
                    &&& s[i].spot_price <= nfts_to_swap_for@[i].token_amount
                }
            &&& s.len() > 0 ==> settles(resp.settlement, s, contract_address@)
            &&& resp.refund == received_amount - total_spent(s)
        },
{
    let i = match store.find_pair(pool_id) {
        Some(i) => i,
        None => return Err(ContractError::InvalidPool),
    };
    let collection = store.pairs[i].immutable.collection.clone();
    let denom = store.pairs[i].immutable.denom.clone();
    let ghost legs = nfts_to_swap_for@;
    let groups = vec![PoolNftSwap { pool_id, nft_swaps: nfts_to_swap_for }];
    proof {
        let g = groups@;
        assert(g.len() == 1);
        assert(g.last().nft_swaps@ == legs);
        assert(g.drop_last() =~= Seq::<PoolNftSwap>::empty());
        assert(flatten_legs(g.drop_last()) =~= Seq::<(u64, NftSwap)>::empty());
        assert(flatten_legs(g) =~= legs.map_values(|s: NftSwap| (pool_id, s)));
        assert(leg_bounds(flatten_legs(g)) =~= legs.map_values(|l: NftSwap| l.token_amount));
    }
    let ghost g = groups@;
    let ghost before = *store;
    let r = execute_swap_tokens_for_specific_nfts(
        store,
        ctx,
        sender,
        contract_address,
        &collection,
        &denom,
        groups,
        swap_params,
        block_time,
        received_amount,
    );
    proof {
        let flat = flatten_legs(g);
        assert forall|k: int| 0 <= k < flat.len() implies (#[trigger] flat[k]).0 == pool_id by {
            assert(flat[k] == (pool_id, legs[k]));
        }
        assert(before.get(pool_id) == Some(before.pairs@[i as int]));
    }
    r
}

/// The response of a batch that is not written back.
fn respond(processor: SwapProcessor, n_legs: usize, refund: u128) -> (r: Result<SwapResponse, ContractError>)
    requires
        !settlement_overflows(processor.swaps@),
    ensures
        r is Ok,
        r is Err ==> r == Err::<SwapResponse, ContractError>(ContractError::InvalidInput),
        r matches Ok(resp) ==> {
            &&& resp.swaps@ == processor.swaps@
            &&& resp.refund == refund
            &&& (resp.status == BatchStatus::Completed <==> processor.swaps@.len() == n_legs)
            &&& processor.swaps@.len() > 0 ==> settles(
                resp.settlement,
                processor.swaps@,
                processor.contract_address@,
            )
        },
{
    let n = processor.swaps.len();
    let settlement = if n == 0 {
        Settlement { fair_burn_amount: 0, token_payments: Vec::new(), nft_payments: Vec::new() }
    } else {
        match processor.commit_messages() {
            Ok(st) => st,
            Err(_) => return Err(ContractError::InvalidInput),
        }
    };
    let status = if n == n_legs {
        BatchStatus::Completed
    } else {
        BatchStatus::PartiallyCompleted
    };
    Ok(SwapResponse { status, swaps: processor.swaps, settlement, refund })
}

/// What `execute_swap_nfts_for_tokens` would do, without changing any pool.
pub fn sim_swap_nfts_for_tokens(
    store: &PoolStore,
    ctx: &PayoutContext,
    sender: &String,
    contract_address: &String,
    collection: &String,
    denom: &String,
    nfts_to_swap: Vec<NftSwap>,
    swap_params: SwapParams,
    block_time: u64,
) -> (r: Result<SwapResponse, ContractError>)
    requires
        store.wf(),
    ensures
        (r matches Err(ContractError::SwapError(_))) ==> exists|p: SwapProcessor|
            p.cursor.collection@ == collection@ && p.cursor.denom@ == denom@
                && p.block_time == block_time && p.deadline == swap_params.deadline && sale_stuck(
                *store,
                *ctx,
                p,
                nfts_to_swap@,
                recipient_or(swap_params.asset_recipient, *sender),
                *contract_address,
            ),
        r matches Ok(resp) ==> (resp.swaps@.len() < nfts_to_swap@.len() ==> exists|p: SwapProcessor|
            p.swaps@ == resp.swaps@ && p.cursor.collection@ == collection@ && p.cursor.denom@ == denom@
                && p.block_time == block_time && p.deadline == swap_params.deadline && sale_stuck(
                *store,
                *ctx,
                p,
                nfts_to_swap@,
                recipient_or(swap_params.asset_recipient, *sender),
                *contract_address,
            )),
        r matches Ok(resp) ==> exists|tr: Seq<Pair>, set: Seq<PoolPair>|
            linked(*store, *ctx, TransactionType::UserSubmitsNfts, resp.swaps@, tr, set) && sales_at_states(resp.swaps@, tr, nfts_to_swap@, recipient_or(swap_params.asset_recipient, *sender), *contract_address),
        r is Err ==> (r matches Err(ContractError::SwapError(_))) && !swap_params.robust,
        r matches Ok(resp) ==> forall|i: int|
            0 <= i < resp.swaps@.len() ==> sold_at_quote(
                #[trigger] resp.swaps@[i],
                nfts_to_swap@[i].nft_token_id,
                recipient_or(swap_params.asset_recipient, *sender),
                *contract_address,
            ),
        r matches Err(ContractError::SwapError(_)) ==> !swap_params.robust,
        r matches Ok(resp) ==> {
            let s = resp.swaps@;
            &&& s.len() <= nfts_to_swap@.len()
            &&& !swap_params.robust ==> s.len() == nfts_to_swap@.len()
            &&& (resp.status == BatchStatus::Completed <==> s.len() == nfts_to_swap@.len())
            &&& forall|i: int|
                0 <= i < s.len() ==> {
                    &&& (#[trigger] s[i]).transaction_type == TransactionType::UserSubmitsNfts
                    &&& s[i].nft_payment.nft_token_id == nfts_to_swap@[i].nft_token_id
                    &&& s[i].spot_price >= nfts_to_swap@[i].token_amount
                }
            &&& forall|i: int, j: int|
                0 <= i < j < s.len() ==> (#[trigger] s[j]).spot_price <= (#[trigger] s[i]).spot_price
            &&& s.len() > 0 ==> settles(resp.settlement, s, contract_address@)
            &&& resp.refund == 0
        },
{
    let seller_recipient = match &swap_params.asset_recipient {
        Some(a) => a.clone(),
        None => sender.clone(),
    };
    let mut processor = SwapProcessor::new(
        TransactionType::UserSubmitsNfts,
        collection.clone(),
        denom.clone(),
        seller_recipient,
        contract_address.clone(),
        ctx.duplicate(),
        swap_params.deadline,
        block_time,
    );
    let n = nfts_to_swap.len();
    let ghost legs = nfts_to_swap@;
    proof {
        lemma_linked_empty(*store, processor.ctx, TransactionType::UserSubmitsNfts);
        lemma_records_empty(nfts_to_swap@, processor.seller_recipient, processor.contract_address);
        assert(processor.swaps@ =~= Seq::<Swap>::empty());
        assert(processor.traded@ =~= Seq::<Pair>::empty());
        assert(processor.pool_set@ =~= Seq::<PoolPair>::empty());
        lemma_covers_fresh(*store, processor.pool_set@, processor.cursor);
    }
    let res = processor.swap_nfts_for_tokens(store, nfts_to_swap, swap_params.robust);
    if let Err(e) = res {
        proof {
            assert(processor.cursor.collection@ == collection@);
            assert(processor.cursor.denom@ == denom@);
            assert(processor.block_time == block_time);
            assert(processor.deadline == swap_params.deadline);
            assert(processor.seller_recipient == recipient_or(swap_params.asset_recipient, *sender));
            assert(processor.contract_address == *contract_address);
            assert(sale_stuck(*store, *ctx, processor, legs, processor.seller_recipient, processor.contract_address));
        }
        return Err(e);
    }
    proof {
        assert(processor.cursor.collection@ == collection@);
        assert(processor.cursor.denom@ == denom@);
        assert(processor.block_time == block_time);
        assert(processor.deadline == swap_params.deadline);
        assert(processor.seller_recipient == recipient_or(swap_params.asset_recipient, *sender));
        assert(processor.contract_address == *contract_address);
        if processor.swaps@.len() < legs.len() {
            assert(sale_stuck(*store, *ctx, processor, legs, processor.seller_recipient, processor.contract_address));
        }
    }
    let ghost stuck_at = processor;
    proof {
        assert(processor.swaps@.subrange(0, 0) =~= Seq::<Swap>::empty());
        lemma_sales_settle(processor.swaps@, legs, processor.seller_recipient, processor.contract_address);
    }
    let ghost tr = processor.traded@;
    let ghost set = processor.pool_set@;
    let r = respond(processor, n, 0);
    proof {
        assert(r matches Ok(resp) ==> resp.swaps@ == stuck_at.swaps@);
        assert(r matches Ok(resp) ==> linked(*store, *ctx, TransactionType::UserSubmitsNfts, resp.swaps@, tr, set));
    }
    r
}

/// What `execute_swap_tokens_for_any_nfts` would do, without changing any
/// pool.
pub fn sim_swap_tokens_for_any_nfts(
    store: &PoolStore,
    ctx: &PayoutContext,
    sender: &String,
    contract_address: &String,
    collection: &String,
    denom: &String,
    max_expected_token_input: Vec<u128>,
    swap_params: SwapParams,
    block_time: u64,
    received_amount: u128,
) -> (r: Result<SwapResponse, ContractError>)
    requires
        store.wf(),
    ensures
        (r matches Err(ContractError::SwapError(_))) ==> exists|p: SwapProcessor|
            p.cursor.collection@ == collection@ && p.cursor.denom@ == denom@
                && p.block_time == block_time && p.deadline == swap_params.deadline && purchase_stuck(
                *store,
                *ctx,
                p,
                max_expected_token_input@,
                recipient_or(swap_params.asset_recipient, *sender),
                *contract_address,
            ),
        r matches Ok(resp) ==> (resp.swaps@.len() < max_expected_token_input@.len() ==> exists|
            p: SwapProcessor,
        | p.swaps@ == resp.swaps@ && p.cursor.collection@ == collection@ && p.cursor.denom@ == denom@
                && p.block_time == block_time && p.deadline == swap_params.deadline && purchase_stuck(
                *store,
                *ctx,
                p,
                max_expected_token_input@,
                recipient_or(swap_params.asset_recipient, *sender),
                *contract_address,
            )),
        r matches Ok(resp) ==> exists|tr: Seq<Pair>, set: Seq<PoolPair>|
            linked(*store, *ctx, TransactionType::UserSubmitsTokens, resp.swaps@, tr, set) && purchases_at_states(resp.swaps@, tr, recipient_or(swap_params.asset_recipient, *sender), *contract_address),
        r is Err ==> (r == Err::<SwapResponse, ContractError>(ContractError::InsufficientFunds)
            && sum_of(max_expected_token_input@) > received_amount) || ((r matches Err(
            ContractError::SwapError(_),
        )) && !swap_params.robust),
        r matches Ok(resp) ==> forall|i: int|
            0 <= i < resp.swaps@.len() ==> bought_at_quote(
                #[trigger] resp.swaps@[i],
                recipient_or(swap_params.asset_recipient, *sender),
                *contract_address,
            ),
        sum_of(max_expected_token_input@) > received_amount ==> r == Err::<
            SwapResponse,
            ContractError,
        >(ContractError::InsufficientFunds),
        r matches Err(ContractError::SwapError(_)) ==> !swap_params.robust,
        r matches Ok(resp) ==> {
            let s = resp.swaps@;
            &&& s.len() <= max_expected_token_input@.len()
            &&& !swap_params.robust ==> s.len() == max_expected_token_input@.len()
            &&& (resp.status == BatchStatus::Completed <==> s.len()
                == max_expected_token_input@.len())
            &&& forall|i: int|
                0 <= i < s.len() ==> {
                    &&& (#[trigger] s[i]).transaction_type == TransactionType::UserSubmitsTokens
                    &&& s[i].spot_price <= max_expected_token_input@[i]
                }
            &&& forall|i: int, j: int|
                0 <= i < j < s.len() ==> (#[trigger] s[j]).spot_price >= (#[trigger] s[i]).spot_price
            &&& s.len() > 0 ==> settles(resp.settlement, s, contract_address@)
            &&& resp.refund == received_amount - total_spent(s)
        },
{
    match checked_sum(&max_expected_token_input) {
        Some(t) => {
            if t > received_amount {
                return Err(ContractError::InsufficientFunds);
            }
        },
        None => return Err(ContractError::InsufficientFunds),
    }
    let buyer_recipient = match &swap_params.asset_recipient {
        Some(a) => a.clone(),
        None => sender.clone(),
    };
    let mut processor = SwapProcessor::new(
        TransactionType::UserSubmitsTokens,
        collection.clone(),
        denom.clone(),
        buyer_recipient,
        contract_address.clone(),
        ctx.duplicate(),
        swap_params.deadline,
        block_time,
    );
    let n = max_expected_token_input.len();
    let ghost bounds = max_expected_token_input@;
    proof {
        lemma_linked_empty(*store, processor.ctx, TransactionType::UserSubmitsTokens);
        lemma_records_empty(Seq::empty(), processor.seller_recipient, processor.contract_address);
        assert(processor.swaps@ =~= Seq::<Swap>::empty());
        assert(processor.traded@ =~= Seq::<Pair>::empty());
        assert(processor.pool_set@ =~= Seq::<PoolPair>::empty());
        lemma_covers_fresh(*store, processor.pool_set@, processor.cursor);
    }
    let res = processor.swap_tokens_for_any_nfts(store, max_expected_token_input, swap_params.robust);
    if let Err(e) = res {
        proof {
            assert(processor.cursor.collection@ == collection@);
            assert(processor.cursor.denom@ == denom@);
            assert(processor.block_time == block_time);
            assert(processor.deadline == swap_params.deadline);
            assert(processor.seller_recipient == recipient_or(swap_params.asset_recipient, *sender));
            assert(processor.contract_address == *contract_address);
            assert(purchase_stuck(*store, *ctx, processor, bounds, processor.seller_recipient, processor.contract_address));
        }
        return Err(e);
    }
    proof {
        assert(processor.cursor.collection@ == collection@);
        assert(processor.cursor.denom@ == denom@);
        assert(processor.block_time == block_time);
        assert(processor.deadline == swap_params.deadline);
        assert(processor.seller_recipient == recipient_or(swap_params.asset_recipient, *sender));
        assert(processor.contract_address == *contract_address);
        if processor.swaps@.len() < bounds.len() {
            assert(purchase_stuck(*store, *ctx, processor, bounds, processor.seller_recipient, processor.contract_address));
        }
    }
    let ghost stuck_at = processor;
    proof {
        assert(processor.swaps@.subrange(0, 0) =~= Seq::<Swap>::empty());
        lemma_spent_within_bounds(processor.swaps@, bounds);
        lemma_purchases_settle(processor.swaps@, processor.seller_recipient, processor.contract_address);
    }
    let spent = spent_by(&processor.swaps, received_amount);
    let ghost tr = processor.traded@;
    let ghost set = processor.pool_set@;
    let r = respond(processor, n, received_amount - spent);
    proof {
        assert(r matches Ok(resp) ==> resp.swaps@ == stuck_at.swaps@);
        assert(r matches Ok(resp) ==> linked(*store, *ctx, TransactionType::UserSubmitsTokens, resp.swaps@, tr, set));
    }
    r
}

} // verus!
