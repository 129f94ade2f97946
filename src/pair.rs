use vstd::prelude::*;

use crate::curve::{
    calc_cp_trade_buy_from_pair_price, calc_cp_trade_sell_to_pair_price,
    calc_exponential_spot_price_user_submits_nft, calc_exponential_spot_price_user_submits_tokens,
    calc_exponential_trade_buy_from_pair_price, calc_linear_spot_price_user_submits_nft,
    calc_linear_spot_price_user_submits_tokens, calc_linear_trade_buy_from_pair_price,
    cp_buy_from_pair_price, cp_sell_to_pair_price, curve_after, exponential_submits_tokens,
    linear_submits_tokens, BondingCurve, TransactionType, BPS_DENOMINATOR,
};
use crate::error::ContractError;
use crate::index::{PairQuote, PriceIndex};
use crate::quote::{PayoutContext, QuoteSummary};

verus! {

/// Whether a pool trades in one direction or in both.
#[derive(Debug, Clone, Copy, PartialEq, Eq, Structural)]
pub enum PoolType {
    /// The pool lists items for sale; no reinvestment and no swap fee.
    NftOnly,
    /// A two-sided market maker.
    Trade { reinvest_tokens: bool, reinvest_nfts: bool, swap_fee_bps: u128 },
}

/// The fields of a pool that never change after creation.
#[derive(Debug, Clone, PartialEq, Eq)]
pub struct PairImmutable {
    pub collection: String,
    pub owner: String,
    pub denom: String,
}

/// The fields of a pool that its owner may change.
#[derive(Debug, Clone, PartialEq, Eq)]
pub struct PairConfig {
    pub pool_type: PoolType,
    pub bonding_curve: BondingCurve,
    pub is_active: bool,
    pub asset_recipient: Option<String>,
}

/// The inventory of a pool and its two cached quotes.
#[derive(Debug, Clone, PartialEq, Eq)]
pub struct PairInternal {
    pub nft_token_ids: Vec<String>,
    pub sell_to_pair_quote_summary: Option<QuoteSummary>,
    pub buy_from_pair_quote_summary: Option<QuoteSummary>,
}

/// A pool: curve state, token balance and item inventory of one owner, for
/// one collection and one denomination.
#[derive(Debug, Clone, PartialEq, Eq)]
pub struct Pair {
    pub id: u64,
    pub immutable: PairImmutable,
    pub config: PairConfig,
    pub internal: PairInternal,
    pub total_tokens: u128,
}

/// The views of a sequence of item ids.
pub open spec fn ids_view(ids: Seq<String>) -> Seq<Seq<char>> {
    ids.map_values(|s: String| s@)
}

/// The swap fee of a pool type; a one-sided pool has none.
pub open spec fn fee_of_type(t: PoolType) -> u128 {
    match t {
        PoolType::Trade { swap_fee_bps, .. } => swap_fee_bps,
        PoolType::NftOnly => 0,
    }
}

/// A configuration is legal: a constant-product curve needs a two-sided
/// pool, and the swap fee is at most 100%.
pub open spec fn config_valid(c: PairConfig) -> bool {
    &&& (c.bonding_curve is ConstantProduct ==> c.pool_type is Trade)
    &&& fee_of_type(c.pool_type) <= BPS_DENOMINATOR
}

/// Checks the rules of `config_valid`.
pub fn validate_config(config: &PairConfig) -> (r: Result<(), ContractError>)
    ensures
        r is Ok <==> config_valid(*config),
        r is Err ==> r == Err::<(), ContractError>(ContractError::InvalidPool),
{
    match config.pool_type {
        PoolType::NftOnly => {
            match config.bonding_curve {
                BondingCurve::ConstantProduct => Err(ContractError::InvalidPool),
                _ => Ok(()),
            }
        },
        PoolType::Trade { swap_fee_bps, .. } => {
            if swap_fee_bps > BPS_DENOMINATOR {
                Err(ContractError::InvalidPool)
            } else {
                Ok(())
            }
        },
    }
}

impl Pair {
    /// The item ids the pool holds.
    pub open spec fn inventory(&self) -> Seq<Seq<char>> {
        ids_view(self.internal.nft_token_ids@)
    }

    pub open spec fn total_nfts(&self) -> nat {
        self.internal.nft_token_ids@.len()
    }

    /// A legal configuration and an inventory of distinct ids.
    pub open spec fn wf(&self) -> bool {
        &&& config_valid(self.config)
        &&& self.total_nfts() <= u64::MAX
        &&& self.inventory().no_duplicates()
    }

    /// The pool keeps the items it buys.
    pub open spec fn reinvests_nfts(&self) -> bool {
        self.config.pool_type matches PoolType::Trade { reinvest_nfts, .. } && reinvest_nfts
    }

    /// The pool keeps the proceeds of the items it sells.
    pub open spec fn reinvests_tokens(&self) -> bool {
        self.config.pool_type matches PoolType::Trade { reinvest_tokens, .. } && reinvest_tokens
    }

    /// `next` has the curve of this pool after one trade in direction `tx`,
    /// or, when that transition is invalid, the same curve and trading off.
    pub open spec fn curve_step(&self, next: Pair, tx: TransactionType) -> bool {
        match curve_after(self.config.bonding_curve, tx) {
            Some(c) => {
                &&& next.config.bonding_curve == c
                &&& next.config.is_active == self.config.is_active
            },
            None => {
                &&& next.config.bonding_curve == self.config.bonding_curve
                &&& !next.config.is_active
            },
        }
    }

    pub open spec fn swap_fee_spec(&self) -> u128 {
        fee_of_type(self.config.pool_type)
    }

    /// Where the pool's proceeds go: the asset recipient, else the owner.
    pub open spec fn recipient_spec(&self) -> String {
        match self.config.asset_recipient {
            Some(a) => a,
            None => self.immutable.owner,
        }
    }

    /// The gross amount the pool pays for one item, capped by its tokens.
    pub open spec fn sell_price(&self) -> Option<u128> {
        if !self.config.is_active {
            None
        } else {
            let p = match self.config.bonding_curve {
                BondingCurve::Linear { spot_price, .. } => Some(spot_price),
                BondingCurve::Exponential { spot_price, .. } => Some(spot_price),
                BondingCurve::ConstantProduct => cp_sell_to_pair_price(
                    self.total_tokens,
                    self.total_nfts() as u64,
                ),
            };
            match p {
                Some(a) => if a <= self.total_tokens {
                    Some(a)
                } else {
                    None
                },
                None => None,
            }
        }
    }

    /// The gross amount the pool asks for one of its items.
    pub open spec fn buy_price(&self) -> Option<u128> {
        if !self.config.is_active || self.total_nfts() == 0 {
            None
        } else {
            match self.config.pool_type {
                PoolType::NftOnly => match self.config.bonding_curve {
                    BondingCurve::Linear { spot_price, .. } => Some(spot_price),
                    BondingCurve::Exponential { spot_price, .. } => Some(spot_price),
                    BondingCurve::ConstantProduct => None,
                },
                PoolType::Trade { .. } => match self.config.bonding_curve {
                    BondingCurve::Linear { spot_price, delta } => linear_submits_tokens(
                        spot_price,
                        delta,
                    ),
                    BondingCurve::Exponential { spot_price, delta } => exponential_submits_tokens(
                        spot_price,
                        delta,
                    ),
                    BondingCurve::ConstantProduct => cp_buy_from_pair_price(
                        self.total_tokens,
                        self.total_nfts() as u64,
                    ),
                },
            }
        }
    }

    /// The breakdown of the sell-to-pool price.
    pub open spec fn sell_quote(&self, ctx: PayoutContext) -> Option<QuoteSummary> {
        match self.sell_price() {
            Some(a) => ctx.quote_spec(a, self.swap_fee_spec(), self.recipient_spec()),
            None => None,
        }
    }

    /// The breakdown of the buy-from-pool price.
    pub open spec fn buy_quote(&self, ctx: PayoutContext) -> Option<QuoteSummary> {
        match self.buy_price() {
            Some(a) => ctx.quote_spec(a, self.swap_fee_spec(), self.recipient_spec()),
            None => None,
        }
    }

    /// The pool with both cached quotes recomputed.
    pub open spec fn refreshed(&self, ctx: PayoutContext) -> Pair {
        Pair {
            internal: PairInternal {
                sell_to_pair_quote_summary: self.sell_quote(ctx),
                buy_from_pair_quote_summary: self.buy_quote(ctx),
                ..self.internal
            },
            ..*self
        }
    }

    /// Both cached quotes are those of the current state.
    pub open spec fn quotes_fresh(&self, ctx: PayoutContext) -> bool {
        &&& self.internal.sell_to_pair_quote_summary == self.sell_quote(ctx)
        &&& self.internal.buy_from_pair_quote_summary == self.buy_quote(ctx)
    }

    pub fn new(
        id: u64,
        immutable: PairImmutable,
        config: PairConfig,
        internal: PairInternal,
        total_tokens: u128,
    ) -> (r: Pair)
        ensures
            r == (Pair { id, immutable, config, internal, total_tokens }),
    {
        Pair { id, immutable, config, internal, total_tokens }
    }

    /// A new empty pool, if its configuration is legal.
    pub fn initialize(id: u64, immutable: PairImmutable, config: PairConfig) -> (r: Result<
        Pair,
        ContractError,
    >)
        ensures
            r is Ok <==> config_valid(config),
            r is Err ==> r == Err::<Pair, ContractError>(ContractError::InvalidPool),
            r matches Ok(p) ==> {
                &&& p.wf()
                &&& p.id == id
                &&& p.immutable == immutable
                &&& p.config == config
                &&& p.total_tokens == 0
                &&& p.total_nfts() == 0
                &&& p.internal.sell_to_pair_quote_summary is None
                &&& p.internal.buy_from_pair_quote_summary is None
            },
    {
        validate_config(&config)?;
        let internal = PairInternal {
            nft_token_ids: Vec::new(),
            sell_to_pair_quote_summary: None,
            buy_from_pair_quote_summary: None,
        };
        let p = Pair::new(id, immutable, config, internal, 0);
        assert(p.inventory() =~= Seq::<Seq<char>>::empty());
        Ok(p)
    }

    /// `self` and `other` hold the same values; their item lists may be
    /// distinct allocations with the same contents.
    pub open spec fn same_as(&self, other: Pair) -> bool {
        &&& self.id == other.id
        &&& self.immutable == other.immutable
        &&& self.config == other.config
        &&& self.internal.nft_token_ids@ == other.internal.nft_token_ids@
        &&& self.internal.sell_to_pair_quote_summary == other.internal.sell_to_pair_quote_summary
        &&& self.internal.buy_from_pair_quote_summary == other.internal.buy_from_pair_quote_summary
        &&& self.total_tokens == other.total_tokens
    }

    /// A copy of the pool.
    pub fn duplicate(&self) -> (r: Pair)
        ensures
            r.same_as(*self),
    {
        let ids = &self.internal.nft_token_ids;
        let mut copy: Vec<String> = Vec::new();
        let mut k: usize = 0;
        while k < ids.len()
            invariant
                0 <= k <= ids@.len(),
                copy@ == ids@.subrange(0, k as int),
            decreases ids@.len() - k,
        {
            copy.push(ids[k].clone());
            proof {
                assert(copy@ =~= ids@.subrange(0, k + 1));
            }
            k = k + 1;
        }
        proof {
            assert(copy@ =~= ids@);
        }
        let sell = match &self.internal.sell_to_pair_quote_summary {
            Some(q) => Some(q.duplicate()),
            None => None,
        };
        let buy = match &self.internal.buy_from_pair_quote_summary {
            Some(q) => Some(q.duplicate()),
            None => None,
        };
        let asset_recipient = match &self.config.asset_recipient {
            Some(a) => Some(a.clone()),
            None => None,
        };
        Pair {
            id: self.id,
            immutable: PairImmutable {
                collection: self.immutable.collection.clone(),
                owner: self.immutable.owner.clone(),
                denom: self.immutable.denom.clone(),
            },
            config: PairConfig {
                pool_type: self.config.pool_type,
                bonding_curve: self.config.bonding_curve,
                is_active: self.config.is_active,
                asset_recipient,
            },
            internal: PairInternal {
                nft_token_ids: copy,
                sell_to_pair_quote_summary: sell,
                buy_from_pair_quote_summary: buy,
            },
            total_tokens: self.total_tokens,
        }
    }

    /// Whether the pool holds the item `nft_token_id`.
    pub fn holds_nft(&self, nft_token_id: &String) -> (r: bool)
        ensures
            r == self.inventory().contains(nft_token_id@),
    {
        let pos = position_of(
            &self.internal.nft_token_ids,
            self.internal.nft_token_ids.len(),
            nft_token_id,
        );
        proof {
            if let Some(i) = pos {
                assert(self.inventory()[i as int] == nft_token_id@);
            } else if self.inventory().contains(nft_token_id@) {
                let j = choose|j: int| 0 <= j < self.inventory().len() && self.inventory()[j] == nft_token_id@;
                assert(self.internal.nft_token_ids@[j]@ == nft_token_id@);
            }
        }
        pos.is_some()
    }

    pub fn asset_recipient(&self) -> (r: String)
        ensures
            r == self.recipient_spec(),
    {
        match &self.config.asset_recipient {
            Some(a) => a.clone(),
            None => self.immutable.owner.clone(),
        }
    }

    pub fn reinvest_nfts(&self) -> (r: bool)
        ensures
            r == (self.config.pool_type matches PoolType::Trade { reinvest_nfts, .. }
                && reinvest_nfts),
    {
        match self.config.pool_type {
            PoolType::Trade { reinvest_nfts, .. } => reinvest_nfts,
            _ => false,
        }
    }

    pub fn reinvest_tokens(&self) -> (r: bool)
        ensures
            r == (self.config.pool_type matches PoolType::Trade { reinvest_tokens, .. }
                && reinvest_tokens),
    {
        match self.config.pool_type {
            PoolType::Trade { reinvest_tokens, .. } => reinvest_tokens,
            _ => false,
        }
    }

    /// The swap fee in basis points.
    pub fn swap_fee_percent(&self) -> (r: u128)
        ensures
            r == self.swap_fee_spec(),
    {
        match self.config.pool_type {
            PoolType::Trade { swap_fee_bps, .. } => swap_fee_bps,
            _ => 0,
        }
    }

    fn nft_count(&self) -> (r: u64)
        requires
            self.wf(),
        ensures
            r == self.total_nfts(),
    {
        self.internal.nft_token_ids.len() as u64
    }

    /// Moves the curve one step in direction `tx`; an invalid transition
    /// deactivates the pool and leaves the curve as it was.
    pub fn update_spot_price(&mut self, tx: TransactionType)
        ensures
            final(self).id == old(self).id,
            final(self).immutable == old(self).immutable,
            final(self).internal == old(self).internal,
            final(self).total_tokens == old(self).total_tokens,
            final(self).config.pool_type == old(self).config.pool_type,
            final(self).config.asset_recipient == old(self).config.asset_recipient,
            old(self).curve_step(*final(self), tx),
    {
        match self.config.bonding_curve {
            BondingCurve::Linear { spot_price, delta } => {
                let result = match tx {
                    TransactionType::UserSubmitsNfts => calc_linear_spot_price_user_submits_nft(
                        spot_price,
                        delta,
                    ),
                    TransactionType::UserSubmitsTokens => calc_linear_spot_price_user_submits_tokens(
                        spot_price,
                        delta,
                    ),
                };
                match result {
                    Ok(new_spot_price) => {
                        self.config.bonding_curve =
                        BondingCurve::Linear { spot_price: new_spot_price, delta };
                    },
                    Err(_) => {
                        self.config.is_active = false;
                    },
                }
            },
            BondingCurve::Exponential { spot_price, delta } => {
                let result = match tx {
                    TransactionType::UserSubmitsNfts => calc_exponential_spot_price_user_submits_nft(
                        spot_price,
                        delta,
                    ),
                    TransactionType::UserSubmitsTokens => calc_exponential_spot_price_user_submits_tokens(
                        spot_price,
                        delta,
                    ),
                };
                match result {
                    Ok(new_spot_price) => {
                        self.config.bonding_curve =
                        BondingCurve::Exponential { spot_price: new_spot_price, delta };
                    },
                    Err(_) => {
                        self.config.is_active = false;
                    },
                }
            },
            BondingCurve::ConstantProduct => {},
        }
    }

    fn sell_to_pair_price(&self) -> (r: Option<u128>)
        requires
            self.wf(),
        ensures
            r == self.sell_price(),
    {
        if !self.config.is_active {
            return None;
        }
        let sale_amount = match self.config.bonding_curve {
            BondingCurve::Linear { spot_price, .. } => Some(spot_price),
            BondingCurve::Exponential { spot_price, .. } => Some(spot_price),
            BondingCurve::ConstantProduct => {
                match calc_cp_trade_sell_to_pair_price(self.total_tokens, self.nft_count()) {
                    Ok(p) => Some(p),
                    Err(_) => None,
                }
            },
        };
        match sale_amount {
            Some(a) => if a <= self.total_tokens {
                Some(a)
            } else {
                None
            },
            None => None,
        }
    }

    fn buy_from_pair_price(&self) -> (r: Option<u128>)
        requires
            self.wf(),
        ensures
            r == self.buy_price(),
    {
        if !self.config.is_active || self.internal.nft_token_ids.len() == 0 {
            return None;
        }
        let result = match self.config.pool_type {
            PoolType::NftOnly => match self.config.bonding_curve {
                BondingCurve::Linear { spot_price, .. } => Ok(spot_price),
                BondingCurve::Exponential { spot_price, .. } => Ok(spot_price),
                BondingCurve::ConstantProduct => Err(ContractError::PriceInvalid),
            },
            PoolType::Trade { .. } => match self.config.bonding_curve {
                BondingCurve::Linear { spot_price, delta } => calc_linear_trade_buy_from_pair_price(
                    spot_price,
                    delta,
                ),
                BondingCurve::Exponential { spot_price, delta } => calc_exponential_trade_buy_from_pair_price(
                    spot_price,
                    delta,
                ),
                BondingCurve::ConstantProduct => calc_cp_trade_buy_from_pair_price(
                    self.total_tokens,
                    self.nft_count(),
                ),
            },
        };
        match result {
            Ok(p) => Some(p),
            Err(_) => None,
        }
    }

    /// Recomputes the cached sell-to-pool quote.
    pub fn update_sell_to_pair_quote_summary(&mut self, ctx: &PayoutContext)
        requires
            old(self).wf(),
        ensures
            *final(self) == (Pair {
                internal: PairInternal {
                    sell_to_pair_quote_summary: old(self).sell_quote(*ctx),
                    ..old(self).internal
                },
                ..*old(self)
            }),
    {
        let summary = match self.sell_to_pair_price() {
            Some(a) => {
                let recipient = self.asset_recipient();
                ctx.build_quote_summary(a, self.swap_fee_percent(), &recipient)
            },
            None => None,
        };
        self.internal.sell_to_pair_quote_summary = summary;
    }

    /// Recomputes the cached buy-from-pool quote.
    pub fn update_buy_from_pair_quote_summary(&mut self, ctx: &PayoutContext)
        requires
            old(self).wf(),
        ensures
            *final(self) == (Pair {
                internal: PairInternal {
                    buy_from_pair_quote_summary: old(self).buy_quote(*ctx),
                    ..old(self).internal
                },
                ..*old(self)
            }),
    {
        let summary = match self.buy_from_pair_price() {
            Some(a) => {
                let recipient = self.asset_recipient();
                ctx.build_quote_summary(a, self.swap_fee_percent(), &recipient)
            },
            None => None,
        };
        self.internal.buy_from_pair_quote_summary = summary;
    }

    /// Recomputes both cached quotes.
    pub fn refresh_quotes(&mut self, ctx: &PayoutContext)
        requires
            old(self).wf(),
        ensures
            final(self).wf(),
            final(self).quotes_fresh(*ctx),
            *final(self) == old(self).refreshed(*ctx),
    {
        self.update_sell_to_pair_quote_summary(ctx);
        self.update_buy_from_pair_quote_summary(ctx);
    }

    /// Executes the sale of one item into the pool at its cached quote:
    /// the pool pays the gross amount, keeps the item if it reinvests
    /// items, and moves its curve one step down.
    pub fn swap_nft_for_tokens(&mut self, nft_token_id: String)
        requires
            old(self).wf(),
            old(self).internal.sell_to_pair_quote_summary matches Some(q) && q.total_spec()
                <= old(self).total_tokens,
            old(self).reinvests_nfts() ==> !old(self).inventory().contains(nft_token_id@)
                && old(self).total_nfts() < u64::MAX,
        ensures
            final(self).wf(),
            final(self).id == old(self).id,
            final(self).immutable == old(self).immutable,
            final(self).config.pool_type == old(self).config.pool_type,
            final(self).config.asset_recipient == old(self).config.asset_recipient,
            final(self).internal.sell_to_pair_quote_summary == old(self).internal.sell_to_pair_quote_summary,
            final(self).internal.buy_from_pair_quote_summary == old(self).internal.buy_from_pair_quote_summary,
            final(self).total_tokens == old(self).total_tokens
                - old(self).internal.sell_to_pair_quote_summary.unwrap().total_spec(),
            final(self).inventory() == if old(self).reinvests_nfts() {
                old(self).inventory().push(nft_token_id@)
            } else {
                old(self).inventory()
            },
            old(self).curve_step(*final(self), TransactionType::UserSubmitsNfts),
    {
        let total = match &self.internal.sell_to_pair_quote_summary {
            Some(q) => q.total(),
            None => 0,
        };
        self.total_tokens = self.total_tokens - total;
        if self.reinvest_nfts() {
            self.internal.nft_token_ids.push(nft_token_id);
            proof {
                assert(self.inventory() =~= old(self).inventory().push(nft_token_id@));
                let s = self.inventory();
                assert forall|a: int, b: int| 0 <= a < s.len() && 0 <= b < s.len() && a != b implies s[a] != s[b] by {
                    if a == s.len() - 1 {
                        assert(old(self).inventory()[b] == s[b]);
                    } else if b == s.len() - 1 {
                        assert(old(self).inventory()[a] == s[a]);
                    }
                }
            }
        }
        self.update_spot_price(TransactionType::UserSubmitsNfts);
    }

    /// `swap_nft_for_tokens`, then both quotes recomputed.
    pub fn sim_swap_nft_for_tokens(&mut self, ctx: &PayoutContext, nft_token_id: String)
        requires
            old(self).wf(),
            old(self).internal.sell_to_pair_quote_summary matches Some(q) && q.total_spec()
                <= old(self).total_tokens,
            old(self).reinvests_nfts() ==> !old(self).inventory().contains(nft_token_id@)
                && old(self).total_nfts() < u64::MAX,
        ensures
            final(self).wf(),
            final(self).quotes_fresh(*ctx),
            final(self).id == old(self).id,
            final(self).immutable == old(self).immutable,
            final(self).config.pool_type == old(self).config.pool_type,
            final(self).config.asset_recipient == old(self).config.asset_recipient,
            final(self).total_tokens == old(self).total_tokens
                - old(self).internal.sell_to_pair_quote_summary.unwrap().total_spec(),
            final(self).inventory() == if old(self).reinvests_nfts() {
                old(self).inventory().push(nft_token_id@)
            } else {
                old(self).inventory()
            },
            old(self).curve_step(*final(self), TransactionType::UserSubmitsNfts),
    {
        self.swap_nft_for_tokens(nft_token_id);
        self.refresh_quotes(ctx);
    }

    /// Executes the purchase of the item `nft_token_id` from the pool at its
    /// cached quote: the item leaves the inventory, the seller's proceeds
    /// stay in the pool if it reinvests tokens, and the curve moves one step
    /// up.
    pub fn swap_tokens_for_nft(&mut self, nft_token_id: &String)
        requires
            old(self).wf(),
            old(self).internal.buy_from_pair_quote_summary is Some,
            old(self).inventory().contains(nft_token_id@),
            old(self).reinvests_tokens() ==> old(self).total_tokens
                + old(self).internal.buy_from_pair_quote_summary.unwrap().seller_amount
                <= u128::MAX,
        ensures
            final(self).wf(),
            final(self).id == old(self).id,
            final(self).immutable == old(self).immutable,
            final(self).config.pool_type == old(self).config.pool_type,
            final(self).config.asset_recipient == old(self).config.asset_recipient,
            final(self).internal.sell_to_pair_quote_summary == old(self).internal.sell_to_pair_quote_summary,
            final(self).internal.buy_from_pair_quote_summary == old(self).internal.buy_from_pair_quote_summary,
            final(self).total_tokens == if old(self).reinvests_tokens() {
                old(self).total_tokens
                    + old(self).internal.buy_from_pair_quote_summary.unwrap().seller_amount
            } else {
                old(self).total_tokens as int
            },
            exists|i: int|
                0 <= i < old(self).total_nfts() && old(self).inventory()[i] == nft_token_id@
                    && final(self).inventory() == old(self).inventory().remove(i),
            old(self).curve_step(*final(self), TransactionType::UserSubmitsTokens),
    {
        let pos = position_of(
            &self.internal.nft_token_ids,
            self.internal.nft_token_ids.len(),
            nft_token_id,
        );
        let i = match pos {
            Some(i) => i,
            None => {
                proof {
                    let k = choose|k: int|
                        0 <= k < old(self).total_nfts() && old(self).inventory()[k]
                            == nft_token_id@;
                    assert(old(self).internal.nft_token_ids@[k]@ == nft_token_id@);
                }
                return;
            },
        };
        self.internal.nft_token_ids.remove(i);
        proof {
            assert(self.inventory() =~= old(self).inventory().remove(i as int));
            lemma_remove_keeps_distinct(old(self).inventory(), i as int);
        }
        if self.reinvest_tokens() {
            let seller_amount = match &self.internal.buy_from_pair_quote_summary {
                Some(q) => q.seller_amount,
                None => 0,
            };
            self.total_tokens = self.total_tokens + seller_amount;
        }
        self.update_spot_price(TransactionType::UserSubmitsTokens);
    }

    /// `swap_tokens_for_nft`, then both quotes recomputed.
    pub fn sim_swap_tokens_for_nft(&mut self, ctx: &PayoutContext, nft_token_id: &String)
        requires
            old(self).wf(),
            old(self).internal.buy_from_pair_quote_summary is Some,
            old(self).inventory().contains(nft_token_id@),
            old(self).reinvests_tokens() ==> old(self).total_tokens
                + old(self).internal.buy_from_pair_quote_summary.unwrap().seller_amount
                <= u128::MAX,
        ensures
            final(self).wf(),
            final(self).quotes_fresh(*ctx),
            final(self).id == old(self).id,
            final(self).immutable == old(self).immutable,
            final(self).config.pool_type == old(self).config.pool_type,
            final(self).config.asset_recipient == old(self).config.asset_recipient,
            final(self).total_tokens == if old(self).reinvests_tokens() {
                old(self).total_tokens
                    + old(self).internal.buy_from_pair_quote_summary.unwrap().seller_amount
            } else {
                old(self).total_tokens as int
            },
            exists|i: int|
                0 <= i < old(self).total_nfts() && old(self).inventory()[i] == nft_token_id@
                    && final(self).inventory() == old(self).inventory().remove(i),
            old(self).curve_step(*final(self), TransactionType::UserSubmitsTokens),
    {
        self.swap_tokens_for_nft(nft_token_id);
        self.refresh_quotes(ctx);
    }

    /// Adds deposited tokens to the pool's balance.
    pub fn deposit_tokens(&mut self, amount: u128) -> (r: Result<(), ContractError>)
        ensures
            r is Ok <==> old(self).total_tokens + amount <= u128::MAX,
            r is Err ==> r == Err::<(), ContractError>(ContractError::InvalidInput) && *final(self)
                == *old(self),
            r is Ok ==> *final(self) == (Pair {
                total_tokens: (old(self).total_tokens + amount) as u128,
                ..*old(self)
            }),
    {
        match self.total_tokens.checked_add(amount) {
            Some(t) => {
                self.total_tokens = t;
                Ok(())
            },
            None => Err(ContractError::InvalidInput),
        }
    }

    /// Takes withdrawn tokens off the pool's balance.
    pub fn withdraw_tokens(&mut self, amount: u128) -> (r: Result<(), ContractError>)
        ensures
            r is Ok <==> amount <= old(self).total_tokens,
            r is Err ==> r == Err::<(), ContractError>(ContractError::InvalidInput) && *final(self)
                == *old(self),
            r is Ok ==> *final(self) == (Pair {
                total_tokens: (old(self).total_tokens - amount) as u128,
                ..*old(self)
            }),
    {
        if amount > self.total_tokens {
            return Err(ContractError::InvalidInput);
        }
        self.total_tokens = self.total_tokens - amount;
        Ok(())
    }

    /// Adds deposited items to the inventory. Fails if an id is already
    /// held or appears twice in the deposit.
    pub fn deposit_nfts(&mut self, nft_token_ids: &Vec<String>) -> (r: Result<(), ContractError>)
        requires
            old(self).wf(),
        ensures
            r is Ok <==> {
                &&& ids_view(nft_token_ids@).no_duplicates()
                &&& ids_view(nft_token_ids@).disjoint(old(self).inventory())
                &&& old(self).total_nfts() + nft_token_ids@.len() <= u64::MAX
            },
            r is Err ==> r == Err::<(), ContractError>(ContractError::InvalidInput) && *final(self)
                == *old(self),
            r is Ok ==> {
                &&& final(self).wf()
                &&& final(self).inventory() == old(self).inventory() + ids_view(nft_token_ids@)
                &&& final(self).id == old(self).id
                &&& final(self).immutable == old(self).immutable
                &&& final(self).config == old(self).config
                &&& final(self).total_tokens == old(self).total_tokens
            },
    {
        let ghost w = ids_view(nft_token_ids@);
        let ghost o = old(self).inventory();
        let n = nft_token_ids.len();
        if n as u128 + self.internal.nft_token_ids.len() as u128 > u64::MAX as u128 {
            return Err(ContractError::InvalidInput);
        }
        let mut k: usize = 0;
        while k < n
            invariant
                0 <= k <= n,
                n == nft_token_ids@.len(),
                w == ids_view(nft_token_ids@),
                o == old(self).inventory(),
                *self == *old(self),
                forall|a: int| 0 <= a < k ==> !o.contains(#[trigger] w[a]),
                forall|a: int, b: int| 0 <= a < b < k ==> w[a] != w[b],
            decreases n - k,
        {
            let held = position_of(
                &self.internal.nft_token_ids,
                self.internal.nft_token_ids.len(),
                &nft_token_ids[k],
            );
            if held.is_some() {
                proof {
                    let j = held.unwrap() as int;
                    assert(o[j] == w[k as int]);
                    assert(!w.disjoint(o));
                }
                return Err(ContractError::InvalidInput);
            }
            let repeated = position_of(nft_token_ids, k, &nft_token_ids[k]);
            if repeated.is_some() {
                proof {
                    let a = repeated.unwrap() as int;
                    assert(w[a] == w[k as int]);
                }
                return Err(ContractError::InvalidInput);
            }
            proof {
                assert forall|j: int| 0 <= j < o.len() implies o[j] != w[k as int] by {
                    assert(old(self).internal.nft_token_ids@[j]@ == o[j]);
                }
            }
            k = k + 1;
        }
        proof {
            assert forall|a: int, b: int| 0 <= a < w.len() && 0 <= b < w.len() && a != b implies w[a]
                != w[b] by {
                if a < b {
                    assert(w[a] != w[b]);
                } else {
                    assert(w[b] != w[a]);
                }
            }
            assert forall|a: int, b: int| 0 <= a < w.len() && 0 <= b < o.len() implies w[a]
                != o[b] by {
                assert(!o.contains(w[a]));
            }
        }
        let mut k: usize = 0;
        while k < n
            invariant
                0 <= k <= n,
                n == nft_token_ids@.len(),
                w == ids_view(nft_token_ids@),
                o == old(self).inventory(),
                self.id == old(self).id,
                self.immutable == old(self).immutable,
                self.config == old(self).config,
                self.total_tokens == old(self).total_tokens,
                self.internal.sell_to_pair_quote_summary
                    == old(self).internal.sell_to_pair_quote_summary,
                self.internal.buy_from_pair_quote_summary
                    == old(self).internal.buy_from_pair_quote_summary,
                self.inventory() == o + w.subrange(0, k as int),
                o.len() + n <= u64::MAX,
            decreases n - k,
        {
            let ghost before = self.internal.nft_token_ids@;
            let item = nft_token_ids[k].clone();
            self.internal.nft_token_ids.push(item);
            proof {
                assert(self.internal.nft_token_ids@ == before.push(item));
                assert(item@ == w[k as int]);
                assert(self.inventory() =~= ids_view(before).push(w[k as int]));
                assert(self.inventory() =~= o + w.subrange(0, k + 1));
            }
            k = k + 1;
        }
        proof {
            assert(w.subrange(0, n as int) =~= w);
            let all = self.inventory();
            assert forall|a: int, b: int| 0 <= a < all.len() && 0 <= b < all.len() && a != b implies all[a]
                != all[b] by {
                if a < o.len() && b >= o.len() {
                    assert(all[b] == w[b - o.len()]);
                } else if b < o.len() && a >= o.len() {
                    assert(all[a] == w[a - o.len()]);
                }
            }
        }
        Ok(())
    }

    /// Takes withdrawn items out of the inventory. Fails if an id is not
    /// held or appears twice in the request.
    pub fn withdraw_nfts(&mut self, nft_token_ids: &Vec<String>) -> (r: Result<(), ContractError>)
        requires
            old(self).wf(),
        ensures
            r is Ok <==> {
                &&& ids_view(nft_token_ids@).no_duplicates()
                &&& forall|k: int|
                    0 <= k < nft_token_ids@.len() ==> old(self).inventory().contains(
                        #[trigger] ids_view(nft_token_ids@)[k],
                    )
            },
            r is Err ==> r == Err::<(), ContractError>(ContractError::InvalidInput) && *final(self)
                == *old(self),
            r is Ok ==> {
                &&& final(self).wf()
                &&& forall|id: Seq<char>| #[trigger]
                    final(self).inventory().contains(id) <==> (old(self).inventory().contains(id)
                        && !ids_view(nft_token_ids@).contains(id))
                &&& final(self).total_nfts() == old(self).total_nfts() - nft_token_ids@.len()
                &&& final(self).id == old(self).id
                &&& final(self).immutable == old(self).immutable
                &&& final(self).config == old(self).config
                &&& final(self).total_tokens == old(self).total_tokens
            },
    {
        let ghost w = ids_view(nft_token_ids@);
        let ghost o = old(self).inventory();
        let n = nft_token_ids.len();
        let mut k: usize = 0;
        while k < n
            invariant
                0 <= k <= n,
                n == nft_token_ids@.len(),
                w == ids_view(nft_token_ids@),
                o == old(self).inventory(),
                *self == *old(self),
                forall|a: int| 0 <= a < k ==> o.contains(#[trigger] w[a]),
                forall|a: int, b: int| 0 <= a < b < k ==> w[a] != w[b],
            decreases n - k,
        {
            let held = position_of(
                &self.internal.nft_token_ids,
                self.internal.nft_token_ids.len(),
                &nft_token_ids[k],
            );
            if held.is_none() {
                proof {
                    if o.contains(w[k as int]) {
                        let j = choose|j: int| 0 <= j < o.len() && o[j] == w[k as int];
                        assert(old(self).internal.nft_token_ids@[j]@ == o[j]);
                    }
                }
                return Err(ContractError::InvalidInput);
            }
            let repeated = position_of(nft_token_ids, k, &nft_token_ids[k]);
            if repeated.is_some() {
                proof {
                    let a = repeated.unwrap() as int;
                    assert(w[a] == w[k as int]);
                }
                return Err(ContractError::InvalidInput);
            }
            proof {
                let j = held.unwrap() as int;
                assert(o[j] == w[k as int]);
            }
            k = k + 1;
        }
        proof {
            assert forall|a: int, b: int| 0 <= a < w.len() && 0 <= b < w.len() && a != b implies w[a]
                != w[b] by {
                if a < b {
                    assert(w[a] != w[b]);
                } else {
                    assert(w[b] != w[a]);
                }
            }
            assert(w.subrange(0, 0) =~= Seq::<Seq<char>>::empty());
        }
        let mut k: usize = 0;
        while k < n
            invariant
                0 <= k <= n,
                n == nft_token_ids@.len(),
                w == ids_view(nft_token_ids@),
                o == old(self).inventory(),
                w.no_duplicates(),
                forall|a: int| 0 <= a < n ==> o.contains(#[trigger] w[a]),
                self.wf(),
                self.id == old(self).id,
                self.immutable == old(self).immutable,
                self.config == old(self).config,
                self.total_tokens == old(self).total_tokens,
                self.internal.sell_to_pair_quote_summary
                    == old(self).internal.sell_to_pair_quote_summary,
                self.internal.buy_from_pair_quote_summary
                    == old(self).internal.buy_from_pair_quote_summary,
                forall|id: Seq<char>| #[trigger]
                    self.inventory().contains(id) <==> (o.contains(id) && !w.subrange(
                        0,
                        k as int,
                    ).contains(id)),
                self.total_nfts() == o.len() - k,
            decreases n - k,
        {
            let ghost before = self.inventory();
            let ghost x = w[k as int];
            proof {
                assert(o.contains(x));
                if w.subrange(0, k as int).contains(x) {
                    let a = choose|a: int| 0 <= a < k && w.subrange(0, k as int)[a] == x;
                    assert(w[a] == x);
                }
                assert(before.contains(x));
            }
            let pos = position_of(
                &self.internal.nft_token_ids,
                self.internal.nft_token_ids.len(),
                &nft_token_ids[k],
            );
            let i = match pos {
                Some(i) => i,
                None => {
                    proof {
                        let j = choose|j: int| 0 <= j < before.len() && before[j] == x;
                        assert(self.internal.nft_token_ids@[j]@ == before[j]);
                    }
                    return Err(ContractError::InvalidInput);
                },
            };
            self.internal.nft_token_ids.remove(i);
            proof {
                let now = self.inventory();
                assert(now =~= before.remove(i as int));
                lemma_remove_keeps_distinct(before, i as int);
                let pre = w.subrange(0, k as int);
                let post = w.subrange(0, k + 1);
                assert(post =~= pre.push(x));
                assert forall|id: Seq<char>| #[trigger]
                    now.contains(id) <==> (o.contains(id) && !post.contains(id)) by {
                    if now.contains(id) {
                        let j = choose|j: int| 0 <= j < now.len() && now[j] == id;
                        let bj = if j < i { j } else { j + 1 };
                        assert(before[bj] == id);
                        assert(before.contains(id));
                        assert(bj != i as int);
                        assert(before[i as int] == x);
                        assert(before[bj] != before[i as int]);
                        assert(id != x);
                        if post.contains(id) {
                            let a = choose|a: int| 0 <= a < post.len() && post[a] == id;
                            assert(pre[a] == id);
                        }
                    }
                    if o.contains(id) && !post.contains(id) {
                        if pre.contains(id) {
                            let a = choose|a: int| 0 <= a < pre.len() && pre[a] == id;
                            assert(post[a] == id);
                        }
                        assert(before.contains(id));
                        let j = choose|j: int| 0 <= j < before.len() && before[j] == id;
                        assert(post[k as int] == x);
                        assert(j != i as int);
                        if j < i {
                            assert(now[j] == id);
                        } else {
                            assert(now[j - 1] == id);
                        }
                    }
                }
            }
            k = k + 1;
        }
        proof {
            assert(w.subrange(0, n as int) =~= w);
        }
        Ok(())
    }

    /// Each cached quote adds up to the price the pool's state gives.
    pub open spec fn quotes_consistent(&self) -> bool {
        &&& (self.internal.sell_to_pair_quote_summary matches Some(q) ==> self.sell_price()
            == Some(q.total_spec() as u128) && q.total_spec() <= u128::MAX)
        &&& (self.internal.buy_from_pair_quote_summary matches Some(q) ==> self.buy_price()
            == Some(q.total_spec() as u128) && q.total_spec() <= u128::MAX)
    }

    /// What the pool publishes to the index: the gross amounts of its cached
    /// quotes.
    pub open spec fn index_entry(&self) -> PairQuote {
        PairQuote {
            pair_id: self.id,
            collection: self.immutable.collection,
            denom: self.immutable.denom,
            sell_to_pair_quote: match self.internal.sell_to_pair_quote_summary {
                Some(q) => Some(q.total_spec() as u128),
                None => None,
            },
            buy_from_pair_quote: match self.internal.buy_from_pair_quote_summary {
                Some(q) => Some(q.total_spec() as u128),
                None => None,
            },
        }
    }

    /// Publishes the pool's cached quotes to the index.
    pub fn update_index(&self, index: &mut PriceIndex)
        requires
            old(index).wf(),
            self.quotes_consistent(),
        ensures
            final(index).wf(),
            forall|e: PairQuote| #[trigger]
                final(index).has(e) <==> (e == self.index_entry() || (old(index).has(e)
                    && e.pair_id != self.id)),
    {
        let sell_to_pair_quote = match &self.internal.sell_to_pair_quote_summary {
            Some(q) => Some(q.total()),
            None => None,
        };
        let buy_from_pair_quote = match &self.internal.buy_from_pair_quote_summary {
            Some(q) => Some(q.total()),
            None => None,
        };
        index.update_pair_indices(
            PairQuote {
                pair_id: self.id,
                collection: self.immutable.collection.clone(),
                denom: self.immutable.denom.clone(),
                sell_to_pair_quote,
                buy_from_pair_quote,
            },
        );
    }

    /// Recomputes both cached quotes and publishes them.
    pub fn save_and_update_indices(&mut self, ctx: &PayoutContext, index: &mut PriceIndex)
        requires
            old(self).wf(),
            old(index).wf(),
        ensures
            final(self).wf(),
            final(self).quotes_fresh(*ctx),
            final(self).quotes_consistent(),
            *final(self) == old(self).refreshed(*ctx),
            final(index).wf(),
            forall|e: PairQuote| #[trigger]
                final(index).has(e) <==> (e == final(self).index_entry() || (old(index).has(e)
                    && e.pair_id != old(self).id)),
    {
        self.refresh_quotes(ctx);
        proof {
            lemma_fresh_quotes_consistent(*self, *ctx);
        }
        self.update_index(index);
    }

    /// Turns trading on or off.
    pub fn set_active(&mut self, is_active: bool)
        ensures
            *final(self) == (Pair {
                config: PairConfig { is_active, ..old(self).config },
                ..*old(self)
            }),
    {
        self.config.is_active = is_active;
    }
}

/// Quotes computed from the current state add up to the current prices.
pub proof fn lemma_fresh_quotes_consistent(pair: Pair, ctx: PayoutContext)
    requires
        pair.quotes_fresh(ctx),
    ensures
        pair.quotes_consistent(),
{
}

/// Pools holding the same values agree on everything stated of them.
pub proof fn lemma_same_as_agrees(a: Pair, b: Pair)
    requires
        a.same_as(b),
    ensures
        a.inventory() == b.inventory(),
        a.total_nfts() == b.total_nfts(),
        a.wf() == b.wf(),
        a.sell_price() == b.sell_price(),
        a.buy_price() == b.buy_price(),
        a.quotes_consistent() == b.quotes_consistent(),
        a.index_entry() == b.index_entry(),
        a.recipient_spec() == b.recipient_spec(),
        a.swap_fee_spec() == b.swap_fee_spec(),
        forall|ctx: PayoutContext| a.sell_quote(ctx) == b.sell_quote(ctx) && a.buy_quote(ctx) == b.buy_quote(ctx),
{
}

/// The curve after `k` trades in direction `tx`, or `None` once a step is
/// invalid (the step at which the pool deactivates).
pub open spec fn curve_after_steps(curve: BondingCurve, tx: TransactionType, k: nat) -> Option<
    BondingCurve,
>
    decreases k,
{
    if k == 0 {
        Some(curve)
    } else {
        match curve_after_steps(curve, tx, (k - 1) as nat) {
            Some(c) => curve_after(c, tx),
            None => None,
        }
    }
}

/// Linear curves move by exactly `delta` per trade: `k` sales into the pool
/// lower the spot price by `k * delta`, and the step that would take it
/// below zero is invalid instead; `k` purchases raise it by `k * delta`
/// while it fits in 128 bits.
pub proof fn lemma_linear_moves_by_delta(spot_price: u128, delta: u128, k: nat)
    ensures
        curve_after_steps(
            BondingCurve::Linear { spot_price, delta },
            TransactionType::UserSubmitsNfts,
            k,
        ) == if k * delta <= spot_price {
            Some(BondingCurve::Linear { spot_price: (spot_price - k * delta) as u128, delta })
        } else {
            None
        },
        curve_after_steps(
            BondingCurve::Linear { spot_price, delta },
            TransactionType::UserSubmitsTokens,
            k,
        ) == if spot_price + k * delta <= u128::MAX {
            Some(BondingCurve::Linear { spot_price: (spot_price + k * delta) as u128, delta })
        } else {
            None
        },
    decreases k,
{
    if k == 0 {
        assert(k * delta == 0) by (nonlinear_arith)
            requires k == 0;
    } else {
        let m = (k - 1) * delta;
        lemma_linear_moves_by_delta(spot_price, delta, (k - 1) as nat);
        assert(k * delta == m + delta) by (nonlinear_arith)
            requires k >= 1, m == (k - 1) * delta;
        assert(m >= 0) by (nonlinear_arith)
            requires k >= 1, m == (k - 1) * delta;
        let c = BondingCurve::Linear { spot_price, delta };
        if m <= spot_price {
            let p = (spot_price - m) as u128;
            assert(curve_after_steps(c, TransactionType::UserSubmitsNfts, k) == curve_after(
                BondingCurve::Linear { spot_price: p, delta },
                TransactionType::UserSubmitsNfts,
            ));
        } else {
            assert(curve_after_steps(c, TransactionType::UserSubmitsNfts, k) is None);
        }
        if spot_price + m <= u128::MAX {
            let p = (spot_price + m) as u128;
            assert(curve_after_steps(c, TransactionType::UserSubmitsTokens, k) == curve_after(
                BondingCurve::Linear { spot_price: p, delta },
                TransactionType::UserSubmitsTokens,
            ));
        } else {
            assert(curve_after_steps(c, TransactionType::UserSubmitsTokens, k) is None);
        }
    }
}

/// The pool never quotes more for an item than it holds in tokens.
pub proof fn lemma_sell_quote_within_liquidity(pair: Pair, ctx: PayoutContext)
    ensures
        pair.sell_quote(ctx) matches Some(q) ==> q.total_spec() <= pair.total_tokens,
{
}

/// After a sale into the pool, the pool's price for the next item is no
/// higher than the one just paid, or the pool no longer buys.
pub proof fn lemma_sell_price_falls_after_sale(before: Pair, after: Pair, amount: u128)
    requires
        before.wf(),
        before.sell_price() == Some(amount),
        after.total_tokens == before.total_tokens - amount,
        after.total_nfts() >= before.total_nfts(),
        after.total_nfts() <= u64::MAX,
        after.config.pool_type == before.config.pool_type,
        before.curve_step(after, TransactionType::UserSubmitsNfts),
    ensures
        after.sell_price() matches Some(p) ==> p <= amount,
{
    if after.sell_price() is Some {
        match before.config.bonding_curve {
            BondingCurve::Exponential { spot_price, delta } => {
                let s = spot_price as int;
                let f = BPS_DENOMINATOR as int + delta as int;
                assert(s * 10_000 / f <= s) by (nonlinear_arith)
                    requires s >= 0, f >= 10_000;
            },
            BondingCurve::ConstantProduct => {
                let t0 = before.total_tokens as int;
                let t1 = after.total_tokens as int;
                let n0 = before.total_nfts() as int;
                let n1 = after.total_nfts() as int;
                assert(t1 / (n1 + 1) <= t0 / (n0 + 1)) by {
                    vstd::arithmetic::div_mod::lemma_div_is_ordered(t1, t0, n1 + 1);
                    vstd::arithmetic::div_mod::lemma_div_is_ordered_by_denominator(t0, n0 + 1, n1 + 1);
                }
            },
            _ => {},
        }
    }
}

/// After a purchase from the pool, the pool's price for its next item is
/// no lower than the one just asked, or the pool no longer sells.
pub proof fn lemma_buy_price_rises_after_purchase(before: Pair, after: Pair, amount: u128)
    requires
        before.wf(),
        before.buy_price() == Some(amount),
        after.total_tokens >= before.total_tokens,
        after.total_nfts() == before.total_nfts() - 1,
        after.config.pool_type == before.config.pool_type,
        before.curve_step(after, TransactionType::UserSubmitsTokens),
    ensures
        after.buy_price() matches Some(p) ==> p >= amount,
{
    if after.buy_price() is Some {
        match before.config.bonding_curve {
            BondingCurve::Exponential { spot_price, delta } => {
                let f = BPS_DENOMINATOR as int + delta as int;
                let s = spot_price as int;
                let a = amount as int;
                assert((s * f + 9_999) / 10_000 >= s) by (nonlinear_arith)
                    requires s >= 0, f >= 10_000;
                assert((a * f + 9_999) / 10_000 >= a) by (nonlinear_arith)
                    requires a >= 0, f >= 10_000;
                assert(after.buy_price().unwrap() >= amount);
            },
            BondingCurve::ConstantProduct => {
                let t0 = before.total_tokens as int;
                let t1 = after.total_tokens as int;
                let n0 = before.total_nfts() as int;
                let n1 = after.total_nfts() as int;
                assert(n1 >= 2);
                assert((t1 + n1 - 2) / (n1 - 1) <= t1) by (nonlinear_arith)
                    requires n1 >= 2, t1 >= 1;
                assert((t0 + n0 - 2) / (n0 - 1) <= t0) by (nonlinear_arith)
                    requires n0 >= 2, t0 >= 1;
                assert((t0 + n0 - 2) / (n0 - 1) <= (t1 + n1 - 2) / (n1 - 1)) by {
                    vstd::arithmetic::div_mod::lemma_div_is_ordered(t0 + n1 - 2, t1 + n1 - 2, n1 - 1);
                    assert((t0 + n0 - 2) / (n0 - 1) <= (t0 + n1 - 2) / (n1 - 1)) by (nonlinear_arith)
                        requires n1 >= 2, n0 == n1 + 1, t0 >= 0;
                }
            },
            BondingCurve::Linear { spot_price, delta } => {
                assert(after.buy_price().unwrap() >= amount);
            },
        }
    }
}

/// The position of `id` among the first `end` ids, if it is there.
fn position_of(ids: &Vec<String>, end: usize, id: &String) -> (r: Option<usize>)
    requires
        end <= ids@.len(),
    ensures
        r matches Some(i) ==> i < end && ids@[i as int]@ == id@,
        r is None ==> forall|j: int| 0 <= j < end ==> ids@[j]@ != id@,
{
    let mut j: usize = 0;
    while j < end
        invariant
            0 <= j <= end,
            end <= ids@.len(),
            forall|a: int| 0 <= a < j ==> ids@[a]@ != id@,
        decreases end - j,
    {
        if ids[j] == *id {
            return Some(j);
        }
        j = j + 1;
    }
    None
}

/// Removing an element keeps the elements of a sequence distinct.
proof fn lemma_remove_keeps_distinct(s: Seq<Seq<char>>, i: int)
    requires
        s.no_duplicates(),
        0 <= i < s.len(),
    ensures
        s.remove(i).no_duplicates(),
{
    let t = s.remove(i);
    assert forall|a: int, b: int| 0 <= a < t.len() && 0 <= b < t.len() && a != b implies t[a]
        != t[b] by {
        let sa = if a < i { a } else { a + 1 };
        let sb = if b < i { b } else { b + 1 };
        assert(t[a] == s[sa]);
        assert(t[b] == s[sb]);
    }
}

} // verus!
