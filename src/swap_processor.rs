use vstd::prelude::*;

use crate::curve::TransactionType;
use crate::error::{ContractError, SwapFailure};
use crate::execute::PoolStore;
use crate::index::{
    lemma_pending_count_falls, pending_count, ranks_before, ranks_before_exec, side_price, PairQuote,
    QuoteCursor,
};
use crate::pair::{lemma_same_as_agrees, Pair, PoolType};
use crate::quote::{opt_amount, PayoutContext, QuoteSummary, TokenPayment};

verus! {

/// An item owed to an address.
#[derive(Debug, Clone, PartialEq, Eq)]
pub struct NftPayment {
    pub nft_token_id: String,
    pub address: String,
}

/// One trade leg: the item, and the caller's bound on its price (the least
/// accepted for a sale, the most paid for a purchase).
#[derive(Debug, Clone, PartialEq, Eq)]
pub struct NftSwap {
    pub nft_token_id: String,
    pub token_amount: u128,
}

/// Purchase legs addressed to one pool.
#[derive(Debug, Clone, PartialEq, Eq)]
pub struct PoolNftSwap {
    pub pool_id: u64,
    pub nft_swaps: Vec<NftSwap>,
}

/// Parameters of a batch: the deadline (a block time), whether to keep the
/// filled prefix when a leg cannot be filled, and where the caller's assets
/// go (the caller when absent).
#[derive(Debug, Clone, PartialEq, Eq)]
pub struct SwapParams {
    pub deadline: u64,
    pub robust: bool,
    pub asset_recipient: Option<String>,
}

/// One executed leg with its settlement breakdown.
#[derive(Debug, Clone, PartialEq, Eq)]
pub struct Swap {
    pub pool_id: u64,
    pub pool_type: PoolType,
    pub transaction_type: TransactionType,
    pub spot_price: u128,
    pub network_fee: u128,
    pub royalty_payment: Option<TokenPayment>,
    pub swap_fee_payment: Option<TokenPayment>,
    pub nft_payment: NftPayment,
    pub seller_payment: TokenPayment,
}

/// A pool in the working set of a batch, and whether the batch changed it.
#[derive(Debug, Clone, PartialEq, Eq)]
pub struct PoolPair {
    pub needs_saving: bool,
    pub pool: Pair,
}

/// The record of a sale of `nft_token_id` into `pool` at quote `q`.
pub open spec fn sell_swap(
    pool: Pair,
    q: QuoteSummary,
    nft_token_id: String,
    seller_recipient: String,
    custody: String,
) -> Swap {
    Swap {
        pool_id: pool.id,
        pool_type: pool.config.pool_type,
        transaction_type: TransactionType::UserSubmitsNfts,
        spot_price: q.total_spec() as u128,
        network_fee: q.fair_burn.amount,
        royalty_payment: q.royalty,
        swap_fee_payment: q.swap,
        nft_payment: NftPayment {
            nft_token_id,
            address: if pool.reinvests_nfts() {
                custody
            } else {
                pool.recipient_spec()
            },
        },
        seller_payment: TokenPayment { amount: q.seller_amount, address: seller_recipient },
    }
}

/// The record of a purchase of `nft_token_id` from `pool` at quote `q`.
pub open spec fn buy_swap(
    pool: Pair,
    q: QuoteSummary,
    nft_token_id: String,
    buyer_recipient: String,
    custody: String,
) -> Swap {
    Swap {
        pool_id: pool.id,
        pool_type: pool.config.pool_type,
        transaction_type: TransactionType::UserSubmitsTokens,
        spot_price: q.total_spec() as u128,
        network_fee: q.fair_burn.amount,
        royalty_payment: q.royalty,
        swap_fee_payment: q.swap,
        nft_payment: NftPayment { nft_token_id, address: buyer_recipient },
        seller_payment: TokenPayment {
            amount: q.seller_amount,
            address: if pool.reinvests_tokens() {
                custody
            } else {
                pool.recipient_spec()
            },
        },
    }
}

/// Why a sale of `nft_swap` into `pool` cannot go ahead, if it cannot.
pub open spec fn sell_failure(
    pool: Pair,
    nft_swap: NftSwap,
    block_time: u64,
    deadline: u64,
) -> Option<ContractError> {
    if block_time > deadline {
        Some(ContractError::SwapError(SwapFailure::DeadlineExceeded))
    } else {
        match pool.internal.sell_to_pair_quote_summary {
            None => Some(ContractError::SwapError(SwapFailure::NoQuote)),
            Some(q) => if q.total_spec() < nft_swap.token_amount {
                Some(ContractError::SwapError(SwapFailure::PriceBound))
            } else if pool.reinvests_nfts() && (pool.inventory().contains(nft_swap.nft_token_id@)
                || pool.total_nfts() >= u64::MAX) {
                Some(ContractError::SwapError(SwapFailure::PoolCannotHoldItem))
            } else {
                None
            },
        }
    }
}

/// Why a purchase of `nft_swap` from `pool` cannot go ahead, if it cannot.
pub open spec fn buy_failure(
    pool: Pair,
    nft_swap: NftSwap,
    block_time: u64,
    deadline: u64,
) -> Option<ContractError> {
    if block_time > deadline {
        Some(ContractError::SwapError(SwapFailure::DeadlineExceeded))
    } else {
        match pool.internal.buy_from_pair_quote_summary {
            None => Some(ContractError::SwapError(SwapFailure::NoQuote)),
            Some(q) => if q.total_spec() > nft_swap.token_amount {
                Some(ContractError::SwapError(SwapFailure::PriceBound))
            } else if !pool.inventory().contains(nft_swap.nft_token_id@) {
                Some(ContractError::SwapError(SwapFailure::ItemNotFound))
            } else if pool.reinvests_tokens() && pool.total_tokens + q.seller_amount > u128::MAX {
                Some(ContractError::SwapError(SwapFailure::BalanceOverflow))
            } else {
                None
            },
        }
    }
}

/// The legs of `groups`, in order, each with the pool it is addressed to.
pub open spec fn flatten_legs(groups: Seq<PoolNftSwap>) -> Seq<(u64, NftSwap)>
    decreases groups.len(),
{
    if groups.len() == 0 {
        Seq::empty()
    } else {
        let g = groups.last();
        flatten_legs(groups.drop_last()) + g.nft_swaps@.map_values(|s: NftSwap| (g.pool_id, s))
    }
}

pub(crate) fn flatten(groups: &Vec<PoolNftSwap>) -> (r: Vec<(u64, NftSwap)>)
    ensures
        r@ == flatten_legs(groups@),
{
    let mut r: Vec<(u64, NftSwap)> = Vec::new();
    let mut g: usize = 0;
    while g < groups.len()
        invariant
            0 <= g <= groups@.len(),
            r@ == flatten_legs(groups@.subrange(0, g as int)),
        decreases groups@.len() - g,
    {
        let group = &groups[g];
        let ghost base = r@;
        let mut k: usize = 0;
        while k < group.nft_swaps.len()
            invariant
                0 <= k <= group.nft_swaps@.len(),
                r@ == base + group.nft_swaps@.subrange(0, k as int).map_values(
                    |s: NftSwap| (group.pool_id, s),
                ),
            decreases group.nft_swaps@.len() - k,
        {
            let s = &group.nft_swaps[k];
            r.push((group.pool_id, NftSwap { nft_token_id: s.nft_token_id.clone(), token_amount: s.token_amount }));
            proof {
                assert(group.nft_swaps@.subrange(0, k + 1).map_values(|s: NftSwap| (group.pool_id, s))
                    =~= group.nft_swaps@.subrange(0, k as int).map_values(|s: NftSwap| (group.pool_id, s)).push((group.pool_id, group.nft_swaps@[k as int])));
                assert(r@ =~= base + group.nft_swaps@.subrange(0, k + 1).map_values(
                    |s: NftSwap| (group.pool_id, s),
                ));
            }
            k = k + 1;
        }
        proof {
            assert(group.nft_swaps@.subrange(0, k as int) =~= group.nft_swaps@);
            assert(groups@.subrange(0, g + 1).drop_last() =~= groups@.subrange(0, g as int));
            assert(groups@.subrange(0, g + 1).last() == groups@[g as int]);
        }
        g = g + 1;
    }
    proof {
        assert(groups@.subrange(0, g as int) =~= groups@);
    }
    r
}

/// What the optional payment `p` pays to `addr`.
pub open spec fn paid_in(p: Option<TokenPayment>, addr: Seq<char>) -> int {
    match p {
        Some(t) => if t.address@ == addr {
            t.amount as int
        } else {
            0
        },
        None => 0,
    }
}

/// The optional payment `p` goes to `addr`.
pub open spec fn names(p: Option<TokenPayment>, addr: Seq<char>) -> bool {
    p matches Some(t) && t.address@ == addr
}

/// The royalty, swap fee and seller payments of one trade, in order.
pub open spec fn token_payments_of(s: Swap) -> Seq<Option<TokenPayment>> {
    seq![s.royalty_payment, s.swap_fee_payment, Some(s.seller_payment)]
}

/// The royalty, swap fee and seller payments of the trades in `swaps`, in
/// trade order.
pub open spec fn pay_list(swaps: Seq<Swap>) -> Seq<Option<TokenPayment>>
    decreases swaps.len(),
{
    if swaps.len() == 0 {
        Seq::empty()
    } else {
        pay_list(swaps.drop_last()) + token_payments_of(swaps.last())
    }
}

/// What the payments of `l` add up to for `addr`.
pub open spec fn sum_paid(l: Seq<Option<TokenPayment>>, addr: Seq<char>) -> int
    decreases l.len(),
{
    if l.len() == 0 {
        0
    } else {
        sum_paid(l.drop_last(), addr) + paid_in(l.last(), addr)
    }
}

/// Some payment of `l` goes to `addr`.
pub open spec fn named(l: Seq<Option<TokenPayment>>, addr: Seq<char>) -> bool {
    exists|k: int| 0 <= k < l.len() && names(#[trigger] l[k], addr)
}

proof fn lemma_unnamed_unpaid(l: Seq<Option<TokenPayment>>, addr: Seq<char>)
    requires
        !named(l, addr),
    ensures
        sum_paid(l, addr) == 0,
    decreases l.len(),
{
    if l.len() > 0 {
        let d = l.drop_last();
        if named(d, addr) {
            let k = choose|k: int| 0 <= k < d.len() && names(#[trigger] d[k], addr);
            assert(l[k] == d[k]);
        }
        lemma_unnamed_unpaid(d, addr);
        assert(l.last() == l[l.len() - 1]);
    }
}

/// The protocol fees of the trades in `swaps`.
pub open spec fn total_network_fee(swaps: Seq<Swap>) -> int
    decreases swaps.len(),
{
    if swaps.len() == 0 {
        0
    } else {
        total_network_fee(swaps.drop_last()) + swaps.last().network_fee
    }
}

/// No two payments go to the same address.
pub open spec fn addresses_unique(ps: Seq<TokenPayment>) -> bool {
    forall|i: int, j: int| 0 <= i < j < ps.len() ==> ps[i].address@ != ps[j].address@
}

/// The instructions that settle a batch: the protocol fees, one transfer
/// per receiving address, and the item transfers in trade order.
#[derive(Debug, Clone, PartialEq, Eq)]
pub struct Settlement {
    pub fair_burn_amount: u128,
    pub token_payments: Vec<TokenPayment>,
    pub nft_payments: Vec<NftPayment>,
}

/// `ps` holds, for each address other than `custody` that a payment of `l`
/// goes to, exactly one payment of what `l` pays it.
pub open spec fn aggregates(ps: Seq<TokenPayment>, l: Seq<Option<TokenPayment>>, custody: Seq<char>) -> bool {
    &&& addresses_unique(ps)
    &&& forall|i: int|
        0 <= i < ps.len() ==> (#[trigger] ps[i]).address@ != custody && ps[i].amount == sum_paid(
            l,
            ps[i].address@,
        ) && named(l, ps[i].address@)
    &&& forall|addr: Seq<char>|
        addr != custody && #[trigger] named(l, addr) ==> exists|i: int|
            0 <= i < ps.len() && (#[trigger] ps[i]).address@ == addr
}

/// Adds `amount` to what `ps` pays `address`; `false`, with `ps` unchanged,
/// when that total would exceed 128 bits.
fn credit(ps: &mut Vec<TokenPayment>, address: &String, amount: u128) -> (r: bool)
    requires
        addresses_unique(old(ps)@),
    ensures
        addresses_unique(final(ps)@),
        !r ==> final(ps)@ == old(ps)@,
        !r ==> exists|j: int|
            0 <= j < old(ps)@.len() && old(ps)@[j].address@ == address@ && old(ps)@[j].amount
                + amount > u128::MAX,
        r ==> final(ps)@.len() <= old(ps)@.len() + 1,
        r ==> forall|i: int|
            0 <= i < final(ps)@.len() ==> (#[trigger] final(ps)@[i]).address@ == address@ || exists|
                j: int,
            |
                0 <= j < old(ps)@.len() && old(ps)@[j] == final(ps)@[i],
        r ==> forall|i: int|
            0 <= i < final(ps)@.len() && (#[trigger] final(ps)@[i]).address@ == address@ ==> (
            exists|j: int|
                0 <= j < old(ps)@.len() && old(ps)@[j].address@ == address@ && final(ps)@[i].amount
                    == old(ps)@[j].amount + amount) || (final(ps)@[i].amount == amount && forall|
                j: int,
            |
                0 <= j < old(ps)@.len() ==> old(ps)@[j].address@ != address@),
        r ==> forall|j: int|
            0 <= j < old(ps)@.len() && old(ps)@[j].address@ != address@ ==> exists|i: int|
                0 <= i < final(ps)@.len() && final(ps)@[i] == old(ps)@[j],
        r ==> exists|i: int| 0 <= i < final(ps)@.len() && (#[trigger] final(ps)@[i]).address@ == address@,
{
    let mut j: usize = 0;
    while j < ps.len()
        invariant
            0 <= j <= ps@.len(),
            ps@ == old(ps)@,
            addresses_unique(old(ps)@),
            forall|a: int| 0 <= a < j ==> ps@[a].address@ != address@,
        decreases ps@.len() - j,
    {
        if ps[j].address == *address {
            let current = ps[j].amount;
            if current > u128::MAX - amount {
                proof {
                    assert(old(ps)@[j as int].address@ == address@);
                }
                return false;
            }
            let updated = TokenPayment { amount: current + amount, address: address.clone() };
            ps.set(j, updated);
            proof {
                let o = old(ps)@;
                let n = ps@;
                assert(n == o.update(j as int, updated));
                assert forall|a: int, b: int| 0 <= a < b < n.len() implies n[a].address@ != n[b].address@ by {
                    assert(o[a].address@ != o[b].address@);
                }
                assert forall|i: int| 0 <= i < n.len() implies (#[trigger] n[i]).address@ == address@ || exists|k: int| 0 <= k < o.len() && o[k] == n[i] by {
                    if i != j {
                        assert(o[i] == n[i]);
                    }
                }
                assert forall|i: int| 0 <= i < n.len() && (#[trigger] n[i]).address@ == address@ implies (
                    exists|k: int| 0 <= k < o.len() && o[k].address@ == address@ && n[i].amount == o[k].amount + amount) || (n[i].amount == amount && forall|k: int| 0 <= k < o.len() ==> o[k].address@ != address@) by {
                    if i != j {
                        assert(o[i] == n[i]);
                        if i < j {
                            assert(o[i].address@ != o[j as int].address@);
                        } else {
                            assert(o[j as int].address@ != o[i].address@);
                        }
                    }
                }
                assert forall|k: int| 0 <= k < o.len() && o[k].address@ != address@ implies exists|i: int| 0 <= i < n.len() && n[i] == o[k] by {
                    assert(k != j);
                    assert(n[k] == o[k]);
                }
                assert(n[j as int].address@ == address@);
            }
            return true;
        }
        j = j + 1;
    }
    let added = TokenPayment { amount, address: address.clone() };
    ps.push(added);
    proof {
        let o = old(ps)@;
        let n = ps@;
        assert(n == o.push(added));
        assert forall|a: int, b: int| 0 <= a < b < n.len() implies n[a].address@ != n[b].address@ by {
            if b < o.len() {
                assert(o[a].address@ != o[b].address@);
            }
        }
        assert forall|i: int| 0 <= i < n.len() implies (#[trigger] n[i]).address@ == address@ || exists|k: int| 0 <= k < o.len() && o[k] == n[i] by {
            if i < o.len() {
                assert(o[i] == n[i]);
            }
        }
        assert forall|k: int| 0 <= k < o.len() && o[k].address@ != address@ implies exists|i: int| 0 <= i < n.len() && n[i] == o[k] by {
            assert(n[k] == o[k]);
        }
        assert(n[o.len() as int].address@ == address@);
    }
    true
}

/// Adds payment `p` to the aggregate `ps`, unless it goes to `custody`;
/// `false` when a total would exceed 128 bits.
fn settle_one(
    ps: &mut Vec<TokenPayment>,
    p: &Option<TokenPayment>,
    custody: &String,
    Ghost(l): Ghost<Seq<Option<TokenPayment>>>,
) -> (r: bool)
    requires
        aggregates(old(ps)@, l, custody@),
    ensures
        r ==> aggregates(final(ps)@, l.push(*p), custody@),
        !r ==> exists|a: Seq<char>| sum_paid(l.push(*p), a) > u128::MAX,
{
    let ghost l2 = l.push(*p);
    let t = match p {
        None => {
            proof {
                lemma_push_unnamed(old(ps)@, l, *p, custody@);
            }
            return true;
        },
        Some(t) => t,
    };
    if t.address == *custody {
        proof {
            lemma_push_unnamed(old(ps)@, l, *p, custody@);
        }
        return true;
    }
    let ok = credit(ps, &t.address, t.amount);
    if !ok {
        proof {
            let o = old(ps)@;
            let a = t.address@;
            let j = choose|j: int|
                0 <= j < o.len() && o[j].address@ == a && o[j].amount + t.amount > u128::MAX;
            assert(o[j].amount == sum_paid(l, a));
            assert(l2.drop_last() =~= l);
            assert(l2.last() == *p);
            assert(sum_paid(l2, a) > u128::MAX);
        }
        return false;
    }
    proof {
        let o = old(ps)@;
        let n = ps@;
        let a = t.address@;
        assert(l2.drop_last() =~= l);
        assert(l2.last() == *p);
        assert forall|i: int| 0 <= i < n.len() implies (#[trigger] n[i]).address@ != custody@
            && n[i].amount == sum_paid(l2, n[i].address@) && named(l2, n[i].address@) by {
            let ai = n[i].address@;
            assert(names(l2[l.len() as int], a));
            if ai == a {
                if exists|j: int| 0 <= j < o.len() && o[j].address@ == a && n[i].amount == o[j].amount + t.amount {
                    let j = choose|j: int| 0 <= j < o.len() && o[j].address@ == a && n[i].amount == o[j].amount + t.amount;
                    assert(o[j].amount == sum_paid(l, a));
                } else {
                    assert(forall|j: int| 0 <= j < o.len() ==> o[j].address@ != a);
                    if named(l, a) {
                        let j = choose|j: int| 0 <= j < o.len() && (#[trigger] o[j]).address@ == a;
                    }
                    lemma_unnamed_unpaid(l, a);
                }
            } else {
                let j = choose|j: int| 0 <= j < o.len() && o[j] == n[i];
                assert(o[j].amount == sum_paid(l, ai));
                assert(named(l, ai));
                let k = choose|k: int| 0 <= k < l.len() && names(#[trigger] l[k], ai);
                assert(l2[k] == l[k]);
            }
        }
        assert forall|addr: Seq<char>| addr != custody@ && #[trigger] named(l2, addr) implies exists|i: int|
            0 <= i < n.len() && (#[trigger] n[i]).address@ == addr by {
            if addr != a {
                let k = choose|k: int| 0 <= k < l2.len() && names(#[trigger] l2[k], addr);
                assert(k < l.len());
                assert(l[k] == l2[k]);
                assert(named(l, addr));
                let j = choose|j: int| 0 <= j < o.len() && (#[trigger] o[j]).address@ == addr;
                let i = choose|i: int| 0 <= i < n.len() && n[i] == o[j];
                assert(n[i].address@ == addr);
            }
        }
    }
    true
}

/// A payment that goes nowhere listed leaves the aggregate as it is.
proof fn lemma_push_unnamed(
    ps: Seq<TokenPayment>,
    l: Seq<Option<TokenPayment>>,
    p: Option<TokenPayment>,
    custody: Seq<char>,
)
    requires
        aggregates(ps, l, custody),
        p matches Some(t) ==> t.address@ == custody,
    ensures
        aggregates(ps, l.push(p), custody),
{
    let l2 = l.push(p);
    assert(l2.drop_last() =~= l);
    assert forall|i: int| 0 <= i < ps.len() implies (#[trigger] ps[i]).address@ != custody
        && ps[i].amount == sum_paid(l2, ps[i].address@) && named(l2, ps[i].address@) by {
        let k = choose|k: int| 0 <= k < l.len() && names(#[trigger] l[k], ps[i].address@);
        assert(l2[k] == l[k]);
    }
    assert forall|addr: Seq<char>| addr != custody && #[trigger] named(l2, addr) implies exists|i: int|
        0 <= i < ps.len() && (#[trigger] ps[i]).address@ == addr by {
        let k = choose|k: int| 0 <= k < l2.len() && names(#[trigger] l2[k], addr);
        assert(k < l.len());
        assert(l[k] == l2[k]);
        assert(named(l, addr));
    }
}

/// The protocol fees, or what some address is paid, across `swaps` exceed
/// 128 bits.
pub open spec fn settlement_overflows(swaps: Seq<Swap>) -> bool {
    ||| total_network_fee(swaps) > u128::MAX
    ||| exists|a: Seq<char>| sum_paid(pay_list(swaps), a) > u128::MAX
}

proof fn lemma_sum_paid_prefix(l: Seq<Option<TokenPayment>>, k: int, a: Seq<char>)
    requires
        0 <= k <= l.len(),
    ensures
        sum_paid(l.subrange(0, k), a) <= sum_paid(l, a),
    decreases l.len() - k,
{
    if k < l.len() {
        lemma_sum_paid_prefix(l, k + 1, a);
        assert(l.subrange(0, k + 1).drop_last() =~= l.subrange(0, k));
        assert(l.subrange(0, k + 1).last() == l[k]);
        assert(paid_in(l[k], a) >= 0);
    } else {
        assert(l.subrange(0, k) =~= l);
    }
}

proof fn lemma_pay_list_prefix(sw: Seq<Swap>, i: int)
    requires
        0 <= i <= sw.len(),
    ensures
        pay_list(sw).len() == 3 * sw.len(),
        pay_list(sw.subrange(0, i)) == pay_list(sw).subrange(0, 3 * i),
    decreases sw.len(),
{
    if sw.len() == 0 {
        assert(sw.subrange(0, i) =~= sw);
        assert(pay_list(sw).subrange(0, 0) =~= Seq::<Option<TokenPayment>>::empty());
    } else {
        let d = sw.drop_last();
        if i == sw.len() {
            lemma_pay_list_prefix(d, 0);
            assert(sw.subrange(0, i) =~= sw);
            assert(pay_list(sw).subrange(0, 3 * i) =~= pay_list(sw));
        } else {
            lemma_pay_list_prefix(d, i);
            assert(sw.subrange(0, i) =~= d.subrange(0, i));
            assert(pay_list(sw).subrange(0, 3 * i) =~= pay_list(d).subrange(0, 3 * i));
        }
    }
}

proof fn lemma_fee_prefix(sw: Seq<Swap>, k: int)
    requires
        0 <= k <= sw.len(),
    ensures
        total_network_fee(sw.subrange(0, k)) <= total_network_fee(sw),
    decreases sw.len() - k,
{
    if k < sw.len() {
        lemma_fee_prefix(sw, k + 1);
        assert(sw.subrange(0, k + 1).drop_last() =~= sw.subrange(0, k));
        assert(sw.subrange(0, k + 1).last() == sw[k]);
    } else {
        assert(sw.subrange(0, k) =~= sw);
    }
}

/// `s` records the sale of the item `nft_token_id` into an active pool
/// state `p`, at the quote `p` has cached for buying an item.
pub open spec fn sold_at_quote(s: Swap, nft_token_id: String, seller: String, custody: String) -> bool {
    exists|p: Pair|
        #[trigger] p.quotes_consistent() && p.config.is_active && (
        p.internal.sell_to_pair_quote_summary matches Some(q) && s == sell_swap(
            p,
            q,
            nft_token_id,
            seller,
            custody,
        ))
}

/// `s` records the purchase of an item that an active pool state `p` held,
/// at the quote `p` has cached for selling an item.
pub open spec fn bought_at_quote(s: Swap, buyer: String, custody: String) -> bool {
    exists|p: Pair|
        #[trigger] p.quotes_consistent() && p.config.is_active && p.inventory().contains(
            s.nft_payment.nft_token_id@,
        ) && (p.internal.buy_from_pair_quote_summary matches Some(q) && s == buy_swap(
            p,
            q,
            s.nft_payment.nft_token_id,
            buyer,
            custody,
        ))
}

/// The sum of the gross prices of `swaps`.
pub open spec fn total_spent(swaps: Seq<Swap>) -> int
    decreases swaps.len(),
{
    if swaps.len() == 0 {
        0
    } else {
        total_spent(swaps.drop_last()) + swaps.last().spot_price
    }
}

/// The protocol fee and the payments of `s` add up to its gross price.
pub open spec fn balanced(s: Swap) -> bool {
    s.network_fee + opt_amount(s.royalty_payment) + opt_amount(s.swap_fee_payment)
        + s.seller_payment.amount == s.spot_price
}

proof fn lemma_sold_balanced(s: Swap, nft_token_id: String, seller: String, custody: String)
    requires
        sold_at_quote(s, nft_token_id, seller, custody),
    ensures
        balanced(s),
{
    let p = choose|p: Pair|
        #[trigger] p.quotes_consistent() && p.config.is_active && (
        p.internal.sell_to_pair_quote_summary matches Some(q) && s == sell_swap(
            p,
            q,
            nft_token_id,
            seller,
            custody,
        ));
}

proof fn lemma_bought_balanced(s: Swap, buyer: String, custody: String)
    requires
        bought_at_quote(s, buyer, custody),
    ensures
        balanced(s),
{
    let p = choose|p: Pair|
        #[trigger] p.quotes_consistent() && p.config.is_active && p.inventory().contains(
            s.nft_payment.nft_token_id@,
        ) && (p.internal.buy_from_pair_quote_summary matches Some(q) && s == buy_swap(
            p,
            q,
            s.nft_payment.nft_token_id,
            buyer,
            custody,
        ));
}

/// When every trade is balanced, the protocol fees and what any address is
/// paid are each at most the gross total of the trades.
pub proof fn lemma_settlement_within_spent(sw: Seq<Swap>)
    requires
        forall|i: int| 0 <= i < sw.len() ==> balanced(#[trigger] sw[i]),
    ensures
        total_network_fee(sw) <= total_spent(sw),
        forall|a: Seq<char>| #[trigger] sum_paid(pay_list(sw), a) <= total_spent(sw),
    decreases sw.len(),
{
    if sw.len() > 0 {
        let d = sw.drop_last();
        assert forall|i: int| 0 <= i < d.len() implies balanced(#[trigger] d[i]) by {
            assert(d[i] == sw[i]);
        }
        lemma_settlement_within_spent(d);
        let s = sw.last();
        assert(balanced(sw[sw.len() - 1]));
        assert forall|a: Seq<char>| #[trigger] sum_paid(pay_list(sw), a) <= total_spent(sw) by {
            let l = pay_list(sw);
            let l0 = pay_list(d);
            let t = token_payments_of(s);
            assert(l == l0 + t);
            assert(l.drop_last() =~= l0 + seq![s.royalty_payment, s.swap_fee_payment]);
            assert(l.drop_last().drop_last() =~= l0.push(s.royalty_payment));
            assert(l.drop_last().drop_last().drop_last() =~= l0);
            let l1 = l.drop_last();
            let l2 = l1.drop_last();
            assert(l.last() == Some(s.seller_payment));
            assert(l1.last() == s.swap_fee_payment);
            assert(l2.last() == s.royalty_payment);
            assert(sum_paid(l, a) == sum_paid(l1, a) + paid_in(Some(s.seller_payment), a));
            assert(sum_paid(l1, a) == sum_paid(l2, a) + paid_in(s.swap_fee_payment, a));
            assert(sum_paid(l2, a) == sum_paid(l0, a) + paid_in(s.royalty_payment, a));
            assert(sum_paid(l0, a) <= total_spent(d));
            assert(total_spent(sw) == total_spent(d) + s.spot_price);
            assert(paid_in(s.royalty_payment, a) <= opt_amount(s.royalty_payment));
            assert(paid_in(s.swap_fee_payment, a) <= opt_amount(s.swap_fee_payment));
        }
    }
}

/// Sales recorded at pool quotes, whose gross total fits in 128 bits, settle
/// without overflow.
pub proof fn lemma_sales_settle(sw: Seq<Swap>, legs: Seq<NftSwap>, seller: String, custody: String)
    requires
        sw.len() <= legs.len(),
        forall|i: int|
            0 <= i < sw.len() ==> sold_at_quote(#[trigger] sw[i], legs[i].nft_token_id, seller, custody),
        total_spent(sw) <= u128::MAX,
    ensures
        !settlement_overflows(sw),
{
    assert forall|i: int| 0 <= i < sw.len() implies balanced(#[trigger] sw[i]) by {
        lemma_sold_balanced(sw[i], legs[i].nft_token_id, seller, custody);
    }
    lemma_settlement_within_spent(sw);
}

/// Purchases recorded at pool quotes, whose gross total fits in 128 bits,
/// settle without overflow.
pub proof fn lemma_purchases_settle(sw: Seq<Swap>, buyer: String, custody: String)
    requires
        forall|i: int| 0 <= i < sw.len() ==> bought_at_quote(#[trigger] sw[i], buyer, custody),
        total_spent(sw) <= u128::MAX,
    ensures
        !settlement_overflows(sw),
{
    assert forall|i: int| 0 <= i < sw.len() implies balanced(#[trigger] sw[i]) by {
        lemma_bought_balanced(sw[i], buyer, custody);
    }
    lemma_settlement_within_spent(sw);
}

/// `after` is `before` after it bought the item `item` at its cached
/// quote, with its quotes recomputed under `ctx`.
pub open spec fn after_sale(before: Pair, after: Pair, item: Seq<char>, ctx: PayoutContext) -> bool {
    &&& after.wf()
    &&& after.quotes_fresh(ctx)
    &&& after.id == before.id
    &&& after.immutable == before.immutable
    &&& after.config.pool_type == before.config.pool_type
    &&& after.config.asset_recipient == before.config.asset_recipient
    &&& after.total_tokens == before.total_tokens
        - before.internal.sell_to_pair_quote_summary.unwrap().total_spec()
    &&& after.inventory() == if before.reinvests_nfts() {
        before.inventory().push(item)
    } else {
        before.inventory()
    }
    &&& before.curve_step(after, TransactionType::UserSubmitsNfts)
}

/// `after` is `before` after it sold its item `item` at its cached quote,
/// with its quotes recomputed under `ctx`.
pub open spec fn after_purchase(before: Pair, after: Pair, item: Seq<char>, ctx: PayoutContext) -> bool {
    &&& after.wf()
    &&& after.quotes_fresh(ctx)
    &&& after.id == before.id
    &&& after.immutable == before.immutable
    &&& after.config.pool_type == before.config.pool_type
    &&& after.config.asset_recipient == before.config.asset_recipient
    &&& after.total_tokens == if before.reinvests_tokens() {
        before.total_tokens + before.internal.buy_from_pair_quote_summary.unwrap().seller_amount
    } else {
        before.total_tokens as int
    }
    &&& exists|i: int|
        0 <= i < before.total_nfts() && before.inventory()[i] == item && after.inventory()
            == before.inventory().remove(i)
    &&& before.curve_step(after, TransactionType::UserSubmitsTokens)
}

/// `after` is `before` after one trade in direction `side` on the item
/// `item`.
pub open spec fn stepped(
    side: TransactionType,
    before: Pair,
    after: Pair,
    item: Seq<char>,
    ctx: PayoutContext,
) -> bool {
    match side {
        TransactionType::UserSubmitsNfts => after_sale(before, after, item, ctx),
        TransactionType::UserSubmitsTokens => after_purchase(before, after, item, ctx),
    }
}

/// `q` is the state of its pool after the trades `sw[from..upto]`, whose
/// pools stood in the states `tr`: the stored state if none of those trades
/// touched the pool, else the state the last of them left.
pub open spec fn state_known(
    store: PoolStore,
    sw: Seq<Swap>,
    tr: Seq<Pair>,
    ctx: PayoutContext,
    side: TransactionType,
    from: int,
    upto: int,
    q: Pair,
) -> bool {
    ||| (forall|j: int| from <= j < upto ==> (#[trigger] sw[j]).pool_id != q.id) && (store.get(
        q.id,
    ) matches Some(sp) && q.same_as(sp))
    ||| exists|j: int|
        from <= j < upto && (#[trigger] sw[j]).pool_id == q.id && (forall|j2: int|
            j < j2 < upto ==> (#[trigger] sw[j2]).pool_id != q.id) && stepped(
            side,
            tr[j],
            q,
            sw[j].nft_payment.nft_token_id@,
            ctx,
        )
}

proof fn lemma_state_known_extend(
    store: PoolStore,
    sw: Seq<Swap>,
    tr: Seq<Pair>,
    ctx: PayoutContext,
    side: TransactionType,
    from: int,
    upto: int,
    q: Pair,
    x: Swap,
    y: Pair,
)
    requires
        state_known(store, sw, tr, ctx, side, from, upto, q),
        0 <= from,
        upto <= sw.len(),
        upto <= tr.len(),
    ensures
        state_known(store, sw.push(x), tr.push(y), ctx, side, from, upto, q),
{
    let sw2 = sw.push(x);
    let tr2 = tr.push(y);
    if (forall|j: int| from <= j < upto ==> (#[trigger] sw[j]).pool_id != q.id) && (store.get(
        q.id,
    ) matches Some(sp) && q.same_as(sp)) {
        assert forall|j: int| from <= j < upto implies (#[trigger] sw2[j]).pool_id != q.id by {
            assert(sw2[j] == sw[j]);
        }
    } else {
        let j = choose|j: int|
            from <= j < upto && (#[trigger] sw[j]).pool_id == q.id && (forall|j2: int|
                j < j2 < upto ==> (#[trigger] sw[j2]).pool_id != q.id) && stepped(
                side,
                tr[j],
                q,
                sw[j].nft_payment.nft_token_id@,
                ctx,
            );
        assert(sw2[j] == sw[j]);
        assert(tr2[j] == tr[j]);
        assert forall|j2: int| j < j2 < upto implies (#[trigger] sw2[j2]).pool_id != q.id by {
            assert(sw2[j2] == sw[j2]);
        }
    }
}

proof fn lemma_state_known_skip(
    store: PoolStore,
    sw: Seq<Swap>,
    tr: Seq<Pair>,
    ctx: PayoutContext,
    side: TransactionType,
    from: int,
    q: Pair,
    x: Swap,
    y: Pair,
)
    requires
        state_known(store, sw, tr, ctx, side, from, sw.len() as int, q),
        0 <= from,
        x.pool_id != q.id,
        sw.len() == tr.len(),
    ensures
        state_known(store, sw.push(x), tr.push(y), ctx, side, from, (sw.len() + 1) as int, q),
{
    let sw2 = sw.push(x);
    let tr2 = tr.push(y);
    let n = sw.len() as int;
    if (forall|j: int| from <= j < n ==> (#[trigger] sw[j]).pool_id != q.id) && (store.get(
        q.id,
    ) matches Some(sp) && q.same_as(sp)) {
        assert forall|j: int| from <= j < n + 1 implies (#[trigger] sw2[j]).pool_id != q.id by {
            if j < n {
                assert(sw2[j] == sw[j]);
            }
        }
    } else {
        let j = choose|j: int|
            from <= j < n && (#[trigger] sw[j]).pool_id == q.id && (forall|j2: int|
                j < j2 < n ==> (#[trigger] sw[j2]).pool_id != q.id) && stepped(
                side,
                tr[j],
                q,
                sw[j].nft_payment.nft_token_id@,
                ctx,
            );
        assert(sw2[j] == sw[j]);
        assert(tr2[j] == tr[j]);
        assert forall|j2: int| j < j2 < n + 1 implies (#[trigger] sw2[j2]).pool_id != q.id by {
            if j2 < n {
                assert(sw2[j2] == sw[j2]);
            }
        }
    }
}

/// Every trade of `sw` was made against the state `tr` shows for it, and
/// that state is what the batch knew of its pool at that point; every pool
/// of the working set `set` is in the state the batch knows; and every
/// traded pool is in `set`, marked as changed.
#[verifier::opaque]
pub open spec fn linked(
    store: PoolStore,
    ctx: PayoutContext,
    side: TransactionType,
    sw: Seq<Swap>,
    tr: Seq<Pair>,
    set: Seq<PoolPair>,
) -> bool {
    &&& tr.len() == sw.len()
    &&& forall|i: int|
        0 <= i < sw.len() ==> (#[trigger] tr[i]).id == sw[i].pool_id && state_known(
            store,
            sw,
            tr,
            ctx,
            side,
            0,
            i,
            tr[i],
        )
    &&& forall|a: int|
        0 <= a < set.len() ==> state_known(
            store,
            sw,
            tr,
            ctx,
            side,
            0,
            sw.len() as int,
            (#[trigger] set[a]).pool,
        )
    &&& forall|j: int|
        #![trigger sw[j]]
        0 <= j < sw.len() ==> exists|a: int|
            0 <= a < set.len() && (#[trigger] set[a]).pool.id == sw[j].pool_id && set[a].needs_saving
}

/// Pools in `set` have distinct ids.
pub open spec fn distinct_pools(set: Seq<PoolPair>) -> bool {
    forall|a: int, b: int| 0 <= a < set.len() && 0 <= b < set.len() && a != b ==> set[a].pool.id != set[b].pool.id
}

pub proof fn lemma_linked_empty(store: PoolStore, ctx: PayoutContext, side: TransactionType)
    ensures
        linked(store, ctx, side, Seq::empty(), Seq::empty(), Seq::empty()),
{
    reveal(linked);
}

/// Pools added to the working set in their stored state keep it linked.
proof fn lemma_linked_load(
    store: PoolStore,
    ctx: PayoutContext,
    side: TransactionType,
    sw: Seq<Swap>,
    tr: Seq<Pair>,
    set: Seq<PoolPair>,
    set2: Seq<PoolPair>,
)
    requires
        linked(store, ctx, side, sw, tr, set),
        set.len() <= set2.len(),
        forall|a: int| 0 <= a < set.len() ==> #[trigger] set2[a] == set[a],
        forall|a: int|
            set.len() <= a < set2.len() ==> (store.get((#[trigger] set2[a]).pool.id) matches Some(sp)
                && set2[a].pool.same_as(sp)),
        distinct_pools(set2),
    ensures
        linked(store, ctx, side, sw, tr, set2),
{
    reveal(linked);
    assert forall|j: int|
        #![trigger sw[j]]
        0 <= j < sw.len() implies exists|a: int|
            0 <= a < set2.len() && (#[trigger] set2[a]).pool.id == sw[j].pool_id && set2[a].needs_saving by {
        let a0 = choose|a: int|
            0 <= a < set.len() && (#[trigger] set[a]).pool.id == sw[j].pool_id && set[a].needs_saving;
        assert(set2[a0] == set[a0]);
    }
    assert forall|a: int| 0 <= a < set2.len() implies state_known(
        store,
        sw,
        tr,
        ctx,
        side,
        0,
        sw.len() as int,
        (#[trigger] set2[a]).pool,
    ) by {
        if a < set.len() {
            assert(set2[a] == set[a]);
        } else {
            assert forall|j: int| 0 <= j < sw.len() implies (#[trigger] sw[j]).pool_id != set2[a].pool.id by {
                let a0 = choose|a1: int|
                    0 <= a1 < set.len() && (#[trigger] set[a1]).pool.id == sw[j].pool_id && set[a1].needs_saving;
                assert(set2[a0] == set[a0]);
                assert(a0 != a);
            }
        }
    }
}

/// A trade against the pool at position `b` keeps the working set linked.
proof fn lemma_linked_trade(
    store: PoolStore,
    ctx: PayoutContext,
    side: TransactionType,
    sw: Seq<Swap>,
    tr: Seq<Pair>,
    set: Seq<PoolPair>,
    b: int,
    after: PoolPair,
    rec: Swap,
)
    requires
        linked(store, ctx, side, sw, tr, set),
        distinct_pools(set),
        0 <= b < set.len(),
        rec.pool_id == set[b].pool.id,
        after.pool.id == set[b].pool.id,
        after.needs_saving,
        stepped(side, set[b].pool, after.pool, rec.nft_payment.nft_token_id@, ctx),
    ensures
        linked(store, ctx, side, sw.push(rec), tr.push(set[b].pool), set.update(b, after)),
{
    reveal(linked);
    let before = set[b].pool;
    let sw2 = sw.push(rec);
    let tr2 = tr.push(before);
    let set2 = set.update(b, after);
    let n = sw.len() as int;
    assert forall|i: int| 0 <= i < sw2.len() implies (#[trigger] tr2[i]).id == sw2[i].pool_id
        && state_known(store, sw2, tr2, ctx, side, 0, i, tr2[i]) by {
        if i < n {
            assert(tr2[i] == tr[i]);
            assert(sw2[i] == sw[i]);
            lemma_state_known_extend(store, sw, tr, ctx, side, 0, i, tr[i], rec, before);
        } else {
            lemma_state_known_extend(store, sw, tr, ctx, side, 0, n, before, rec, before);
        }
    }
    assert forall|a: int| 0 <= a < set2.len() implies state_known(
        store,
        sw2,
        tr2,
        ctx,
        side,
        0,
        sw2.len() as int,
        (#[trigger] set2[a]).pool,
    ) by {
        if a == b {
            assert(sw2[n].pool_id == set2[a].pool.id);
            assert(tr2[n] == before);
            assert(forall|j2: int| n < j2 < n + 1 ==> (#[trigger] sw2[j2]).pool_id != set2[a].pool.id);
        } else {
            assert(set2[a] == set[a]);
            lemma_state_known_skip(store, sw, tr, ctx, side, 0, set[a].pool, rec, before);
        }
    }
    assert forall|j: int|
        #![trigger sw2[j]]
        0 <= j < sw2.len() implies exists|a: int|
            0 <= a < set2.len() && (#[trigger] set2[a]).pool.id == sw2[j].pool_id && set2[a].needs_saving by {
        if j < n {
            assert(sw2[j] == sw[j]);
            let a0 = choose|a: int|
                0 <= a < set.len() && (#[trigger] set[a]).pool.id == sw[j].pool_id && set[a].needs_saving;
            if a0 != b {
                assert(set2[a0] == set[a0]);
            } else {
                assert(set2[b].needs_saving);
            }
        } else {
            assert(set2[b].pool.id == sw2[j].pool_id);
        }
    }
}

/// Trade `i` of `sw` sold the item of leg `i` into the pool state `tr[i]`,
/// at the quote that state had cached.
#[verifier::opaque]
pub open spec fn sales_at_states(
    sw: Seq<Swap>,
    tr: Seq<Pair>,
    legs: Seq<NftSwap>,
    seller: String,
    custody: String,
) -> bool {
    forall|i: int|
        0 <= i < sw.len() ==> {
            &&& (#[trigger] tr[i]).quotes_consistent()
            &&& tr[i].internal.sell_to_pair_quote_summary is Some
            &&& sw[i] == sell_swap(
                tr[i],
                tr[i].internal.sell_to_pair_quote_summary.unwrap(),
                legs[i].nft_token_id,
                seller,
                custody,
            )
        }
}

/// Trade `i` of `sw` bought an item the pool state `tr[i]` held, at the
/// quote that state had cached.
#[verifier::opaque]
pub open spec fn purchases_at_states(sw: Seq<Swap>, tr: Seq<Pair>, buyer: String, custody: String) -> bool {
    forall|i: int|
        0 <= i < sw.len() ==> {
            &&& (#[trigger] tr[i]).quotes_consistent()
            &&& tr[i].internal.buy_from_pair_quote_summary is Some
            &&& tr[i].inventory().contains(sw[i].nft_payment.nft_token_id@)
            &&& sw[i] == buy_swap(
                tr[i],
                tr[i].internal.buy_from_pair_quote_summary.unwrap(),
                sw[i].nft_payment.nft_token_id,
                buyer,
                custody,
            )
        }
}

pub proof fn lemma_records_empty(legs: Seq<NftSwap>, buyer: String, custody: String)
    ensures
        sales_at_states(Seq::empty(), Seq::empty(), legs, buyer, custody),
        purchases_at_states(Seq::empty(), Seq::empty(), buyer, custody),
{
    reveal(sales_at_states);
    reveal(purchases_at_states);
}

proof fn lemma_sales_push(
    sw: Seq<Swap>,
    tr: Seq<Pair>,
    legs: Seq<NftSwap>,
    seller: String,
    custody: String,
    rec: Swap,
    before: Pair,
)
    requires
        sales_at_states(sw, tr, legs, seller, custody),
        sw.len() == tr.len(),
        before.quotes_consistent(),
        before.internal.sell_to_pair_quote_summary is Some,
        rec == sell_swap(
            before,
            before.internal.sell_to_pair_quote_summary.unwrap(),
            legs[sw.len() as int].nft_token_id,
            seller,
            custody,
        ),
    ensures
        sales_at_states(sw.push(rec), tr.push(before), legs, seller, custody),
{
    reveal(sales_at_states);
    assert forall|i: int| 0 <= i < sw.len() + 1 implies {
        &&& (#[trigger] tr.push(before)[i]).quotes_consistent()
        &&& tr.push(before)[i].internal.sell_to_pair_quote_summary is Some
        &&& sw.push(rec)[i] == sell_swap(
            tr.push(before)[i],
            tr.push(before)[i].internal.sell_to_pair_quote_summary.unwrap(),
            legs[i].nft_token_id,
            seller,
            custody,
        )
    } by {
        if i < sw.len() {
            assert(tr.push(before)[i] == tr[i]);
            assert(sw.push(rec)[i] == sw[i]);
        }
    }
}

proof fn lemma_purchases_push(
    sw: Seq<Swap>,
    tr: Seq<Pair>,
    buyer: String,
    custody: String,
    rec: Swap,
    before: Pair,
)
    requires
        purchases_at_states(sw, tr, buyer, custody),
        sw.len() == tr.len(),
        before.quotes_consistent(),
        before.internal.buy_from_pair_quote_summary is Some,
        before.inventory().contains(rec.nft_payment.nft_token_id@),
        rec == buy_swap(
            before,
            before.internal.buy_from_pair_quote_summary.unwrap(),
            rec.nft_payment.nft_token_id,
            buyer,
            custody,
        ),
    ensures
        purchases_at_states(sw.push(rec), tr.push(before), buyer, custody),
{
    reveal(purchases_at_states);
    assert forall|i: int| 0 <= i < sw.len() + 1 implies {
        &&& (#[trigger] tr.push(before)[i]).quotes_consistent()
        &&& tr.push(before)[i].internal.buy_from_pair_quote_summary is Some
        &&& tr.push(before)[i].inventory().contains(sw.push(rec)[i].nft_payment.nft_token_id@)
        &&& sw.push(rec)[i] == buy_swap(
            tr.push(before)[i],
            tr.push(before)[i].internal.buy_from_pair_quote_summary.unwrap(),
            sw.push(rec)[i].nft_payment.nft_token_id,
            buyer,
            custody,
        )
    } by {
        if i < sw.len() {
            assert(tr.push(before)[i] == tr[i]);
            assert(sw.push(rec)[i] == sw[i]);
        }
    }
}

/// Entry `e` is still to come from `cursor`, or its pool is in `set`
/// quoting what `e` publishes.
pub open spec fn reach(set: Seq<PoolPair>, cursor: QuoteCursor, e: PairQuote) -> bool {
    ||| cursor.pending(e)
    ||| exists|a: int|
        0 <= a < set.len() && (#[trigger] set[a]).pool.id == e.pair_id && pool_key(set[a].pool, cursor.side)
            == side_price(e, cursor.side)
}

/// Entry `e` of the index quotes for the cursor's collection, denomination
/// and direction.
pub open spec fn quotes_for(store: PoolStore, cursor: QuoteCursor, e: PairQuote) -> bool {
    &&& store.index.has(e)
    &&& e.collection@ == cursor.collection@
    &&& e.denom@ == cursor.denom@
    &&& side_price(e, cursor.side) is Some
}

/// Every quoting entry whose pool no trade of `sw` touched is still to come
/// or sits in `set` unchanged.
#[verifier::opaque]
pub open spec fn covers(store: PoolStore, sw: Seq<Swap>, set: Seq<PoolPair>, cursor: QuoteCursor) -> bool {
    forall|e: PairQuote|
        #[trigger] quotes_for(store, cursor, e) && (forall|j: int|
            0 <= j < sw.len() ==> (#[trigger] sw[j]).pool_id != e.pair_id) ==> reach(set, cursor, e)
}

pub proof fn lemma_covers_fresh(store: PoolStore, set: Seq<PoolPair>, cursor: QuoteCursor)
    requires
        cursor.last is None,
    ensures
        covers(store, Seq::empty(), set, cursor),
{
    reveal(covers);
}

proof fn lemma_covers_load(
    store: PoolStore,
    sw: Seq<Swap>,
    set: Seq<PoolPair>,
    cursor: QuoteCursor,
    set2: Seq<PoolPair>,
    cursor2: QuoteCursor,
)
    requires
        covers(store, sw, set, cursor),
        cursor2.collection == cursor.collection,
        cursor2.denom == cursor.denom,
        cursor2.side == cursor.side,
        forall|e: PairQuote|
            quotes_for(store, cursor, e) && #[trigger] reach(set, cursor, e) ==> reach(set2, cursor2, e),
    ensures
        covers(store, sw, set2, cursor2),
{
    reveal(covers);
    assert forall|e: PairQuote|
        #[trigger] quotes_for(store, cursor2, e) && (forall|j: int|
            0 <= j < sw.len() ==> (#[trigger] sw[j]).pool_id != e.pair_id) implies reach(set2, cursor2, e) by {
        assert(quotes_for(store, cursor, e));
        assert(reach(set, cursor, e));
    }
}

proof fn lemma_covers_trade(
    store: PoolStore,
    sw: Seq<Swap>,
    set: Seq<PoolPair>,
    cursor: QuoteCursor,
    b: int,
    after: PoolPair,
    rec: Swap,
)
    requires
        covers(store, sw, set, cursor),
        0 <= b < set.len(),
        rec.pool_id == set[b].pool.id,
        forall|a: int| 0 <= a < set.len() && a != b ==> set[a].pool.id != set[b].pool.id,
    ensures
        covers(store, sw.push(rec), set.update(b, after), cursor),
{
    reveal(covers);
    let sw2 = sw.push(rec);
    let set2 = set.update(b, after);
    assert forall|e: PairQuote|
        #[trigger] quotes_for(store, cursor, e) && (forall|j: int|
            0 <= j < sw2.len() ==> (#[trigger] sw2[j]).pool_id != e.pair_id) implies reach(set2, cursor, e) by {
        assert forall|j: int| 0 <= j < sw.len() implies (#[trigger] sw[j]).pool_id != e.pair_id by {
            assert(sw2[j] == sw[j]);
        }
        assert(sw2[sw.len() as int] == rec);
        assert(reach(set, cursor, e));
        if !cursor.pending(e) {
            let a = choose|a: int|
                0 <= a < set.len() && (#[trigger] set[a]).pool.id == e.pair_id && pool_key(set[a].pool, cursor.side)
                    == side_price(e, cursor.side);
            assert(a != b);
            assert(set2[a] == set[a]);
        }
    }
}

/// A sale batch over the legs `legs` stands at `p`: its trades so far were
/// made at known states of the stored pools, every stored pool they did not
/// touch is still within reach, and the next leg cannot be filled: the
/// deadline has passed, no pool within reach pays its floor, the best pool
/// cannot take its item, or the gross total would exceed 128 bits.
pub open spec fn sale_stuck(
    store: PoolStore,
    ctx: PayoutContext,
    p: SwapProcessor,
    legs: Seq<NftSwap>,
    seller: String,
    custody: String,
) -> bool {
    let k = p.swaps@.len() as int;
    &&& k < legs.len()
    &&& p.cursor.side == TransactionType::UserSubmitsNfts
    &&& linked(store, ctx, TransactionType::UserSubmitsNfts, p.swaps@, p.traded@, p.pool_set@)
    &&& sales_at_states(p.swaps@, p.traded@, legs, seller, custody)
    &&& covers(store, p.swaps@, p.pool_set@, p.cursor)
    &&& (p.cannot_fill(store, legs[k].token_amount) || p.item_clash(legs[k].nft_token_id@)
        || p.gross_overflow())
}

/// A purchase batch over the ceilings `maxes` stands at `p`: its trades so
/// far were made at known states of the stored pools, every stored pool they
/// did not touch is still within reach, and the next leg cannot be filled:
/// the deadline has passed, no pool within reach asks at most its ceiling,
/// or the best pool could not keep the proceeds.
pub open spec fn purchase_stuck(
    store: PoolStore,
    ctx: PayoutContext,
    p: SwapProcessor,
    maxes: Seq<u128>,
    buyer: String,
    custody: String,
) -> bool {
    let k = p.swaps@.len() as int;
    &&& k < maxes.len()
    &&& p.cursor.side == TransactionType::UserSubmitsTokens
    &&& linked(store, ctx, TransactionType::UserSubmitsTokens, p.swaps@, p.traded@, p.pool_set@)
    &&& purchases_at_states(p.swaps@, p.traded@, buyer, custody)
    &&& covers(store, p.swaps@, p.pool_set@, p.cursor)
    &&& (p.cannot_fill(store, maxes[k]) || p.proceeds_overflow())
}

/// The state of one batch of trades against one collection.
pub struct SwapProcessor {
    pub swaps: Vec<Swap>,
    pub collection: String,
    pub denom: String,
    pub seller_recipient: String,
    pub contract_address: String,
    pub ctx: PayoutContext,
    pub deadline: u64,
    pub block_time: u64,
    pub pool_set: Vec<PoolPair>,
    pub cursor: QuoteCursor,
    /// For each recorded trade, the state its pool had just before it.
    pub traded: Ghost<Seq<Pair>>,
}

impl SwapProcessor {
    /// The fields that a leg leaves alone are those of `other`.
    pub open spec fn same_setup(&self, other: SwapProcessor) -> bool {
        &&& self.collection == other.collection
        &&& self.denom == other.denom
        &&& self.seller_recipient == other.seller_recipient
        &&& self.contract_address == other.contract_address
        &&& self.ctx == other.ctx
        &&& self.deadline == other.deadline
        &&& self.block_time == other.block_time
    }

    pub fn new(
        tx_type: TransactionType,
        collection: String,
        denom: String,
        seller_recipient: String,
        contract_address: String,
        ctx: PayoutContext,
        deadline: u64,
        block_time: u64,
    ) -> (r: SwapProcessor)
        ensures
            r.swaps@.len() == 0,
            r.pool_set@.len() == 0,
            r.collection == collection,
            r.denom == denom,
            r.seller_recipient == seller_recipient,
            r.contract_address == contract_address,
            r.ctx == ctx,
            r.deadline == deadline,
            r.block_time == block_time,
            r.cursor.collection == collection,
            r.cursor.denom == denom,
            r.cursor.side == tx_type,
            r.cursor.last is None,
            r.traded@.len() == 0,
    {
        let cursor = QuoteCursor::new(collection.clone(), denom.clone(), tx_type);
        SwapProcessor {
            swaps: Vec::new(),
            collection,
            denom,
            seller_recipient,
            contract_address,
            ctx,
            deadline,
            block_time,
            pool_set: Vec::new(),
            cursor,
            traded: Ghost(Seq::empty()),
        }
    }

    /// The settlement of the batch: protocol fees summed, token payments
    /// summed per address (the contract's own address left out, as what is
    /// owed to it stays where it is), and one item transfer per trade.
    pub fn commit_messages(&self) -> (r: Result<Settlement, ContractError>)
        ensures
            self.swaps@.len() == 0 <==> r == Err::<Settlement, ContractError>(
                ContractError::SwapError(SwapFailure::NoSwaps),
            ),
            self.swaps@.len() > 0 && r is Err ==> r == Err::<Settlement, ContractError>(
                ContractError::InvalidInput,
            ),
            self.swaps@.len() > 0 && r is Err ==> settlement_overflows(self.swaps@),
            r matches Ok(st) ==> {
                &&& st.fair_burn_amount == total_network_fee(self.swaps@)
                &&& aggregates(
                    st.token_payments@,
                    pay_list(self.swaps@),
                    self.contract_address@,
                )
                &&& st.nft_payments@.len() == self.swaps@.len()
                &&& forall|i: int|
                    0 <= i < self.swaps@.len() ==> (#[trigger] st.nft_payments@[i])
                        == self.swaps@[i].nft_payment
            },
    {
        if self.swaps.len() == 0 {
            return Err(ContractError::SwapError(SwapFailure::NoSwaps));
        }
        let ghost sw = self.swaps@;
        let mut fee: u128 = 0;
        let mut token_payments: Vec<TokenPayment> = Vec::new();
        let mut nft_payments: Vec<NftPayment> = Vec::new();
        let mut i: usize = 0;
        proof {
            assert(sw.subrange(0, 0) =~= Seq::<Swap>::empty());
            assert(pay_list(sw.subrange(0, 0)) =~= Seq::<Option<TokenPayment>>::empty());
        }
        while i < self.swaps.len()
            invariant
                0 <= i <= sw.len(),
                sw == self.swaps@,
                sw.len() > 0,
                fee == total_network_fee(sw.subrange(0, i as int)),
                aggregates(token_payments@, pay_list(sw.subrange(0, i as int)), self.contract_address@),
                nft_payments@.len() == i,
                forall|k: int| 0 <= k < i ==> (#[trigger] nft_payments@[k]) == sw[k].nft_payment,
            decreases sw.len() - i,
        {
            let s = &self.swaps[i];
            let ghost pre = sw.subrange(0, i as int);
            let ghost post = sw.subrange(0, i + 1);
            proof {
                assert(post.drop_last() =~= pre);
                assert(post.last() == sw[i as int]);
            }
            if fee > u128::MAX - s.network_fee {
                proof {
                    lemma_fee_prefix(sw, i + 1);
                }
                return Err(ContractError::InvalidInput);
            }
            fee = fee + s.network_fee;
            let ghost l0 = pay_list(pre);
            let ghost full = pay_list(sw);
            proof {
                lemma_pay_list_prefix(sw, i as int);
                lemma_pay_list_prefix(sw, i + 1);
                assert(pay_list(post) =~= l0 + token_payments_of(sw[i as int]));
                assert(full.subrange(0, 3 * i + 3) == l0 + token_payments_of(sw[i as int]));
            }
            if !settle_one(&mut token_payments, &s.royalty_payment, &self.contract_address, Ghost(l0)) {
                proof {
                    let a = choose|a: Seq<char>| sum_paid(l0.push(s.royalty_payment), a) > u128::MAX;
                    assert(l0.push(s.royalty_payment) =~= full.subrange(0, 3 * i + 1));
                    lemma_sum_paid_prefix(full, 3 * i + 1, a);
                }
                return Err(ContractError::InvalidInput);
            }
            let ghost l1 = l0.push(s.royalty_payment);
            if !settle_one(&mut token_payments, &s.swap_fee_payment, &self.contract_address, Ghost(l1)) {
                proof {
                    let a = choose|a: Seq<char>| sum_paid(l1.push(s.swap_fee_payment), a) > u128::MAX;
                    assert(l1.push(s.swap_fee_payment) =~= full.subrange(0, 3 * i + 2));
                    lemma_sum_paid_prefix(full, 3 * i + 2, a);
                }
                return Err(ContractError::InvalidInput);
            }
            let ghost l2 = l1.push(s.swap_fee_payment);
            let seller = Some(s.seller_payment.duplicate());
            if !settle_one(&mut token_payments, &seller, &self.contract_address, Ghost(l2)) {
                proof {
                    let a = choose|a: Seq<char>| sum_paid(l2.push(seller), a) > u128::MAX;
                    assert(l2.push(seller) =~= full.subrange(0, 3 * i + 3));
                    lemma_sum_paid_prefix(full, 3 * i + 3, a);
                }
                return Err(ContractError::InvalidInput);
            }
            proof {
                assert(l2.push(seller) =~= pay_list(post));
            }
            nft_payments.push(
                NftPayment {
                    nft_token_id: s.nft_payment.nft_token_id.clone(),
                    address: s.nft_payment.address.clone(),
                },
            );
            i = i + 1;
        }
        proof {
            assert(sw.subrange(0, sw.len() as int) =~= sw);
        }
        Ok(Settlement { fair_burn_amount: fee, token_payments, nft_payments })
    }

    /// Sells the item of `nft_swap` into `pool` and records the trade.
    pub fn process_sell(&mut self, pool: &mut Pair, nft_swap: NftSwap) -> (r: Result<(), ContractError>)
        requires
            old(pool).wf(),
            old(pool).quotes_consistent(),
        ensures
            final(self).same_setup(*old(self)),
            final(self).pool_set == old(self).pool_set,
            final(self).cursor == old(self).cursor,
            match sell_failure(*old(pool), nft_swap, old(self).block_time, old(self).deadline) {
                Some(e) => {
                    &&& r == Err::<(), ContractError>(e)
                    &&& *final(pool) == *old(pool)
                    &&& final(self).swaps@ == old(self).swaps@
                    &&& final(self).traded@ == old(self).traded@
                },
                None => {
                    let q = old(pool).internal.sell_to_pair_quote_summary.unwrap();
                    &&& r is Ok
                    &&& final(self).swaps@ == old(self).swaps@.push(
                        sell_swap(
                            *old(pool),
                            q,
                            nft_swap.nft_token_id,
                            old(self).seller_recipient,
                            old(self).contract_address,
                        ),
                    )
                    &&& final(self).traded@ == old(self).traded@.push(*old(pool))
                    &&& after_sale(*old(pool), *final(pool), nft_swap.nft_token_id@, old(self).ctx)
                    &&& final(pool).wf()
                    &&& final(pool).quotes_fresh(old(self).ctx)
                    &&& final(pool).quotes_consistent()
                    &&& final(pool).id == old(pool).id
                    &&& final(pool).immutable == old(pool).immutable
                    &&& final(pool).config.pool_type == old(pool).config.pool_type
                    &&& final(pool).total_tokens == old(pool).total_tokens - q.total_spec()
                    &&& final(pool).total_nfts() >= old(pool).total_nfts()
                    &&& old(pool).curve_step(*final(pool), TransactionType::UserSubmitsNfts)
                },
            },
    {
        if self.block_time > self.deadline {
            return Err(ContractError::SwapError(SwapFailure::DeadlineExceeded));
        }
        let q = match &pool.internal.sell_to_pair_quote_summary {
            None => return Err(ContractError::SwapError(SwapFailure::NoQuote)),
            Some(q) => q.duplicate(),
        };
        let total = q.total();
        if total < nft_swap.token_amount {
            return Err(ContractError::SwapError(SwapFailure::PriceBound));
        }
        let reinvest = pool.reinvest_nfts();
        if reinvest {
            let held = pool.holds_nft(&nft_swap.nft_token_id);
            if held || pool.internal.nft_token_ids.len() as u64 == u64::MAX {
                return Err(ContractError::SwapError(SwapFailure::PoolCannotHoldItem));
            }
        }
        let nft_address = if reinvest {
            self.contract_address.clone()
        } else {
            pool.asset_recipient()
        };
        let royalty_payment = match &q.royalty {
            Some(p) => Some(p.duplicate()),
            None => None,
        };
        let swap_fee_payment = match &q.swap {
            Some(p) => Some(p.duplicate()),
            None => None,
        };
        let swap = Swap {
            pool_id: pool.id,
            pool_type: pool.config.pool_type,
            transaction_type: TransactionType::UserSubmitsNfts,
            spot_price: total,
            network_fee: q.fair_burn.amount,
            royalty_payment,
            swap_fee_payment,
            nft_payment: NftPayment {
                nft_token_id: nft_swap.nft_token_id.clone(),
                address: nft_address,
            },
            seller_payment: TokenPayment {
                amount: q.seller_amount,
                address: self.seller_recipient.clone(),
            },
        };
        let ghost before = *pool;
        pool.sim_swap_nft_for_tokens(&self.ctx, nft_swap.nft_token_id);
        proof {
            crate::pair::lemma_fresh_quotes_consistent(*pool, self.ctx);
            assert(pool.inventory().len() == pool.total_nfts());
            assert(before.inventory().len() == before.total_nfts());
        }
        self.traded = Ghost(self.traded@.push(before));
        self.swaps.push(swap);
        Ok(())
    }

    /// Buys the item of `nft_swap` from `pool` and records the trade.
    pub fn process_buy(&mut self, pool: &mut Pair, nft_swap: NftSwap) -> (r: Result<(), ContractError>)
        requires
            old(pool).wf(),
            old(pool).quotes_consistent(),
        ensures
            final(self).same_setup(*old(self)),
            final(self).pool_set == old(self).pool_set,
            final(self).cursor == old(self).cursor,
            match buy_failure(*old(pool), nft_swap, old(self).block_time, old(self).deadline) {
                Some(e) => {
                    &&& r == Err::<(), ContractError>(e)
                    &&& *final(pool) == *old(pool)
                    &&& final(self).swaps@ == old(self).swaps@
                    &&& final(self).traded@ == old(self).traded@
                },
                None => {
                    let q = old(pool).internal.buy_from_pair_quote_summary.unwrap();
                    &&& r is Ok
                    &&& final(self).swaps@ == old(self).swaps@.push(
                        buy_swap(
                            *old(pool),
                            q,
                            nft_swap.nft_token_id,
                            old(self).seller_recipient,
                            old(self).contract_address,
                        ),
                    )
                    &&& final(self).traded@ == old(self).traded@.push(*old(pool))
                    &&& after_purchase(*old(pool), *final(pool), nft_swap.nft_token_id@, old(self).ctx)
                    &&& final(pool).wf()
                    &&& final(pool).quotes_fresh(old(self).ctx)
                    &&& final(pool).quotes_consistent()
                    &&& final(pool).id == old(pool).id
                    &&& final(pool).immutable == old(pool).immutable
                    &&& final(pool).config.pool_type == old(pool).config.pool_type
                    &&& final(pool).total_tokens >= old(pool).total_tokens
                    &&& final(pool).total_nfts() == old(pool).total_nfts() - 1
                    &&& !final(pool).inventory().contains(nft_swap.nft_token_id@)
                    &&& old(pool).curve_step(*final(pool), TransactionType::UserSubmitsTokens)
                },
            },
    {
        if self.block_time > self.deadline {
            return Err(ContractError::SwapError(SwapFailure::DeadlineExceeded));
        }
        let q = match &pool.internal.buy_from_pair_quote_summary {
            None => return Err(ContractError::SwapError(SwapFailure::NoQuote)),
            Some(q) => q.duplicate(),
        };
        let total = q.total();
        if total > nft_swap.token_amount {
            return Err(ContractError::SwapError(SwapFailure::PriceBound));
        }
        if !pool.holds_nft(&nft_swap.nft_token_id) {
            return Err(ContractError::SwapError(SwapFailure::ItemNotFound));
        }
        let reinvest = pool.reinvest_tokens();
        if reinvest && pool.total_tokens > u128::MAX - q.seller_amount {
            return Err(ContractError::SwapError(SwapFailure::BalanceOverflow));
        }
        let token_address = if reinvest {
            self.contract_address.clone()
        } else {
            pool.asset_recipient()
        };
        let royalty_payment = match &q.royalty {
            Some(p) => Some(p.duplicate()),
            None => None,
        };
        let swap_fee_payment = match &q.swap {
            Some(p) => Some(p.duplicate()),
            None => None,
        };
        let swap = Swap {
            pool_id: pool.id,
            pool_type: pool.config.pool_type,
            transaction_type: TransactionType::UserSubmitsTokens,
            spot_price: total,
            network_fee: q.fair_burn.amount,
            royalty_payment,
            swap_fee_payment,
            nft_payment: NftPayment {
                nft_token_id: nft_swap.nft_token_id.clone(),
                address: self.seller_recipient.clone(),
            },
            seller_payment: TokenPayment { amount: q.seller_amount, address: token_address },
        };
        let ghost before = *pool;
        pool.sim_swap_tokens_for_nft(&self.ctx, &nft_swap.nft_token_id);
        proof {
            crate::pair::lemma_fresh_quotes_consistent(*pool, self.ctx);
            let i = choose|i: int|
                0 <= i < before.total_nfts() && before.inventory()[i] == nft_swap.nft_token_id@
                    && pool.inventory() == before.inventory().remove(i);
            if pool.inventory().contains(nft_swap.nft_token_id@) {
                let j = choose|j: int| 0 <= j < pool.inventory().len() && pool.inventory()[j] == nft_swap.nft_token_id@;
                let bj = if j < i { j } else { j + 1 };
                assert(before.inventory()[bj] == nft_swap.nft_token_id@);
            }
        }
        self.traded = Ghost(self.traded@.push(before));
        self.swaps.push(swap);
        Ok(())
    }
}

/// The ranking key of a pool for direction `side`: the gross amount of its
/// cached quote for that direction.
pub open spec fn pool_key(p: Pair, side: TransactionType) -> Option<u128> {
    side_price(p.index_entry(), side)
}

/// Price `v` is worse than `bound` for direction `side`: lower for a sale
/// into a pool, higher for a purchase from one.
pub open spec fn worse(side: TransactionType, v: u128, bound: u128) -> bool {
    match side {
        TransactionType::UserSubmitsNfts => v < bound,
        TransactionType::UserSubmitsTokens => v > bound,
    }
}

/// Price `v` is no better than `bound` for direction `side`: no higher for a
/// sale into a pool, no lower for a purchase from one.
pub open spec fn no_better(side: TransactionType, v: u128, bound: u128) -> bool {
    match side {
        TransactionType::UserSubmitsNfts => v <= bound,
        TransactionType::UserSubmitsTokens => v >= bound,
    }
}

fn key_of(p: &Pair, side: TransactionType) -> (r: Option<u128>)
    requires
        p.quotes_consistent(),
    ensures
        r == pool_key(*p, side),
{
    let q = match side {
        TransactionType::UserSubmitsNfts => &p.internal.sell_to_pair_quote_summary,
        TransactionType::UserSubmitsTokens => &p.internal.buy_from_pair_quote_summary,
    };
    match q {
        Some(q) => Some(q.total()),
        None => None,
    }
}

impl SwapProcessor {
    /// The working set holds well-formed pools of the store with
    /// consistent quotes and distinct ids.
    pub open spec fn set_sound(&self, store: PoolStore) -> bool {
        let s = self.pool_set@;
        &&& forall|a: int|
            0 <= a < s.len() ==> {
                &&& (#[trigger] s[a]).pool.wf()
                &&& s[a].pool.quotes_consistent()
                &&& store.get(s[a].pool.id) is Some
            }
        &&& forall|a: int, b: int|
            0 <= a < s.len() && 0 <= b < s.len() && a != b ==> s[a].pool.id != s[b].pool.id
    }

    /// The working set holds well-formed pools of the store, with distinct
    /// ids, none of which the cursor has yet to hand out.
    pub open spec fn set_valid(&self, store: PoolStore) -> bool {
        let s = self.pool_set@;
        &&& self.set_sound(store)
        &&& forall|e: PairQuote, a: int|
            #![trigger store.index.has(e), s[a]]
            store.index.has(e) && self.cursor.pending(e) && 0 <= a < s.len() ==> e.pair_id != s[a].pool.id
    }

    /// No pool of the working set and no pool still to come from the index
    /// quotes better than `bound`.
    pub open spec fn bounded_by(&self, store: PoolStore, bound: u128) -> bool {
        let side = self.cursor.side;
        &&& forall|a: int|
            0 <= a < self.pool_set@.len() ==> (pool_key(
                (#[trigger] self.pool_set@[a]).pool,
                side,
            ) matches Some(v) ==> no_better(side, v, bound))
        &&& forall|e: PairQuote| #[trigger]
            store.index.has(e) && self.cursor.pending(e) ==> no_better(
                side,
                side_price(e, side).unwrap(),
                bound,
            )
    }

    /// The pool at position `b` of the working set quotes best, and better
    /// than any pool still to come from the index.
    pub open spec fn is_best(&self, store: PoolStore, b: int) -> bool {
        let side = self.cursor.side;
        let s = self.pool_set@;
        let v = pool_key(s[b].pool, side).unwrap();
        &&& 0 <= b < s.len()
        &&& pool_key(s[b].pool, side) is Some
        &&& forall|a: int|
            0 <= a < s.len() && a != b && (#[trigger] pool_key(s[a].pool, side)) is Some ==> ranks_before(
                side,
                v,
                s[b].pool.id,
                pool_key(s[a].pool, side).unwrap(),
                s[a].pool.id,
            )
        &&& forall|e: PairQuote| #[trigger]
            store.index.has(e) && self.cursor.pending(e) ==> ranks_before(
                side,
                v,
                s[b].pool.id,
                side_price(e, side).unwrap(),
                e.pair_id,
            )
    }

    /// No trade at `bound` is possible: the deadline has passed, or no pool
    /// of the working set and none still to come from the index quotes at
    /// least as well as `bound`.
    pub open spec fn cannot_fill(&self, store: PoolStore, bound: u128) -> bool {
        let side = self.cursor.side;
        ||| self.block_time > self.deadline
        ||| {
            &&& forall|a: int|
                0 <= a < self.pool_set@.len() ==> (pool_key(
                    (#[trigger] self.pool_set@[a]).pool,
                    side,
                ) matches Some(v) ==> worse(side, v, bound))
            &&& forall|e: PairQuote| #[trigger]
                store.index.has(e) && self.cursor.pending(e) ==> worse(
                    side,
                    side_price(e, side).unwrap(),
                    bound,
                )
        }
    }

    /// Trading with the best-quoting pool of the working set would take the
    /// gross total of the batch beyond 128 bits.
    pub open spec fn gross_overflow(&self) -> bool {
        exists|a: int|
            0 <= a < self.pool_set@.len() && (pool_key(
                (#[trigger] self.pool_set@[a]).pool,
                self.cursor.side,
            ) matches Some(v) && total_spent(self.swaps@) + v > u128::MAX)
    }

    /// Some pool of the working set keeps the items it buys and already
    /// holds the item `id`, or holds as many items as it can count.
    pub open spec fn item_clash(&self, id: Seq<char>) -> bool {
        exists|a: int|
            0 <= a < self.pool_set@.len() && (#[trigger] self.pool_set@[a]).pool.reinvests_nfts() && (
            self.pool_set@[a].pool.inventory().contains(id) || self.pool_set@[a].pool.total_nfts()
                >= u64::MAX)
    }

    /// Some pool of the working set that keeps its proceeds could not add
    /// those of its next sale to its balance within 128 bits.
    pub open spec fn proceeds_overflow(&self) -> bool {
        exists|a: int|
            0 <= a < self.pool_set@.len() && (#[trigger] self.pool_set@[a]).pool.reinvests_tokens()
                && (self.pool_set@[a].pool.internal.buy_from_pair_quote_summary matches Some(q)
                && self.pool_set@[a].pool.total_tokens + q.seller_amount > u128::MAX)
    }

    /// Every pool of the working set marked as changed took part in one of
    /// the trades from position `from` on.
    pub open spec fn changes_traced(&self, from: int) -> bool {
        forall|a: int|
            0 <= a < self.pool_set@.len() && (#[trigger] self.pool_set@[a]).needs_saving ==> exists|
                i: int,
            |
                from <= i < self.swaps@.len() && self.swaps@[i].pool_id == self.pool_set@[a].pool.id
    }

    /// The position of the best-quoting pool of the working set.
    fn best_in_set(&self) -> (r: Option<usize>)
        requires
            forall|a: int|
                0 <= a < self.pool_set@.len() ==> (#[trigger] self.pool_set@[a]).pool.quotes_consistent(),
            forall|a: int, b: int|
                0 <= a < self.pool_set@.len() && 0 <= b < self.pool_set@.len() && a != b
                    ==> self.pool_set@[a].pool.id != self.pool_set@[b].pool.id,
        ensures
            r matches Some(b) ==> {
                let s = self.pool_set@;
                let side = self.cursor.side;
                &&& b < s.len()
                &&& pool_key(s[b as int].pool, side) is Some
                &&& forall|a: int|
                    0 <= a < s.len() && a != b && (#[trigger] pool_key(s[a].pool, side)) is Some
                        ==> ranks_before(
                        side,
                        pool_key(s[b as int].pool, side).unwrap(),
                        s[b as int].pool.id,
                        pool_key(s[a].pool, side).unwrap(),
                        s[a].pool.id,
                    )
            },
            r is None ==> forall|a: int|
                0 <= a < self.pool_set@.len() ==> (#[trigger] pool_key(self.pool_set@[a].pool, self.cursor.side)) is None,
    {
        let side = self.cursor.side;
        let ghost s = self.pool_set@;
        let mut best: Option<usize> = None;
        let mut best_key: u128 = 0;
        let mut j: usize = 0;
        while j < self.pool_set.len()
            invariant
                0 <= j <= s.len(),
                s == self.pool_set@,
                side == self.cursor.side,
                forall|a: int| 0 <= a < s.len() ==> (#[trigger] s[a]).pool.quotes_consistent(),
                forall|a: int, b: int| 0 <= a < s.len() && 0 <= b < s.len() && a != b ==> s[a].pool.id != s[b].pool.id,
                best matches Some(b) ==> b < j && pool_key(s[b as int].pool, side) == Some(best_key),
                best matches Some(b) ==> forall|a: int|
                    0 <= a < j && a != b && (#[trigger] pool_key(s[a].pool, side)) is Some ==> ranks_before(
                        side,
                        best_key,
                        s[b as int].pool.id,
                        pool_key(s[a].pool, side).unwrap(),
                        s[a].pool.id,
                    ),
                best is None ==> forall|a: int| 0 <= a < j ==> (#[trigger] pool_key(s[a].pool, side)) is None,
            decreases s.len() - j,
        {
            let p = &self.pool_set[j].pool;
            if let Some(v) = key_of(p, side) {
                let take = match best {
                    None => true,
                    Some(b) => ranks_before_exec(side, v, p.id, best_key, self.pool_set[b].pool.id),
                };
                if take {
                    proof {
                        if let Some(b) = best {
                            assert(s[b as int].pool.id != s[j as int].pool.id);
                        }
                    }
                    best = Some(j);
                    best_key = v;
                } else {
                    proof {
                        let b = best.unwrap();
                        assert(s[b as int].pool.id != s[j as int].pool.id);
                    }
                }
            }
            j = j + 1;
        }
        best
    }

    /// Pulls pools from the index into the working set until the best pool
    /// of the set is known to beat every pool still in the index, and
    /// returns its position; `None` when no pool quotes at all.
    pub fn load_next_pool(&mut self, store: &PoolStore) -> (r: Option<usize>)
        requires
            store.wf(),
            old(self).set_valid(*store),
        ensures
            final(self).same_setup(*old(self)),
            final(self).swaps@ == old(self).swaps@,
            final(self).cursor.side == old(self).cursor.side,
            final(self).cursor.collection == old(self).cursor.collection,
            final(self).cursor.denom == old(self).cursor.denom,
            final(self).set_valid(*store),
            old(self).pool_set@.len() <= final(self).pool_set@.len(),
            forall|a: int| 0 <= a < old(self).pool_set@.len() ==> #[trigger] final(self).pool_set@[a] == old(self).pool_set@[a],
            forall|a: int| old(self).pool_set@.len() <= a < final(self).pool_set@.len() ==> !(#[trigger] final(self).pool_set@[a]).needs_saving,
            forall|a: int| old(self).pool_set@.len() <= a < final(self).pool_set@.len() ==> (store.get((#[trigger] final(self).pool_set@[a]).pool.id) matches Some(sp) && final(self).pool_set@[a].pool.same_as(sp)),
            final(self).traded == old(self).traded,
            forall|bound: u128| old(self).bounded_by(*store, bound) ==> #[trigger] final(self).bounded_by(*store, bound),
            forall|e: PairQuote|
                quotes_for(*store, old(self).cursor, e) && #[trigger] reach(old(self).pool_set@, old(self).cursor, e)
                    ==> reach(final(self).pool_set@, final(self).cursor, e),
            r matches Some(b) ==> final(self).is_best(*store, b as int),
            r is None ==> forall|a: int|
                0 <= a < final(self).pool_set@.len() ==> (#[trigger] pool_key(final(self).pool_set@[a].pool, final(self).cursor.side)) is None,
            r is None ==> forall|e: PairQuote| #[trigger] store.index.has(e) ==> !final(self).cursor.pending(e),
    {
        let side = self.cursor.side;
        loop
            invariant
                store.wf(),
                side == self.cursor.side,
                self.same_setup(*old(self)),
                self.swaps@ == old(self).swaps@,
                self.cursor.collection == old(self).cursor.collection,
                self.cursor.denom == old(self).cursor.denom,
                self.cursor.side == old(self).cursor.side,
                self.set_valid(*store),
                old(self).pool_set@.len() <= self.pool_set@.len(),
                forall|a: int| 0 <= a < old(self).pool_set@.len() ==> #[trigger] self.pool_set@[a] == old(self).pool_set@[a],
                forall|a: int| old(self).pool_set@.len() <= a < self.pool_set@.len() ==> !(#[trigger] self.pool_set@[a]).needs_saving,
                forall|a: int| old(self).pool_set@.len() <= a < self.pool_set@.len() ==> (store.get((#[trigger] self.pool_set@[a]).pool.id) matches Some(sp) && self.pool_set@[a].pool.same_as(sp)),
                self.traded == old(self).traded,
                forall|bound: u128| old(self).bounded_by(*store, bound) ==> #[trigger] self.bounded_by(*store, bound),
                forall|e: PairQuote|
                    quotes_for(*store, old(self).cursor, e) && #[trigger] reach(old(self).pool_set@, old(self).cursor, e)
                        ==> reach(self.pool_set@, self.cursor, e),
            decreases pending_count(self.cursor, store.index.entries@),
        {
            let best = self.best_in_set();
            let (id, p) = match self.cursor.peek(&store.index) {
                None => {
                    proof {
                        if let Some(b) = best {
                            assert(self.is_best(*store, b as int));
                        }
                    }
                    return best;
                },
                Some(x) => x,
            };
            let fetch = match best {
                None => true,
                Some(b) => {
                    let bk = key_of(&self.pool_set[b].pool, side);
                    match bk {
                        Some(v) => !ranks_before_exec(side, v, self.pool_set[b].pool.id, p, id),
                        None => true,
                    }
                },
            };
            if !fetch {
                proof {
                    let b = best.unwrap() as int;
                    let s = self.pool_set@;
                    let v = pool_key(s[b].pool, side).unwrap();
                    assert forall|e: PairQuote| #[trigger]
                        store.index.has(e) && self.cursor.pending(e) implies ranks_before(
                        side,
                        v,
                        s[b].pool.id,
                        side_price(e, side).unwrap(),
                        e.pair_id,
                    ) by {
                        if e.pair_id != id {
                            assert(ranks_before(side, p, id, side_price(e, side).unwrap(), e.pair_id));
                        } else {
                            let w = choose|w: PairQuote| #![trigger store.index.has(w)]
                                store.index.has(w) && self.cursor.pending(w) && w.pair_id == id
                                    && side_price(w, side) == Some(p);
                            store.index.lemma_one_entry_per_pair(e, w);
                        }
                    }
                }
                return best;
            }
            let ghost pre = *self;
            let ghost c1 = self.cursor;
            let ghost s1 = self.pool_set@;
            let ghost w = choose|w: PairQuote| #![trigger store.index.has(w)]
                store.index.has(w) && c1.pending(w) && w.pair_id == id && side_price(w, side) == Some(p);
            self.cursor.advance(&store.index);
            proof {
                store.lemma_entry_of_pool(w);
                let es = store.index.entries@;
                let i = choose|i: int| 0 <= i < es.len() && es[i] == w;
                assert forall|k: int| 0 <= k < es.len() && self.cursor.pending(#[trigger] es[k]) implies c1.pending(es[k]) by {}
                lemma_pending_count_falls(c1, self.cursor, es, i);
            }
            let pool = match store.fetch(id) {
                Some(pool) => pool,
                None => {
                    proof {
                        store.lemma_entry_of_pool(w);
                    }
                    return best;
                },
            };
            proof {
                lemma_same_as_agrees(pool, store.get(id).unwrap());
                assert(pool_key(pool, side) == Some(p));
            }
            self.pool_set.push(PoolPair { needs_saving: false, pool });
            proof {
                let s = self.pool_set@;
                assert(s == s1.push(PoolPair { needs_saving: false, pool }));
                assert forall|e: PairQuote|
                    quotes_for(*store, old(self).cursor, e) && #[trigger] reach(old(self).pool_set@, old(self).cursor, e)
                        implies reach(s, self.cursor, e) by {
                    assert(reach(s1, c1, e));
                    if c1.pending(e) {
                        if !self.cursor.pending(e) {
                            if e.pair_id != id {
                                assert(ranks_before(side, p, id, side_price(e, side).unwrap(), e.pair_id));
                            } else {
                                store.index.lemma_one_entry_per_pair(e, w);
                                assert(s[s1.len() as int].pool.id == e.pair_id);
                            }
                        }
                    } else {
                        let a = choose|a: int|
                            0 <= a < s1.len() && (#[trigger] s1[a]).pool.id == e.pair_id
                                && pool_key(s1[a].pool, c1.side) == side_price(e, c1.side);
                        assert(s[a] == s1[a]);
                    }
                }
                assert forall|a: int| 0 <= a < old(self).pool_set@.len() implies #[trigger] s[a] == old(self).pool_set@[a] by {
                    assert(s[a] == s1[a]);
                }
                assert forall|a: int| old(self).pool_set@.len() <= a < s.len() implies !(#[trigger] s[a]).needs_saving by {
                    if a < s1.len() {
                        assert(s[a] == s1[a]);
                    }
                }
                assert forall|a: int| old(self).pool_set@.len() <= a < s.len() implies (store.get((#[trigger] s[a]).pool.id) matches Some(sp) && s[a].pool.same_as(sp)) by {
                    if a < s1.len() {
                        assert(s[a] == s1[a]);
                    }
                }
                assert forall|a: int| 0 <= a < s.len() implies {
                    &&& (#[trigger] s[a]).pool.wf()
                    &&& s[a].pool.quotes_consistent()
                    &&& store.get(s[a].pool.id) is Some
                } by {
                    if a < s1.len() {
                        assert(s[a] == s1[a]);
                    }
                }
                assert forall|a: int, b: int| 0 <= a < s.len() && 0 <= b < s.len() && a != b implies s[a].pool.id != s[b].pool.id by {
                    if a < s1.len() && b < s1.len() {
                        assert(s[a] == s1[a] && s[b] == s1[b]);
                    } else if a < s1.len() {
                        assert(s[a] == s1[a]);
                        assert(w.pair_id != s1[a].pool.id);
                    } else if b < s1.len() {
                        assert(s[b] == s1[b]);
                        assert(w.pair_id != s1[b].pool.id);
                    }
                }
                assert forall|e: PairQuote, a: int|
                    #![trigger store.index.has(e), s[a]]
                    store.index.has(e) && self.cursor.pending(e) && 0 <= a < s.len() implies e.pair_id != s[a].pool.id by {
                    if a < s1.len() {
                        assert(s[a] == s1[a]);
                        assert(c1.pending(e));
                    } else if e.pair_id == id {
                        store.index.lemma_one_entry_per_pair(e, w);
                    }
                }
                assert forall|bound: u128| old(self).bounded_by(*store, bound) implies #[trigger] self.bounded_by(*store, bound) by {
                    if old(self).bounded_by(*store, bound) {
                        assert(pre.bounded_by(*store, bound));
                        assert forall|a: int| 0 <= a < s.len() implies (pool_key(
                            (#[trigger] s[a]).pool,
                            side,
                        ) matches Some(v) ==> no_better(side, v, bound)) by {
                            if a < s1.len() {
                                assert(s[a] == s1[a]);
                                assert(pre.pool_set@[a] == s1[a]);
                            } else {
                                assert(c1.pending(w));
                                assert(store.index.has(w));
                            }
                        }
                        assert forall|e: PairQuote| #[trigger]
                            store.index.has(e) && self.cursor.pending(e) implies no_better(
                            side,
                            side_price(e, side).unwrap(),
                            bound,
                        ) by {
                            assert(c1.pending(e));
                        }
                    }
                }
            }
        }
    }
}

impl SwapProcessor {
    /// Sells each item of `nfts_to_swap`, in order, to the pool of the
    /// collection that pays most for it at that moment. A leg that cannot be
    /// filled ends the batch: with `robust` the legs filled so far stand,
    /// otherwise the batch fails.
    #[verifier::rlimit(100)]
    pub fn swap_nfts_for_tokens(
        &mut self,
        store: &PoolStore,
        nfts_to_swap: Vec<NftSwap>,
        robust: bool,
    ) -> (r: Result<(), ContractError>)
        requires
            store.wf(),
            old(self).set_valid(*store),
            old(self).swaps@.len() == 0,
            old(self).traded@.len() == old(self).swaps@.len(),
            covers(*store, old(self).swaps@, old(self).pool_set@, old(self).cursor),
            linked(
                *store,
                old(self).ctx,
                TransactionType::UserSubmitsNfts,
                old(self).swaps@,
                old(self).traded@,
                old(self).pool_set@,
            ),
            sales_at_states(
                old(self).swaps@,
                old(self).traded@,
                nfts_to_swap@,
                old(self).seller_recipient,
                old(self).contract_address,
            ),
            old(self).changes_traced(old(self).swaps@.len() as int),
            old(self).cursor.side == TransactionType::UserSubmitsNfts,
        ensures
            final(self).same_setup(*old(self)),
            final(self).set_valid(*store),
            final(self).changes_traced(old(self).swaps@.len() as int),
            forall|i: int|
                old(self).swaps@.len() <= i < final(self).swaps@.len() ==> sold_at_quote(
                    #[trigger] final(self).swaps@[i],
                    nfts_to_swap@[i - old(self).swaps@.len()].nft_token_id,
                    old(self).seller_recipient,
                    old(self).contract_address,
                ),
            r is Err ==> final(self).swaps@.len() < old(self).swaps@.len() + nfts_to_swap@.len() && (
            r matches Err(ContractError::SwapError(_))) && !robust,
            final(self).swaps@.len() <= old(self).swaps@.len() + nfts_to_swap@.len(),
            final(self).swaps@.subrange(0, old(self).swaps@.len() as int) == old(self).swaps@,
            forall|i: int|
                old(self).swaps@.len() <= i < final(self).swaps@.len() ==> {
                    let leg = nfts_to_swap@[i - old(self).swaps@.len()];
                    &&& (#[trigger] final(self).swaps@[i]).transaction_type
                        == TransactionType::UserSubmitsNfts
                    &&& final(self).swaps@[i].nft_payment.nft_token_id == leg.nft_token_id
                    &&& final(self).swaps@[i].spot_price >= leg.token_amount
                },
            forall|i: int, j: int|
                old(self).swaps@.len() <= i < j < final(self).swaps@.len() ==> (
                #[trigger] final(self).swaps@[j]).spot_price <= (
                #[trigger] final(self).swaps@[i]).spot_price,
            r matches Err(ContractError::SwapError(_)) ==> !robust,
            r is Ok && !robust ==> final(self).swaps@.len() == old(self).swaps@.len()
                + nfts_to_swap@.len(),
            (r is Err || final(self).swaps@.len() < old(self).swaps@.len() + nfts_to_swap@.len())
                ==> final(self).cannot_fill(
                *store,
                nfts_to_swap@[final(self).swaps@.len() - old(self).swaps@.len()].token_amount,
            ) || final(self).item_clash(
                nfts_to_swap@[final(self).swaps@.len() - old(self).swaps@.len()].nft_token_id@,
            ) || final(self).gross_overflow(),
            total_spent(final(self).swaps@) <= u128::MAX,
            covers(*store, final(self).swaps@, final(self).pool_set@, final(self).cursor),
            final(self).cursor.collection == old(self).cursor.collection,
            final(self).cursor.denom == old(self).cursor.denom,
            final(self).cursor.side == old(self).cursor.side,
            linked(
                *store,
                old(self).ctx,
                TransactionType::UserSubmitsNfts,
                final(self).swaps@,
                final(self).traded@,
                final(self).pool_set@,
            ),
            sales_at_states(
                final(self).swaps@,
                final(self).traded@,
                nfts_to_swap@,
                old(self).seller_recipient,
                old(self).contract_address,
            ),
    {
        let ghost m0 = self.swaps@.len();
        let ghost side = TransactionType::UserSubmitsNfts;
        let side_exec = TransactionType::UserSubmitsNfts;
        let n = nfts_to_swap.len();
        let mut spent: u128 = 0;
        let mut k: usize = 0;
        while k < n
            invariant
                0 <= k <= n,
                n == nfts_to_swap@.len(),
                store.wf(),
                self.same_setup(*old(self)),
                side == TransactionType::UserSubmitsNfts,
                self.cursor.side == side,
                self.set_valid(*store),
                self.changes_traced(m0 as int),
                side_exec == side,
                m0 == 0,
                spent == total_spent(self.swaps@),
                self.traded@.len() == self.swaps@.len(),
                covers(*store, self.swaps@, self.pool_set@, self.cursor),
                self.cursor.collection == old(self).cursor.collection,
                self.cursor.side == old(self).cursor.side,
                self.cursor.denom == old(self).cursor.denom,
                linked(
                    *store,
                    old(self).ctx,
                    TransactionType::UserSubmitsNfts,
                    self.swaps@,
                    self.traded@,
                    self.pool_set@,
                ),
                sales_at_states(
                    self.swaps@,
                    self.traded@,
                    nfts_to_swap@,
                    old(self).seller_recipient,
                    old(self).contract_address,
                ),
                forall|i: int|
                    m0 <= i < self.swaps@.len() ==> sold_at_quote(
                        #[trigger] self.swaps@[i],
                        nfts_to_swap@[i - m0].nft_token_id,
                        old(self).seller_recipient,
                        old(self).contract_address,
                    ),
                self.swaps@.len() == m0 + k,
                m0 == old(self).swaps@.len(),
                self.swaps@.subrange(0, m0 as int) == old(self).swaps@,
                forall|i: int|
                    m0 <= i < self.swaps@.len() ==> {
                        let leg = nfts_to_swap@[i - m0];
                        &&& (#[trigger] self.swaps@[i]).transaction_type
                            == TransactionType::UserSubmitsNfts
                        &&& self.swaps@[i].nft_payment.nft_token_id == leg.nft_token_id
                        &&& self.swaps@[i].spot_price >= leg.token_amount
                    },
                forall|i: int, j: int|
                    m0 <= i < j < self.swaps@.len() ==> (#[trigger] self.swaps@[j]).spot_price
                        <= (#[trigger] self.swaps@[i]).spot_price,
                k > 0 ==> self.bounded_by(*store, self.swaps@[m0 + k - 1].spot_price),
            decreases n - k,
        {
            let ghost pre = *self;
            let loaded = self.load_next_pool(store);
            proof {
                lemma_linked_load(
                    *store,
                    old(self).ctx,
                    TransactionType::UserSubmitsNfts,
                    self.swaps@,
                    self.traded@,
                    pre.pool_set@,
                    self.pool_set@,
                );
                lemma_covers_load(*store, self.swaps@, pre.pool_set@, pre.cursor, self.pool_set@, self.cursor);
            }
            let b = match loaded {
                None => {
                    if robust {
                        return Ok(());
                    } else {
                        return Err(ContractError::SwapError(SwapFailure::NoQuote));
                    }
                },
                Some(b) => b,
            };
            proof {
                if k > 0 {
                    assert(pre.bounded_by(*store, self.swaps@[m0 + k - 1].spot_price));
                }
            }
            let price = match key_of(&self.pool_set[b].pool, side_exec) {
                Some(v) => v,
                None => 0,
            };
            if spent > u128::MAX - price {
                proof {
                    assert(self.gross_overflow());
                }
                if robust {
                    return Ok(());
                }
                return Err(ContractError::SwapError(SwapFailure::BalanceOverflow));
            }
            let leg = NftSwap {
                nft_token_id: nfts_to_swap[k].nft_token_id.clone(),
                token_amount: nfts_to_swap[k].token_amount,
            };
            proof {
                assert forall|a: int|
                    0 <= a < self.pool_set@.len() && (#[trigger] self.pool_set@[a]).needs_saving implies exists|
                        j: int,
                    |
                        m0 <= j < self.swaps@.len() && self.swaps@[j].pool_id == self.pool_set@[a].pool.id by {
                    assert(a < pre.pool_set@.len());
                    assert(self.pool_set@[a] == pre.pool_set@[a]);
                }
            }
            let ghost mid = *self;
            let ghost s = self.pool_set@;
            let mut pp = self.pool_set.remove(b);
            let ghost before = pp.pool;
            proof {
                assert(s[b as int] == pp);
            }
            let res = self.process_sell(&mut pp.pool, leg);
            match res {
                Ok(()) => {
                    pp.needs_saving = true;
                },
                Err(_) => {},
            }
            self.pool_set.insert(b, pp);
            proof {
                let s2 = self.pool_set@;
                assert(s2 =~= s.update(b as int, pp));
                assert forall|a: int|
                    0 <= a < s2.len() && (#[trigger] s2[a]).needs_saving implies exists|j: int|
                        m0 <= j < self.swaps@.len() && self.swaps@[j].pool_id == s2[a].pool.id by {
                    if a == b && res is Ok {
                        assert(self.swaps@[m0 + k] .pool_id == s2[a].pool.id);
                    } else {
                        assert(s2[a] == s[a]);
                        let j = choose|j: int| m0 <= j < mid.swaps@.len() && mid.swaps@[j].pool_id == s[a].pool.id;
                        assert(self.swaps@[j] == mid.swaps@[j]);
                    }
                }
                let v = pool_key(before, side).unwrap();
                assert forall|a: int| 0 <= a < s2.len() implies {
                    &&& (#[trigger] s2[a]).pool.wf()
                    &&& s2[a].pool.quotes_consistent()
                    &&& store.get(s2[a].pool.id) is Some
                } by {
                    if a != b {
                        assert(s2[a] == s[a]);
                    }
                }
                assert forall|a: int, c: int| 0 <= a < s2.len() && 0 <= c < s2.len() && a != c implies s2[a].pool.id != s2[c].pool.id by {
                    assert(s[a].pool.id != s[c].pool.id);
                }
                assert forall|e: PairQuote, a: int|
                    #![trigger store.index.has(e), s2[a]]
                    store.index.has(e) && self.cursor.pending(e) && 0 <= a < s2.len() implies e.pair_id != s2[a].pool.id by {
                    assert(e.pair_id != s[a].pool.id);
                }
                if res is Ok {
                    let q = before.internal.sell_to_pair_quote_summary.unwrap();
                    assert(before.sell_price() is Some);
                    assert(sold_at_quote(
                        self.swaps@[m0 + k],
                        nfts_to_swap@[k as int].nft_token_id,
                        old(self).seller_recipient,
                        old(self).contract_address,
                    ));
                    assert forall|i: int| m0 <= i < self.swaps@.len() implies sold_at_quote(
                        #[trigger] self.swaps@[i],
                        nfts_to_swap@[i - m0].nft_token_id,
                        old(self).seller_recipient,
                        old(self).contract_address,
                    ) by {
                        if i < m0 + k {
                            assert(self.swaps@[i] == mid.swaps@[i]);
                        }
                    }
                    assert(mid.set_valid(*store));
                    assert(s[b as int].pool.quotes_consistent());
                    assert(v == q.total_spec());
                    let sw = self.swaps@[m0 + k];
                    assert(sw.spot_price == v);
                    if k > 0 {
                        let last = self.swaps@[m0 + k - 1].spot_price;
                        assert(mid.pool_set@[b as int] == s[b as int]);
                        assert(mid.bounded_by(*store, last));
                        assert(pool_key(mid.pool_set@[b as int].pool, side) == Some(v));
                        assert(v <= last);
                    }
                    crate::pair::lemma_sell_price_falls_after_sale(before, pp.pool, v);
                    assert forall|a: int| 0 <= a < s2.len() implies (pool_key(
                        (#[trigger] s2[a]).pool,
                        side,
                    ) matches Some(x) ==> no_better(side, x, v)) by {
                        if a != b {
                            assert(s2[a] == s[a]);
                            assert(mid.pool_set@[a] == s[a]);
                        }
                    }
                    assert forall|e: PairQuote| #[trigger]
                        store.index.has(e) && self.cursor.pending(e) implies no_better(
                        side,
                        side_price(e, side).unwrap(),
                        v,
                    ) by {
                        assert(mid.cursor == self.cursor);
                    }
                    assert(self.bounded_by(*store, v));
                    assert(mid.pool_set@[b as int] == s[b as int]);
                    lemma_linked_trade(
                        *store,
                        old(self).ctx,
                        TransactionType::UserSubmitsNfts,
                        mid.swaps@,
                        mid.traded@,
                        s,
                        b as int,
                        pp,
                        self.swaps@[m0 + k],
                    );
                    lemma_covers_trade(*store, mid.swaps@, s, mid.cursor, b as int, pp, self.swaps@[m0 + k]);
                    lemma_sales_push(
                        mid.swaps@,
                        mid.traded@,
                        nfts_to_swap@,
                        old(self).seller_recipient,
                        old(self).contract_address,
                        self.swaps@[m0 + k],
                        before,
                    );
                    assert(self.swaps@ == mid.swaps@.push(self.swaps@[m0 + k]));
                    assert(self.swaps@.subrange(0, m0 as int) =~= old(self).swaps@) by {
                        assert(self.swaps@.subrange(0, m0 as int) =~= mid.swaps@.subrange(0, m0 as int));
                    }
                } else {
                    assert(self.swaps@ == mid.swaps@);
                    assert(s2 =~= s);
                }
            }
            match res {
                Ok(()) => {
                    proof {
                        assert(self.swaps@.drop_last() =~= mid.swaps@);
                        assert(self.swaps@.last() == self.swaps@[m0 + k]);
                        assert(before == s[b as int].pool);
                        assert(price == pool_key(before, side).unwrap());
                        assert(price == self.swaps@[m0 + k].spot_price);
                        assert(total_spent(self.swaps@) == total_spent(mid.swaps@) + price);
                    }
                    spent = spent + price;
                },
                Err(e) => {
                    proof {
                        assert(self.pool_set@[b as int].pool == before);
                        if e == ContractError::SwapError(SwapFailure::PoolCannotHoldItem) {
                            assert(before.reinvests_nfts());
                            assert(self.item_clash(nfts_to_swap@[k as int].nft_token_id@));
                        }
                    }
                    match e {
                        ContractError::SwapError(_) => {
                            if robust {
                                return Ok(());
                            }
                            return Err(e);
                        },
                        _ => return Err(e),
                    }
                },
            }
            k = k + 1;
        }
        Ok(())
    }

    /// Buys one item per entry of `max_expected_token_input`, in order, from
    /// the pool of the collection that asks least at that moment, paying at
    /// most the entry. A leg that cannot be filled ends the batch: with
    /// `robust` the legs filled so far stand, otherwise the batch fails.
    #[verifier::rlimit(50)]
    pub fn swap_tokens_for_any_nfts(
        &mut self,
        store: &PoolStore,
        max_expected_token_input: Vec<u128>,
        robust: bool,
    ) -> (r: Result<(), ContractError>)
        requires
            store.wf(),
            old(self).set_valid(*store),
            old(self).traded@.len() == old(self).swaps@.len(),
            covers(*store, old(self).swaps@, old(self).pool_set@, old(self).cursor),
            linked(
                *store,
                old(self).ctx,
                TransactionType::UserSubmitsTokens,
                old(self).swaps@,
                old(self).traded@,
                old(self).pool_set@,
            ),
            purchases_at_states(
                old(self).swaps@,
                old(self).traded@,
                old(self).seller_recipient,
                old(self).contract_address,
            ),
            old(self).changes_traced(old(self).swaps@.len() as int),
            old(self).cursor.side == TransactionType::UserSubmitsTokens,
        ensures
            final(self).same_setup(*old(self)),
            final(self).set_valid(*store),
            final(self).changes_traced(old(self).swaps@.len() as int),
            final(self).traded@.len() == final(self).swaps@.len(),
            covers(*store, final(self).swaps@, final(self).pool_set@, final(self).cursor),
            final(self).cursor.collection == old(self).cursor.collection,
            final(self).cursor.denom == old(self).cursor.denom,
            final(self).cursor.side == old(self).cursor.side,
            linked(
                *store,
                old(self).ctx,
                TransactionType::UserSubmitsTokens,
                final(self).swaps@,
                final(self).traded@,
                final(self).pool_set@,
            ),
            purchases_at_states(
                final(self).swaps@,
                final(self).traded@,
                old(self).seller_recipient,
                old(self).contract_address,
            ),
            forall|i: int|
                old(self).swaps@.len() <= i < final(self).swaps@.len() ==> bought_at_quote(
                    #[trigger] final(self).swaps@[i],
                    old(self).seller_recipient,
                    old(self).contract_address,
                ),
            r is Err ==> final(self).swaps@.len() < old(self).swaps@.len()
                + max_expected_token_input@.len() && (r matches Err(ContractError::SwapError(_)))
                && !robust && (final(self).cannot_fill(
                *store,
                max_expected_token_input@[final(self).swaps@.len() - old(self).swaps@.len()],
            ) || final(self).proceeds_overflow()),
            final(self).swaps@.len() <= old(self).swaps@.len() + max_expected_token_input@.len(),
            final(self).swaps@.subrange(0, old(self).swaps@.len() as int) == old(self).swaps@,
            forall|i: int|
                old(self).swaps@.len() <= i < final(self).swaps@.len() ==> {
                    &&& (#[trigger] final(self).swaps@[i]).transaction_type
                        == TransactionType::UserSubmitsTokens
                    &&& final(self).swaps@[i].spot_price <= max_expected_token_input@[i
                        - old(self).swaps@.len()]
                },
            forall|i: int, j: int|
                old(self).swaps@.len() <= i < j < final(self).swaps@.len() ==> (
                #[trigger] final(self).swaps@[j]).spot_price >= (
                #[trigger] final(self).swaps@[i]).spot_price,
            r matches Err(ContractError::SwapError(_)) ==> !robust,
            r is Ok && !robust ==> final(self).swaps@.len() == old(self).swaps@.len()
                + max_expected_token_input@.len(),
            r is Ok && final(self).swaps@.len() < old(self).swaps@.len()
                + max_expected_token_input@.len() ==> final(self).cannot_fill(
                *store,
                max_expected_token_input@[final(self).swaps@.len() - old(self).swaps@.len()],
            ) || final(self).proceeds_overflow(),
    {
        let ghost m0 = self.swaps@.len();
        let ghost side = TransactionType::UserSubmitsTokens;
        let n = max_expected_token_input.len();
        let mut k: usize = 0;
        while k < n
            invariant
                0 <= k <= n,
                n == max_expected_token_input@.len(),
                store.wf(),
                self.same_setup(*old(self)),
                side == TransactionType::UserSubmitsTokens,
                self.cursor.side == side,
                self.set_valid(*store),
                self.changes_traced(m0 as int),
                self.traded@.len() == self.swaps@.len(),
                covers(*store, self.swaps@, self.pool_set@, self.cursor),
                self.cursor.collection == old(self).cursor.collection,
                self.cursor.denom == old(self).cursor.denom,
                self.cursor.side == old(self).cursor.side,
                linked(
                    *store,
                    old(self).ctx,
                    TransactionType::UserSubmitsTokens,
                    self.swaps@,
                    self.traded@,
                    self.pool_set@,
                ),
                purchases_at_states(
                    self.swaps@,
                    self.traded@,
                    old(self).seller_recipient,
                    old(self).contract_address,
                ),
                forall|i: int|
                    m0 <= i < self.swaps@.len() ==> bought_at_quote(
                        #[trigger] self.swaps@[i],
                        old(self).seller_recipient,
                        old(self).contract_address,
                    ),
                self.swaps@.len() == m0 + k,
                m0 == old(self).swaps@.len(),
                self.swaps@.subrange(0, m0 as int) == old(self).swaps@,
                forall|i: int|
                    m0 <= i < self.swaps@.len() ==> {
                        &&& (#[trigger] self.swaps@[i]).transaction_type
                            == TransactionType::UserSubmitsTokens
                        &&& self.swaps@[i].spot_price <= max_expected_token_input@[i - m0]
                    },
                forall|i: int, j: int|
                    m0 <= i < j < self.swaps@.len() ==> (#[trigger] self.swaps@[j]).spot_price
                        >= (#[trigger] self.swaps@[i]).spot_price,
                k > 0 ==> self.bounded_by(*store, self.swaps@[m0 + k - 1].spot_price),
            decreases n - k,
        {
            let ghost pre = *self;
            let loaded = self.load_next_pool(store);
            proof {
                lemma_linked_load(
                    *store,
                    old(self).ctx,
                    TransactionType::UserSubmitsTokens,
                    self.swaps@,
                    self.traded@,
                    pre.pool_set@,
                    self.pool_set@,
                );
                lemma_covers_load(*store, self.swaps@, pre.pool_set@, pre.cursor, self.pool_set@, self.cursor);
            }
            let b = match loaded {
                None => {
                    if robust {
                        return Ok(());
                    } else {
                        return Err(ContractError::SwapError(SwapFailure::NoQuote));
                    }
                },
                Some(b) => b,
            };
            proof {
                if k > 0 {
                    assert(pre.bounded_by(*store, self.swaps@[m0 + k - 1].spot_price));
                }
            }
            proof {
                assert forall|a: int|
                    0 <= a < self.pool_set@.len() && (#[trigger] self.pool_set@[a]).needs_saving implies exists|
                        j: int,
                    |
                        m0 <= j < self.swaps@.len() && self.swaps@[j].pool_id == self.pool_set@[a].pool.id by {
                    assert(a < pre.pool_set@.len());
                    assert(self.pool_set@[a] == pre.pool_set@[a]);
                }
            }
            let ghost mid = *self;
            proof {
                let p = self.pool_set@[b as int].pool;
                assert(self.set_valid(*store));
                assert(p.quotes_consistent());
                assert(p.total_nfts() > 0);
            }
            let leg = NftSwap {
                nft_token_id: self.pool_set[b].pool.internal.nft_token_ids[0].clone(),
                token_amount: max_expected_token_input[k],
            };
            let ghost s = self.pool_set@;
            let mut pp = self.pool_set.remove(b);
            let ghost before = pp.pool;
            proof {
                assert(s[b as int] == pp);
            }
            let res = self.process_buy(&mut pp.pool, leg);
            match res {
                Ok(()) => {
                    pp.needs_saving = true;
                },
                Err(_) => {},
            }
            self.pool_set.insert(b, pp);
            proof {
                let s2 = self.pool_set@;
                assert(s2 =~= s.update(b as int, pp));
                assert forall|a: int|
                    0 <= a < s2.len() && (#[trigger] s2[a]).needs_saving implies exists|j: int|
                        m0 <= j < self.swaps@.len() && self.swaps@[j].pool_id == s2[a].pool.id by {
                    if a == b && res is Ok {
                        assert(self.swaps@[m0 + k] .pool_id == s2[a].pool.id);
                    } else {
                        assert(s2[a] == s[a]);
                        let j = choose|j: int| m0 <= j < mid.swaps@.len() && mid.swaps@[j].pool_id == s[a].pool.id;
                        assert(self.swaps@[j] == mid.swaps@[j]);
                    }
                }
                let v = pool_key(before, side).unwrap();
                assert forall|a: int| 0 <= a < s2.len() implies {
                    &&& (#[trigger] s2[a]).pool.wf()
                    &&& s2[a].pool.quotes_consistent()
                    &&& store.get(s2[a].pool.id) is Some
                } by {
                    if a != b {
                        assert(s2[a] == s[a]);
                    }
                }
                assert forall|a: int, c: int| 0 <= a < s2.len() && 0 <= c < s2.len() && a != c implies s2[a].pool.id != s2[c].pool.id by {
                    assert(s[a].pool.id != s[c].pool.id);
                }
                assert forall|e: PairQuote, a: int|
                    #![trigger store.index.has(e), s2[a]]
                    store.index.has(e) && self.cursor.pending(e) && 0 <= a < s2.len() implies e.pair_id != s2[a].pool.id by {
                    assert(e.pair_id != s[a].pool.id);
                }
                if res is Ok {
                    let q = before.internal.buy_from_pair_quote_summary.unwrap();
                    assert(before.buy_price() is Some);
                    assert(before.inventory()[0] == leg.nft_token_id@);
                    assert(before.inventory().contains(leg.nft_token_id@));
                    assert(bought_at_quote(
                        self.swaps@[m0 + k],
                        old(self).seller_recipient,
                        old(self).contract_address,
                    ));
                    assert forall|i: int| m0 <= i < self.swaps@.len() implies bought_at_quote(
                        #[trigger] self.swaps@[i],
                        old(self).seller_recipient,
                        old(self).contract_address,
                    ) by {
                        if i < m0 + k {
                            assert(self.swaps@[i] == mid.swaps@[i]);
                        }
                    }
                    assert(v == q.total_spec());
                    let sw = self.swaps@[m0 + k];
                    assert(sw.spot_price == v);
                    if k > 0 {
                        let last = self.swaps@[m0 + k - 1].spot_price;
                        assert(mid.pool_set@[b as int] == s[b as int]);
                        assert(mid.bounded_by(*store, last));
                        assert(pool_key(mid.pool_set@[b as int].pool, side) == Some(v));
                        assert(v >= last);
                    }
                    assert(before.inventory()[0] == leg.nft_token_id@);
                    crate::pair::lemma_buy_price_rises_after_purchase(before, pp.pool, v);
                    assert forall|a: int| 0 <= a < s2.len() implies (pool_key(
                        (#[trigger] s2[a]).pool,
                        side,
                    ) matches Some(x) ==> no_better(side, x, v)) by {
                        if a != b {
                            assert(s2[a] == s[a]);
                            assert(mid.pool_set@[a] == s[a]);
                        }
                    }
                    assert forall|e: PairQuote| #[trigger]
                        store.index.has(e) && self.cursor.pending(e) implies no_better(
                        side,
                        side_price(e, side).unwrap(),
                        v,
                    ) by {
                        assert(mid.cursor == self.cursor);
                    }
                    assert(self.bounded_by(*store, v));
                    assert(mid.pool_set@[b as int] == s[b as int]);
                    lemma_linked_trade(
                        *store,
                        old(self).ctx,
                        TransactionType::UserSubmitsTokens,
                        mid.swaps@,
                        mid.traded@,
                        s,
                        b as int,
                        pp,
                        self.swaps@[m0 + k],
                    );
                    lemma_covers_trade(*store, mid.swaps@, s, mid.cursor, b as int, pp, self.swaps@[m0 + k]);
                    lemma_purchases_push(
                        mid.swaps@,
                        mid.traded@,
                        old(self).seller_recipient,
                        old(self).contract_address,
                        self.swaps@[m0 + k],
                        before,
                    );
                    assert(self.swaps@ == mid.swaps@.push(self.swaps@[m0 + k]));
                    assert(self.swaps@.subrange(0, m0 as int) =~= old(self).swaps@) by {
                        assert(self.swaps@.subrange(0, m0 as int) =~= mid.swaps@.subrange(0, m0 as int));
                    }
                } else {
                    assert(self.swaps@ == mid.swaps@);
                    assert(s2 =~= s);
                }
            }
            match res {
                Ok(()) => {},
                Err(e) => {
                    proof {
                        let s2 = self.pool_set@;
                        assert(s2[b as int].pool == before);
                        assert(before.inventory()[0] == leg.nft_token_id@);
                        assert(before.inventory().contains(leg.nft_token_id@));
                        assert(mid.is_best(*store, b as int));
                        if before.reinvests_tokens() && (before.internal.buy_from_pair_quote_summary matches Some(q)
                            && before.total_tokens + q.seller_amount > u128::MAX) {
                            assert(self.proceeds_overflow());
                        } else if self.block_time <= self.deadline {
                            let v = pool_key(before, side).unwrap();
                            assert forall|a: int| 0 <= a < s2.len() implies (pool_key(
                                (#[trigger] s2[a]).pool,
                                side,
                            ) matches Some(x) ==> worse(side, x, leg.token_amount)) by {
                                if a != b {
                                    assert(s2[a] == s[a]);
                                    assert(mid.pool_set@[a] == s[a]);
                                }
                            }
                        }
                    }
                    match e {
                        ContractError::SwapError(_) => {
                            if robust {
                                return Ok(());
                            }
                            return Err(e);
                        },
                        _ => return Err(e),
                    }
                },
            }
            k = k + 1;
        }
        Ok(())
    }

    /// Adds `pool`, changed by the batch, to the empty working set.
    fn keep_pool(&mut self, store: &PoolStore, pool: Pair, needs_saving: bool)
        requires
            old(self).pool_set@.len() == 0,
            pool.wf(),
            pool.quotes_consistent(),
            store.get(pool.id) is Some,
        ensures
            final(self).same_setup(*old(self)),
            final(self).swaps == old(self).swaps,
            final(self).cursor == old(self).cursor,
            final(self).traded == old(self).traded,
            final(self).set_sound(*store),
            final(self).pool_set@ == seq![PoolPair { needs_saving, pool }],
    {
        self.pool_set.push(PoolPair { needs_saving, pool });
        proof {
            assert(self.pool_set@ =~= seq![PoolPair { needs_saving, pool }]);
        }
    }

    /// Sells each item of `nfts_to_swap`, in order, to pool `pool_id`. A leg
    /// that cannot be filled ends the batch: with `robust` the legs filled
    /// so far stand, otherwise the batch fails.
    pub fn direct_swap_nfts_for_tokens(
        &mut self,
        store: &PoolStore,
        pool_id: u64,
        nfts_to_swap: Vec<NftSwap>,
        robust: bool,
    ) -> (r: Result<(), ContractError>)
        requires
            store.wf(),
            old(self).pool_set@.len() == 0,
            old(self).swaps@.len() == 0,
            old(self).traded@.len() == 0,
            linked(
                *store,
                old(self).ctx,
                TransactionType::UserSubmitsNfts,
                old(self).swaps@,
                old(self).traded@,
                old(self).pool_set@,
            ),
            sales_at_states(
                old(self).swaps@,
                old(self).traded@,
                nfts_to_swap@,
                old(self).seller_recipient,
                old(self).contract_address,
            ),
            old(self).cursor.side == TransactionType::UserSubmitsNfts,
        ensures
            final(self).same_setup(*old(self)),
            final(self).set_sound(*store),
            final(self).changes_traced(old(self).swaps@.len() as int),
            store.get(pool_id) is None <==> r == Err::<(), ContractError>(ContractError::InvalidPool),
            store.get(pool_id) is Some ==> (r matches Err(e) ==> final(self).swaps@.len()
                < old(self).swaps@.len() + nfts_to_swap@.len() && final(self).pool_set@.len() == 1
                && (sell_failure(
                final(self).pool_set@[0].pool,
                nfts_to_swap@[final(self).swaps@.len() - old(self).swaps@.len()],
                final(self).block_time,
                final(self).deadline,
            ) == Some(e) || (e == ContractError::SwapError(SwapFailure::BalanceOverflow)
                && final(self).gross_overflow()))),
            total_spent(final(self).swaps@) <= u128::MAX,
            final(self).traded@.len() == final(self).swaps@.len(),
            r is Ok ==> final(self).pool_set@.len() == 1 && final(self).pool_set@[0].pool.id == pool_id
                && final(self).pool_set@[0].needs_saving == (final(self).swaps@.len() > 0),
            linked(
                *store,
                old(self).ctx,
                TransactionType::UserSubmitsNfts,
                final(self).swaps@,
                final(self).traded@,
                final(self).pool_set@,
            ),
            sales_at_states(
                final(self).swaps@,
                final(self).traded@,
                nfts_to_swap@,
                old(self).seller_recipient,
                old(self).contract_address,
            ),
            forall|i: int|
                old(self).swaps@.len() <= i < final(self).swaps@.len() ==> sold_at_quote(
                    #[trigger] final(self).swaps@[i],
                    nfts_to_swap@[i - old(self).swaps@.len()].nft_token_id,
                    old(self).seller_recipient,
                    old(self).contract_address,
                ),
            final(self).swaps@.len() <= old(self).swaps@.len() + nfts_to_swap@.len(),
            final(self).swaps@.subrange(0, old(self).swaps@.len() as int) == old(self).swaps@,
            forall|i: int|
                old(self).swaps@.len() <= i < final(self).swaps@.len() ==> {
                    let leg = nfts_to_swap@[i - old(self).swaps@.len()];
                    &&& (#[trigger] final(self).swaps@[i]).transaction_type
                        == TransactionType::UserSubmitsNfts
                    &&& final(self).swaps@[i].pool_id == pool_id
                    &&& final(self).swaps@[i].nft_payment.nft_token_id == leg.nft_token_id
                    &&& final(self).swaps@[i].spot_price >= leg.token_amount
                },
            forall|i: int, j: int|
                old(self).swaps@.len() <= i < j < final(self).swaps@.len() ==> (
                #[trigger] final(self).swaps@[j]).spot_price <= (
                #[trigger] final(self).swaps@[i]).spot_price,
            r matches Err(ContractError::SwapError(_)) ==> !robust,
            r is Ok && !robust ==> final(self).swaps@.len() == old(self).swaps@.len()
                + nfts_to_swap@.len(),
            r is Ok && final(self).swaps@.len() < old(self).swaps@.len() + nfts_to_swap@.len()
                ==> final(self).pool_set@.len() == 1 && (sell_failure(
                final(self).pool_set@[0].pool,
                nfts_to_swap@[final(self).swaps@.len() - old(self).swaps@.len()],
                final(self).block_time,
                final(self).deadline,
            ) is Some || final(self).gross_overflow()),
    {
        let mut pool = match store.fetch(pool_id) {
            Some(p) => p,
            None => return Err(ContractError::InvalidPool),
        };
        proof {
            lemma_same_as_agrees(pool, store.get(pool_id).unwrap());
        }
        proof {
            assert(old(self).pool_set@ =~= Seq::<PoolPair>::empty());
            let set2 = seq![PoolPair { needs_saving: false, pool }];
            assert(forall|a: int| 0 <= a < 0 ==> #[trigger] set2[a] == Seq::<PoolPair>::empty()[a]);
            lemma_linked_load(*store, old(self).ctx, TransactionType::UserSubmitsNfts, self.swaps@, self.traded@, Seq::empty(), set2);
            assert(seq![PoolPair { needs_saving: self.swaps@.len() > 0, pool }] == set2);
        }
        let ghost m0 = self.swaps@.len();
        let start = self.swaps.len();
        let mut spent: u128 = 0;
        let ghost side = TransactionType::UserSubmitsNfts;
        let n = nfts_to_swap.len();
        let mut k: usize = 0;
        while k < n
            invariant
                0 <= k <= n,
                n == nfts_to_swap@.len(),
                store.wf(),
                side == TransactionType::UserSubmitsNfts,
                self.same_setup(*old(self)),
                self.pool_set@.len() == 0,
                pool.wf(),
                pool.quotes_consistent(),
                pool.id == pool_id,
                store.get(pool.id) is Some,
                self.swaps@.len() == m0 + k,
                m0 == old(self).swaps@.len(),
                start == m0,
                m0 == 0,
                self.cursor.side == TransactionType::UserSubmitsNfts,
                spent == total_spent(self.swaps@),
                self.traded@.len() == self.swaps@.len(),
                linked(
                    *store,
                    old(self).ctx,
                    TransactionType::UserSubmitsNfts,
                    self.swaps@,
                    self.traded@,
                    seq![PoolPair { needs_saving: self.swaps@.len() > 0, pool }],
                ),
                sales_at_states(
                    self.swaps@,
                    self.traded@,
                    nfts_to_swap@,
                    old(self).seller_recipient,
                    old(self).contract_address,
                ),
                forall|i: int|
                    m0 <= i < self.swaps@.len() ==> sold_at_quote(
                        #[trigger] self.swaps@[i],
                        nfts_to_swap@[i - m0].nft_token_id,
                        old(self).seller_recipient,
                        old(self).contract_address,
                    ),
                self.swaps@.subrange(0, m0 as int) == old(self).swaps@,
                forall|i: int|
                    m0 <= i < self.swaps@.len() ==> {
                        let leg = nfts_to_swap@[i - m0];
                        &&& (#[trigger] self.swaps@[i]).transaction_type
                            == TransactionType::UserSubmitsNfts
                        &&& self.swaps@[i].pool_id == pool_id
                        &&& self.swaps@[i].nft_payment.nft_token_id == leg.nft_token_id
                        &&& self.swaps@[i].spot_price >= leg.token_amount
                    },
                forall|i: int, j: int|
                    m0 <= i < j < self.swaps@.len() ==> (#[trigger] self.swaps@[j]).spot_price
                        <= (#[trigger] self.swaps@[i]).spot_price,
                k > 0 ==> (pool_key(pool, side) matches Some(v) ==> v
                    <= self.swaps@[m0 + k - 1].spot_price),
            decreases n - k,
        {
            let leg = NftSwap {
                nft_token_id: nfts_to_swap[k].nft_token_id.clone(),
                token_amount: nfts_to_swap[k].token_amount,
            };
            let key_now = key_of(&pool, TransactionType::UserSubmitsNfts);
            if let Some(price) = key_now {
                if spent > u128::MAX - price {
                    self.keep_pool(store, pool, self.swaps.len() > start);
                    proof {
                        if self.swaps@.len() > m0 {
                            assert(self.swaps@[m0 as int].pool_id == pool_id);
                        }
                        assert(self.pool_set@[0].pool == pool);
                        assert(pool_key(self.pool_set@[0].pool, self.cursor.side) == Some(price));
                        assert(total_spent(self.swaps@) + price > u128::MAX);
                        assert(self.gross_overflow());
                    }
                    if robust {
                        return Ok(());
                    }
                    return Err(ContractError::SwapError(SwapFailure::BalanceOverflow));
                }
            }
            let ghost mid = *self;
            let ghost before = pool;
            let res = self.process_sell(&mut pool, leg);
            match res {
                Ok(()) => {
                    proof {
                        let q = before.internal.sell_to_pair_quote_summary.unwrap();
                        let v = pool_key(before, side).unwrap();
                        assert(v == q.total_spec());
                        crate::pair::lemma_sell_price_falls_after_sale(before, pool, v);
                        assert(before.sell_price() is Some);
                        assert(self.swaps@.drop_last() =~= mid.swaps@);
                        assert(self.swaps@.last() == self.swaps@[m0 + k]);
                        assert(total_spent(self.swaps@) == total_spent(mid.swaps@) + v);
                        assert(sold_at_quote(
                            self.swaps@[m0 + k],
                            nfts_to_swap@[k as int].nft_token_id,
                            old(self).seller_recipient,
                            old(self).contract_address,
                        ));
                        assert forall|i: int| m0 <= i < self.swaps@.len() implies sold_at_quote(
                            #[trigger] self.swaps@[i],
                            nfts_to_swap@[i - m0].nft_token_id,
                            old(self).seller_recipient,
                            old(self).contract_address,
                        ) by {
                            if i < m0 + k {
                                assert(self.swaps@[i] == mid.swaps@[i]);
                            }
                        }
                        assert(self.swaps@.subrange(0, m0 as int) =~= mid.swaps@.subrange(
                            0,
                            m0 as int,
                        ));
                        assert(key_now == Some(v));
                        let set0 = seq![PoolPair { needs_saving: mid.swaps@.len() > 0, pool: before }];
                        lemma_linked_trade(
                            *store,
                            old(self).ctx,
                            TransactionType::UserSubmitsNfts,
                            mid.swaps@,
                            mid.traded@,
                            set0,
                            0,
                            PoolPair { needs_saving: true, pool },
                            self.swaps@[m0 + k],
                        );
                        assert(set0.update(0, PoolPair { needs_saving: true, pool }) =~= seq![PoolPair { needs_saving: self.swaps@.len() > 0, pool }]);
                        lemma_sales_push(
                            mid.swaps@,
                            mid.traded@,
                            nfts_to_swap@,
                            old(self).seller_recipient,
                            old(self).contract_address,
                            self.swaps@[m0 + k],
                            before,
                        );
                    }
                    if let Some(price) = key_now {
                        spent = spent + price;
                    }
                },
                Err(e) => {
                    self.keep_pool(store, pool, self.swaps.len() > start);
                    proof {
                        if self.swaps@.len() > m0 {
                            assert(self.swaps@[m0 as int].pool_id == pool_id);
                        }
                        assert(self.pool_set@[0].pool == before);
                        assert(leg == nfts_to_swap@[k as int]);
                    }
                    match e {
                        ContractError::SwapError(_) => {
                            if robust {
                                return Ok(());
                            }
                            return Err(e);
                        },
                        _ => return Err(e),
                    }
                },
            }
            k = k + 1;
        }
        self.keep_pool(store, pool, self.swaps.len() > start);
        proof {
            if self.swaps@.len() > m0 {
                assert(self.swaps@[m0 as int].pool_id == pool_id);
            }
        }
        Ok(())
    }

    /// The position of pool `id` in the working set, if it is there.
    fn find_in_set(&self, id: u64) -> (r: Option<usize>)
        ensures
            r matches Some(b) ==> b < self.pool_set@.len() && self.pool_set@[b as int].pool.id == id,
            r is None ==> forall|a: int| 0 <= a < self.pool_set@.len() ==> (#[trigger] self.pool_set@[a]).pool.id != id,
    {
        let mut j: usize = 0;
        while j < self.pool_set.len()
            invariant
                0 <= j <= self.pool_set@.len(),
                forall|a: int| 0 <= a < j ==> (#[trigger] self.pool_set@[a]).pool.id != id,
            decreases self.pool_set@.len() - j,
        {
            if self.pool_set[j].pool.id == id {
                return Some(j);
            }
            j = j + 1;
        }
        None
    }

    /// Buys each leg of `nfts_to_swap_for`, in order, from the pool it names.
    /// A leg that cannot be filled ends the batch: with `robust` the legs
    /// filled so far stand, otherwise the batch fails. A pool that does not
    /// exist, or belongs to another collection or denomination, fails the
    /// batch.
    pub fn swap_tokens_for_specific_nfts(
        &mut self,
        store: &PoolStore,
        nfts_to_swap_for: Vec<PoolNftSwap>,
        robust: bool,
    ) -> (r: Result<(), ContractError>)
        requires
            store.wf(),
            old(self).set_sound(*store),
            old(self).traded@.len() == old(self).swaps@.len(),
            linked(
                *store,
                old(self).ctx,
                TransactionType::UserSubmitsTokens,
                old(self).swaps@,
                old(self).traded@,
                old(self).pool_set@,
            ),
            purchases_at_states(
                old(self).swaps@,
                old(self).traded@,
                old(self).seller_recipient,
                old(self).contract_address,
            ),
            old(self).changes_traced(old(self).swaps@.len() as int),
        ensures
            final(self).same_setup(*old(self)),
            final(self).set_sound(*store),
            final(self).changes_traced(old(self).swaps@.len() as int),
            final(self).traded@.len() == final(self).swaps@.len(),
            linked(
                *store,
                old(self).ctx,
                TransactionType::UserSubmitsTokens,
                final(self).swaps@,
                final(self).traded@,
                final(self).pool_set@,
            ),
            purchases_at_states(
                final(self).swaps@,
                final(self).traded@,
                old(self).seller_recipient,
                old(self).contract_address,
            ),
            final(self).swaps@.len() <= old(self).swaps@.len() + flatten_legs(nfts_to_swap_for@).len(),
            final(self).swaps@.subrange(0, old(self).swaps@.len() as int) == old(self).swaps@,
            forall|i: int|
                old(self).swaps@.len() <= i < final(self).swaps@.len() ==> {
                    let leg = flatten_legs(nfts_to_swap_for@)[i - old(self).swaps@.len()];
                    &&& (#[trigger] final(self).swaps@[i]).transaction_type
                        == TransactionType::UserSubmitsTokens
                    &&& final(self).swaps@[i].pool_id == leg.0
                    &&& final(self).swaps@[i].nft_payment.nft_token_id == leg.1.nft_token_id
                    &&& final(self).swaps@[i].spot_price <= leg.1.token_amount
                },
            r matches Err(ContractError::SwapError(_)) ==> !robust,
            r matches Err(e) ==> final(self).swaps@.len() < old(self).swaps@.len() + flatten_legs(
                nfts_to_swap_for@,
            ).len() && {
                let leg = flatten_legs(nfts_to_swap_for@)[final(self).swaps@.len()
                    - old(self).swaps@.len()];
                ||| e == ContractError::InvalidPool && store.get(leg.0) is None
                ||| e == ContractError::InvalidInput && (store.get(leg.0) matches Some(p) && (
                p.immutable.collection@ != old(self).collection@ || p.immutable.denom@ != old(
                    self,
                ).denom@))
                ||| (e matches ContractError::SwapError(_)) && exists|a: int|
                    0 <= a < final(self).pool_set@.len() && (#[trigger] final(self).pool_set@[a]).pool.id
                        == leg.0 && buy_failure(
                        final(self).pool_set@[a].pool,
                        leg.1,
                        final(self).block_time,
                        final(self).deadline,
                    ) == Some(e)
            },
            forall|i: int|
                old(self).swaps@.len() <= i < final(self).swaps@.len() ==> bought_at_quote(
                    #[trigger] final(self).swaps@[i],
                    old(self).seller_recipient,
                    old(self).contract_address,
                ),
            r is Ok && !robust ==> final(self).swaps@.len() == old(self).swaps@.len()
                + flatten_legs(nfts_to_swap_for@).len(),
            r is Ok && final(self).swaps@.len() < old(self).swaps@.len() + flatten_legs(
                nfts_to_swap_for@,
            ).len() ==> {
                let leg = flatten_legs(nfts_to_swap_for@)[final(self).swaps@.len()
                    - old(self).swaps@.len()];
                exists|a: int|
                    0 <= a < final(self).pool_set@.len() && (#[trigger] final(self).pool_set@[a]).pool.id
                        == leg.0 && buy_failure(
                        final(self).pool_set@[a].pool,
                        leg.1,
                        final(self).block_time,
                        final(self).deadline,
                    ) is Some
            },
    {
        let legs = flatten(&nfts_to_swap_for);
        let ghost m0 = self.swaps@.len();
        let n = legs.len();
        let mut k: usize = 0;
        while k < n
            invariant
                0 <= k <= n,
                n == legs@.len(),
                legs@ == flatten_legs(nfts_to_swap_for@),
                store.wf(),
                self.same_setup(*old(self)),
                self.set_sound(*store),
                self.changes_traced(m0 as int),
                self.traded@.len() == self.swaps@.len(),
                linked(
                    *store,
                    old(self).ctx,
                    TransactionType::UserSubmitsTokens,
                    self.swaps@,
                    self.traded@,
                    self.pool_set@,
                ),
                purchases_at_states(
                    self.swaps@,
                    self.traded@,
                    old(self).seller_recipient,
                    old(self).contract_address,
                ),
                forall|i: int|
                    m0 <= i < self.swaps@.len() ==> bought_at_quote(
                        #[trigger] self.swaps@[i],
                        old(self).seller_recipient,
                        old(self).contract_address,
                    ),
                self.swaps@.len() == m0 + k,
                m0 == old(self).swaps@.len(),
                self.swaps@.subrange(0, m0 as int) == old(self).swaps@,
                forall|i: int|
                    m0 <= i < self.swaps@.len() ==> {
                        let leg = legs@[i - m0];
                        &&& (#[trigger] self.swaps@[i]).transaction_type
                            == TransactionType::UserSubmitsTokens
                        &&& self.swaps@[i].pool_id == leg.0
                        &&& self.swaps@[i].nft_payment.nft_token_id == leg.1.nft_token_id
                        &&& self.swaps@[i].spot_price <= leg.1.token_amount
                    },
            decreases n - k,
        {
            let pool_id = legs[k].0;
            let leg = NftSwap {
                nft_token_id: legs[k].1.nft_token_id.clone(),
                token_amount: legs[k].1.token_amount,
            };
            let b = match self.find_in_set(pool_id) {
                Some(b) => b,
                None => {
                    let pool = match store.fetch(pool_id) {
                        Some(p) => p,
                        None => {
                            proof {
                                assert(legs@[k as int].0 == pool_id);
                            }
                            return Err(ContractError::InvalidPool);
                        },
                    };
                    if pool.immutable.collection != self.collection || pool.immutable.denom
                        != self.denom {
                        proof {
                            assert(legs@[k as int].0 == pool_id);
                        }
                        return Err(ContractError::InvalidInput);
                    }
                    proof {
                        lemma_same_as_agrees(pool, store.get(pool_id).unwrap());
                                }
                    let ghost s0 = self.pool_set@;
                    self.pool_set.push(PoolPair { needs_saving: false, pool });
                    proof {
                        let s = self.pool_set@;
                        assert forall|a: int| 0 <= a < s.len() implies {
                            &&& (#[trigger] s[a]).pool.wf()
                            &&& s[a].pool.quotes_consistent()
                            &&& store.get(s[a].pool.id) is Some
                        } by {
                            if a < s0.len() {
                                assert(s[a] == s0[a]);
                            }
                        }
                        assert forall|a: int, c: int|
                            0 <= a < s.len() && 0 <= c < s.len() && a != c implies s[a].pool.id
                            != s[c].pool.id by {
                            if a < s0.len() {
                                assert(s[a] == s0[a]);
                            }
                            if c < s0.len() {
                                assert(s[c] == s0[c]);
                            }
                        }
                        assert forall|a: int|
                            0 <= a < s.len() && (#[trigger] s[a]).needs_saving implies exists|j: int|
                                m0 <= j < self.swaps@.len() && self.swaps@[j].pool_id == s[a].pool.id by {
                            assert(a < s0.len());
                            assert(s[a] == s0[a]);
                        }
                        assert forall|a: int| 0 <= a < s0.len() implies #[trigger] s[a] == s0[a] by {}
                        lemma_linked_load(*store, old(self).ctx, TransactionType::UserSubmitsTokens, self.swaps@, self.traded@, s0, s);
                    }
                    self.pool_set.len() - 1
                },
            };
            let ghost mid = *self;
            let ghost s = self.pool_set@;
            let mut pp = self.pool_set.remove(b);
            proof {
                assert(s[b as int] == pp);
                assert(pp.pool.wf() && pp.pool.quotes_consistent());
            }
            let res = self.process_buy(&mut pp.pool, leg);
            if res.is_ok() {
                pp.needs_saving = true;
            }
            self.pool_set.insert(b, pp);
            proof {
                let s2 = self.pool_set@;
                assert(s2 =~= s.update(b as int, pp));
                assert forall|a: int|
                    0 <= a < s2.len() && (#[trigger] s2[a]).needs_saving implies exists|j: int|
                        m0 <= j < self.swaps@.len() && self.swaps@[j].pool_id == s2[a].pool.id by {
                    if a == b && res is Ok {
                        assert(self.swaps@[m0 + k].pool_id == s2[a].pool.id);
                    } else {
                        assert(s2[a] == s[a]);
                        let j = choose|j: int| m0 <= j < mid.swaps@.len() && mid.swaps@[j].pool_id == s[a].pool.id;
                        assert(self.swaps@[j] == mid.swaps@[j]);
                    }
                }
                assert forall|a: int| 0 <= a < s2.len() implies {
                    &&& (#[trigger] s2[a]).pool.wf()
                    &&& s2[a].pool.quotes_consistent()
                    &&& store.get(s2[a].pool.id) is Some
                } by {
                    if a != b {
                        assert(s2[a] == s[a]);
                    }
                }
                assert forall|a: int, c: int|
                    0 <= a < s2.len() && 0 <= c < s2.len() && a != c implies s2[a].pool.id
                    != s2[c].pool.id by {
                    assert(s[a].pool.id != s[c].pool.id);
                }
                if res is Ok {
                    assert(self.swaps@.subrange(0, m0 as int) =~= mid.swaps@.subrange(0, m0 as int));
                    let before = s[b as int].pool;
                    assert(before.buy_price() is Some);
                    assert(mid.pool_set@[b as int] == s[b as int]);
                    lemma_linked_trade(
                        *store,
                        old(self).ctx,
                        TransactionType::UserSubmitsTokens,
                        mid.swaps@,
                        mid.traded@,
                        s,
                        b as int,
                        pp,
                        self.swaps@[m0 + k],
                    );
                    lemma_purchases_push(
                        mid.swaps@,
                        mid.traded@,
                        old(self).seller_recipient,
                        old(self).contract_address,
                        self.swaps@[m0 + k],
                        before,
                    );
                    assert(self.swaps@ == mid.swaps@.push(self.swaps@[m0 + k]));
                    assert(bought_at_quote(
                        self.swaps@[m0 + k],
                        old(self).seller_recipient,
                        old(self).contract_address,
                    ));
                    assert forall|i: int| m0 <= i < self.swaps@.len() implies bought_at_quote(
                        #[trigger] self.swaps@[i],
                        old(self).seller_recipient,
                        old(self).contract_address,
                    ) by {
                        if i < m0 + k {
                            assert(self.swaps@[i] == mid.swaps@[i]);
                        }
                    }
                } else {
                    assert(self.swaps@ == mid.swaps@);
                    assert(s2 =~= s);
                }
            }
            match res {
                Ok(()) => {},
                Err(e) => {
                    proof {
                        assert(self.pool_set@[b as int] == pp);
                        assert(leg == legs@[k as int].1);
                        assert(pp.pool == s[b as int].pool);
                        assert(legs@[k as int].0 == pool_id);
                    }
                    match e {
                        ContractError::SwapError(_) => {
                            if robust {
                                return Ok(());
                            }
                            return Err(e);
                        },
                        _ => return Err(e),
                    }
                },
            }
            k = k + 1;
        }
        Ok(())
    }
}

} // verus!
