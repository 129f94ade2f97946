use vstd::prelude::*;

use crate::error::ContractError;

verus! {

/// Denominator of all percentages in the library: 10_000 basis points make 100%.
pub const BPS_DENOMINATOR: u128 = 10_000;

/// The direction of one trade, seen from the counterparty of a pool.
#[derive(Debug, Clone, Copy, PartialEq, Eq, Structural)]
pub enum TransactionType {
    /// The counterparty sells an item into the pool.
    UserSubmitsNfts,
    /// The counterparty buys an item out of the pool.
    UserSubmitsTokens,
}

/// The pricing rule of a pool. The variant is fixed when the pool is created.
#[derive(Debug, Clone, Copy, PartialEq, Eq, Structural)]
pub enum BondingCurve {
    /// The spot price moves by `delta` tokens per trade.
    Linear { spot_price: u128, delta: u128 },
    /// The spot price scales by `1 + delta / 10_000` per trade.
    Exponential { spot_price: u128, delta: u128 },
    /// Prices follow from the reserves, keeping `tokens * items` about constant.
    ConstantProduct,
}

/// Linear price after an item is sold into the pool.
pub open spec fn linear_submits_nft(spot: u128, delta: u128) -> Option<u128> {
    if delta <= spot {
        Some((spot - delta) as u128)
    } else {
        None
    }
}

/// Linear price after an item is bought from the pool.
pub open spec fn linear_submits_tokens(spot: u128, delta: u128) -> Option<u128> {
    if spot + delta <= u128::MAX {
        Some((spot + delta) as u128)
    } else {
        None
    }
}

/// Exponential price after an item is sold into the pool:
/// `spot * 10_000 / (10_000 + delta)`, rounded down. A price that rounds
/// to zero, or an intermediate product beyond 128 bits, is invalid.
pub open spec fn exponential_submits_nft(spot: u128, delta: u128) -> Option<u128> {
    let factor = BPS_DENOMINATOR as int + delta as int;
    let scaled = spot as int * BPS_DENOMINATOR as int;
    if factor > u128::MAX || scaled > u128::MAX || scaled / factor == 0 {
        None
    } else {
        Some((scaled / factor) as u128)
    }
}

/// Exponential price after an item is bought from the pool:
/// `spot * (10_000 + delta) / 10_000`, rounded up. A zero price, or an
/// intermediate product beyond 128 bits, is invalid.
pub open spec fn exponential_submits_tokens(spot: u128, delta: u128) -> Option<u128> {
    let factor = BPS_DENOMINATOR as int + delta as int;
    let scaled = spot as int * factor;
    let price = (scaled + BPS_DENOMINATOR as int - 1) / BPS_DENOMINATOR as int;
    if factor > u128::MAX || scaled > u128::MAX || price == 0 {
        None
    } else {
        Some(price as u128)
    }
}

/// Constant-product price paid for one item sold into the pool:
/// `tokens / (items + 1)`, rounded down. Undefined on an empty reserve.
pub open spec fn cp_sell_to_pair_price(total_tokens: u128, total_nfts: u64) -> Option<u128> {
    if total_nfts == 0 || total_tokens == 0 {
        None
    } else {
        Some((total_tokens as int / (total_nfts as int + 1)) as u128)
    }
}

/// Constant-product price asked for one item bought from the pool:
/// `tokens / (items - 1)`, rounded up. Undefined when fewer than two items
/// or no tokens are held.
pub open spec fn cp_buy_from_pair_price(total_tokens: u128, total_nfts: u64) -> Option<u128> {
    if total_nfts < 2 || total_tokens == 0 {
        None
    } else {
        Some(((total_tokens as int + total_nfts as int - 2) / (total_nfts as int - 1)) as u128)
    }
}

/// The curve after one trade in direction `tx`; `None` when the price
/// transition is invalid. A constant-product curve stores no price.
pub open spec fn curve_after(curve: BondingCurve, tx: TransactionType) -> Option<BondingCurve> {
    match curve {
        BondingCurve::Linear { spot_price, delta } => {
            let next = match tx {
                TransactionType::UserSubmitsNfts => linear_submits_nft(spot_price, delta),
                TransactionType::UserSubmitsTokens => linear_submits_tokens(spot_price, delta),
            };
            match next {
                Some(p) => Some(BondingCurve::Linear { spot_price: p, delta }),
                None => None,
            }
        },
        BondingCurve::Exponential { spot_price, delta } => {
            let next = match tx {
                TransactionType::UserSubmitsNfts => exponential_submits_nft(spot_price, delta),
                TransactionType::UserSubmitsTokens => exponential_submits_tokens(spot_price, delta),
            };
            match next {
                Some(p) => Some(BondingCurve::Exponential { spot_price: p, delta }),
                None => None,
            }
        },
        BondingCurve::ConstantProduct => Some(curve),
    }
}

/// `Ok` with the price, or `PriceInvalid`.
pub open spec fn price_result(p: Option<u128>) -> Result<u128, ContractError> {
    match p {
        Some(v) => Ok(v),
        None => Err(ContractError::PriceInvalid),
    }
}

pub fn calc_linear_spot_price_user_submits_nft(spot_price: u128, delta: u128) -> (r: Result<
    u128,
    ContractError,
>)
    ensures
        r == price_result(linear_submits_nft(spot_price, delta)),
{
    if delta <= spot_price {
        Ok(spot_price - delta)
    } else {
        Err(ContractError::PriceInvalid)
    }
}

pub fn calc_linear_spot_price_user_submits_tokens(spot_price: u128, delta: u128) -> (r: Result<
    u128,
    ContractError,
>)
    ensures
        r == price_result(linear_submits_tokens(spot_price, delta)),
{
    match spot_price.checked_add(delta) {
        Some(p) => Ok(p),
        None => Err(ContractError::PriceInvalid),
    }
}

/// The price at which a two-sided linear pool sells an item: one step above
/// the spot price, which is the spread of the pool.
pub fn calc_linear_trade_buy_from_pair_price(spot_price: u128, delta: u128) -> (r: Result<
    u128,
    ContractError,
>)
    ensures
        r == price_result(linear_submits_tokens(spot_price, delta)),
{
    calc_linear_spot_price_user_submits_tokens(spot_price, delta)
}

pub fn calc_exponential_spot_price_user_submits_nft(spot_price: u128, delta: u128) -> (r: Result<
    u128,
    ContractError,
>)
    ensures
        r == price_result(exponential_submits_nft(spot_price, delta)),
{
    let factor = match BPS_DENOMINATOR.checked_add(delta) {
        Some(f) => f,
        None => return Err(ContractError::PriceInvalid),
    };
    let scaled = match spot_price.checked_mul(BPS_DENOMINATOR) {
        Some(s) => s,
        None => return Err(ContractError::PriceInvalid),
    };
    let price = scaled / factor;
    if price == 0 {
        Err(ContractError::PriceInvalid)
    } else {
        Ok(price)
    }
}

pub fn calc_exponential_spot_price_user_submits_tokens(spot_price: u128, delta: u128) -> (r: Result<
    u128,
    ContractError,
>)
    ensures
        r == price_result(exponential_submits_tokens(spot_price, delta)),
{
    let factor = match BPS_DENOMINATOR.checked_add(delta) {
        Some(f) => f,
        None => return Err(ContractError::PriceInvalid),
    };
    let scaled = match spot_price.checked_mul(factor) {
        Some(s) => s,
        None => return Err(ContractError::PriceInvalid),
    };
    let mut price = scaled / BPS_DENOMINATOR;
    if scaled % BPS_DENOMINATOR != 0 {
        price = price + 1;
    }
    proof {
        let s = scaled as int;
        assert((s + 9_999) / 10_000 == s / 10_000 + (if s % 10_000 != 0 { 1int } else { 0 }))
            by (nonlinear_arith);
    }
    if price == 0 {
        Err(ContractError::PriceInvalid)
    } else {
        Ok(price)
    }
}

/// The price at which a two-sided exponential pool sells an item: one step
/// above the spot price.
pub fn calc_exponential_trade_buy_from_pair_price(spot_price: u128, delta: u128) -> (r: Result<
    u128,
    ContractError,
>)
    ensures
        r == price_result(exponential_submits_tokens(spot_price, delta)),
{
    calc_exponential_spot_price_user_submits_tokens(spot_price, delta)
}

pub fn calc_cp_trade_sell_to_pair_price(total_tokens: u128, total_nfts: u64) -> (r: Result<
    u128,
    ContractError,
>)
    ensures
        r == price_result(cp_sell_to_pair_price(total_tokens, total_nfts)),
{
    if total_nfts == 0 || total_tokens == 0 {
        Err(ContractError::PriceInvalid)
    } else {
        Ok(total_tokens / (total_nfts as u128 + 1))
    }
}

pub fn calc_cp_trade_buy_from_pair_price(total_tokens: u128, total_nfts: u64) -> (r: Result<
    u128,
    ContractError,
>)
    ensures
        r == price_result(cp_buy_from_pair_price(total_tokens, total_nfts)),
{
    if total_nfts < 2 || total_tokens == 0 {
        Err(ContractError::PriceInvalid)
    } else {
        let d = total_nfts as u128 - 1;
        let mut price = total_tokens / d;
        if total_tokens % d != 0 {
            assert(price <= total_tokens / 2) by (nonlinear_arith)
                requires d >= 2, price == total_tokens / d;
            price = price + 1;
        }
        proof {
            let t = total_tokens as int;
            let n = d as int;
            assert((t + n - 1) / n == t / n + (if t % n != 0 { 1int } else { 0 }))
                by (nonlinear_arith)
                requires n >= 1, t >= 0;
        }
        Ok(price)
    }
}

} // verus!
