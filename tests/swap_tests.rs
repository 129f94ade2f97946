use infinity_pool::curve::{BondingCurve, TransactionType};
use infinity_pool::error::{ContractError, SwapFailure};
use infinity_pool::execute::{
    execute_create_pool, execute_deposit_nfts, execute_deposit_tokens, execute_direct_swap_nfts_for_tokens,
    execute_direct_swap_tokens_for_specific_nfts, execute_set_active_pool, execute_swap_nfts_for_tokens,
    execute_swap_tokens_for_any_nfts, execute_swap_tokens_for_specific_nfts, sim_swap_nfts_for_tokens,
    sim_swap_tokens_for_any_nfts, BatchStatus, PoolInfo, PoolStore,
};
use infinity_pool::pair::PoolType;
use infinity_pool::quote::{PayoutContext, RoyaltyEntry};
use infinity_pool::swap_processor::{NftSwap, PoolNftSwap, SwapParams};

const CONTRACT: &str = "contract";
const DEADLINE: u64 = 2_000;
const NOW: u64 = 1_000;

fn owner() -> String {
    "owner".to_string()
}

fn bidder() -> String {
    "bidder".to_string()
}

fn collection() -> String {
    "collection".to_string()
}

fn denom() -> String {
    "ustars".to_string()
}

fn ctx() -> PayoutContext {
    PayoutContext {
        fair_burn_recipient: "fair-burn".to_string(),
        fair_burn_fee_bps: 200,
        royalty: Some(RoyaltyEntry { recipient: "royalty".to_string(), share_bps: 500 }),
    }
}

fn params(robust: bool) -> SwapParams {
    SwapParams { deadline: DEADLINE, robust, asset_recipient: None }
}

/// Two-sided pools quoting the given spot prices, each holding 10_000
/// tokens and six items; linear and exponential curves alternate.
fn prepare_pools(spots: &[u128], delta: u128, active: bool, swap_fee_bps: u128) -> (PoolStore, Vec<u64>) {
    let mut store = PoolStore::new();
    let mut ids = Vec::new();
    for (i, spot) in spots.iter().enumerate() {
        let curve = if i % 2 == 0 {
            BondingCurve::Linear { spot_price: *spot, delta }
        } else {
            BondingCurve::Exponential { spot_price: *spot, delta: 500 }
        };
        let id = execute_create_pool(
            &mut store,
            &ctx(),
            &owner(),
            PoolInfo {
                collection: collection(),
                denom: denom(),
                asset_recipient: None,
                pool_type: PoolType::Trade { reinvest_tokens: false, reinvest_nfts: false, swap_fee_bps },
                bonding_curve: curve,
                is_active: false,
            },
            0,
            0,
        )
        .unwrap();
        execute_deposit_tokens(&mut store, &ctx(), &owner(), id, 10_000).unwrap();
        let items: Vec<String> = (0..6).map(|k| format!("p{}-{}", id, k)).collect();
        execute_deposit_nfts(&mut store, &ctx(), &owner(), id, &collection(), &items).unwrap();
        if active {
            execute_set_active_pool(&mut store, &ctx(), &owner(), id, true).unwrap();
        }
        ids.push(id);
    }
    (store, ids)
}

fn variations(n: usize) -> Vec<u128> {
    (0..n).map(|i| 400 + 50 * i as u128).collect()
}

fn sell_orders(n: usize, amount: u128) -> Vec<NftSwap> {
    (0..n).map(|k| NftSwap { nft_token_id: format!("u-{}", k), token_amount: amount }).collect()
}

fn sell(store: &mut PoolStore, orders: Vec<NftSwap>, robust: bool) -> Result<infinity_pool::execute::SwapResponse, ContractError> {
    execute_swap_nfts_for_tokens(
        store,
        &ctx(),
        &bidder(),
        &CONTRACT.to_string(),
        &collection(),
        &denom(),
        orders,
        params(robust),
        NOW,
    )
}

#[test]
fn cant_swap_inactive_pools() {
    let (mut store, _) = prepare_pools(&variations(7), 10, false, 0);
    let res = sell(&mut store, sell_orders(3, 100_000), false);
    assert_eq!(res, Err(ContractError::SwapError(SwapFailure::NoQuote)));
    let res = sell(&mut store, sell_orders(3, 100_000), true).unwrap();
    assert!(res.swaps.is_empty());
    assert_eq!(res.status, BatchStatus::PartiallyCompleted);
}

#[test]
fn can_swap_active_pools() {
    let (mut store, _) = prepare_pools(&variations(7), 10, true, 0);
    let res = sell(&mut store, sell_orders(3, 10), false);
    assert!(res.is_ok());
    let res = res.unwrap();
    assert!(!res.swaps.is_empty());
    assert_eq!(res.status, BatchStatus::Completed);
}

#[test]
fn sale_price_below_min_expected() {
    let (mut store, _) = prepare_pools(&variations(7), 10, true, 0);
    let res = sell(&mut store, sell_orders(3, 100_000), false);
    assert_eq!(res, Err(ContractError::SwapError(SwapFailure::PriceBound)));
}

#[test]
fn robust_query_does_not_revert_whole_tx() {
    let spots = [1100, 1040, 990, 950, 900, 850, 800];
    let (mut store, _) = prepare_pools(&spots, 200, true, 0);
    let res = sell(&mut store, sell_orders(3, 1_000), true);
    assert!(res.is_ok());
    let res = res.unwrap();
    assert_eq!(res.swaps.len(), 2);
    assert_eq!(res.status, BatchStatus::PartiallyCompleted);
    assert_eq!(res.swaps[0].spot_price, 1100);
    assert_eq!(res.swaps[1].spot_price, 1040);
}

#[test]
fn strict_batch_fails_whole_and_changes_nothing() {
    let spots = [1100, 1040, 990, 950, 900, 850, 800];
    let (mut store, ids) = prepare_pools(&spots, 200, true, 0);
    let before: Vec<u128> = ids.iter().map(|id| store.get_pair(*id).unwrap().total_tokens).collect();
    let res = sell(&mut store, sell_orders(3, 1_000), false);
    assert_eq!(res, Err(ContractError::SwapError(SwapFailure::PriceBound)));
    let after: Vec<u128> = ids.iter().map(|id| store.get_pair(*id).unwrap().total_tokens).collect();
    assert_eq!(before, after);
}

#[test]
fn minimal_fee_tx_is_handled_correctly() {
    let (mut store, _) = prepare_pools(&variations(7), 10, true, 0);
    let res = sell(&mut store, sell_orders(3, 10), false).unwrap();
    for swap in res.swaps.iter() {
        let price = swap.spot_price;
        assert_eq!(swap.network_fee, price * 200 / 10_000);
        let royalty = swap.royalty_payment.as_ref().unwrap();
        assert_eq!(royalty.amount, price * 500 / 10_000);
        assert_eq!(royalty.address, "royalty");
        assert!(swap.swap_fee_payment.is_none());
        assert_eq!(swap.seller_payment.amount, price - swap.network_fee - royalty.amount);
        assert_eq!(swap.seller_payment.address, bidder());
    }
}

#[test]
fn finders_and_swap_fee_tx_is_handled_correctly() {
    let (mut store, _) = prepare_pools(&variations(7), 10, true, 300);
    let res = sell(&mut store, sell_orders(3, 10), false).unwrap();
    for swap in res.swaps.iter() {
        let price = swap.spot_price;
        let royalty = swap.royalty_payment.as_ref().unwrap().amount;
        let fee = swap.swap_fee_payment.as_ref().unwrap();
        assert_eq!(fee.amount, price * 300 / 10_000);
        assert_eq!(fee.address, owner());
        assert_eq!(swap.seller_payment.amount, price - swap.network_fee - royalty - fee.amount);
    }
}

#[test]
fn trades_are_routed_correctly() {
    let (mut store, _) = prepare_pools(&variations(14), 10, true, 0);
    let num_swaps: usize = 50;
    let res = sell(&mut store, sell_orders(num_swaps, 10), false).unwrap();
    let swaps = res.swaps;
    assert_eq!(swaps.len(), num_swaps);
    for idx in 1..swaps.len() {
        assert!(swaps[idx - 1].spot_price >= swaps[idx].spot_price);
    }
    // The best price of the market goes first
    assert_eq!(swaps[0].spot_price, 400 + 50 * 13);
}

#[test]
fn sales_pay_the_user_and_settle_per_address() {
    let (mut store, ids) = prepare_pools(&variations(3), 10, true, 0);
    let res = sell(&mut store, sell_orders(4, 10), false).unwrap();
    let st = &res.settlement;
    let fees: u128 = res.swaps.iter().map(|s| s.network_fee).sum();
    assert_eq!(st.fair_burn_amount, fees);
    let paid: u128 = st.token_payments.iter().map(|p| p.amount).sum();
    let gross: u128 = res.swaps.iter().map(|s| s.spot_price).sum();
    assert_eq!(paid + fees, gross);
    // One transfer each to the royalty recipient and to the seller
    assert_eq!(st.token_payments.len(), 2);
    assert_eq!(st.nft_payments.len(), 4);
    assert_eq!(st.nft_payments[0].nft_token_id, "u-0");
    assert_eq!(st.nft_payments[0].address, owner());
    // The pools paid what the trades grossed
    let held: u128 = ids.iter().map(|id| store.get_pair(*id).unwrap().total_tokens).sum();
    assert_eq!(held, 30_000 - gross);
}

#[test]
fn past_deadline_fills_nothing() {
    let (mut store, _) = prepare_pools(&variations(3), 10, true, 0);
    let res = execute_swap_nfts_for_tokens(
        &mut store,
        &ctx(),
        &bidder(),
        &CONTRACT.to_string(),
        &collection(),
        &denom(),
        sell_orders(2, 10),
        SwapParams { deadline: NOW - 1, robust: false, asset_recipient: None },
        NOW,
    );
    assert_eq!(res, Err(ContractError::SwapError(SwapFailure::DeadlineExceeded)));
}

#[test]
fn direct_sales_walk_down_the_linear_curve() {
    let (mut store, ids) = prepare_pools(&[2400], 100, true, 0);
    let res = execute_direct_swap_nfts_for_tokens(
        &mut store,
        &ctx(),
        &bidder(),
        &CONTRACT.to_string(),
        ids[0],
        sell_orders(3, 10),
        params(false),
        NOW,
    )
    .unwrap();
    let prices: Vec<u128> = res.swaps.iter().map(|s| s.spot_price).collect();
    assert_eq!(prices, vec![2400, 2300, 2200]);
    assert_eq!(
        store.get_pair(ids[0]).unwrap().config.bonding_curve,
        BondingCurve::Linear { spot_price: 2100, delta: 100 }
    );
    assert_eq!(store.get_pair(ids[0]).unwrap().total_tokens, 10_000 - 6900);
}

#[test]
fn linear_pool_deactivates_instead_of_going_negative() {
    let (mut store, ids) = prepare_pools(&[150], 100, true, 0);
    let res = execute_direct_swap_nfts_for_tokens(
        &mut store,
        &ctx(),
        &bidder(),
        &CONTRACT.to_string(),
        ids[0],
        sell_orders(3, 0),
        params(true),
        NOW,
    )
    .unwrap();
    let prices: Vec<u128> = res.swaps.iter().map(|s| s.spot_price).collect();
    assert_eq!(prices, vec![150, 50]);
    let pair = store.get_pair(ids[0]).unwrap();
    assert!(!pair.config.is_active);
    assert_eq!(pair.config.bonding_curve, BondingCurve::Linear { spot_price: 50, delta: 100 });
}

#[test]
fn direct_swap_to_missing_pool_fails() {
    let (mut store, _) = prepare_pools(&[2400], 100, true, 0);
    let res = execute_direct_swap_nfts_for_tokens(
        &mut store,
        &ctx(),
        &bidder(),
        &CONTRACT.to_string(),
        99,
        sell_orders(1, 10),
        params(true),
        NOW,
    );
    assert_eq!(res, Err(ContractError::InvalidPool));
}

#[test]
fn purchases_take_the_cheapest_items_first() {
    let (mut store, _) = prepare_pools(&variations(4), 10, true, 0);
    let res = execute_swap_tokens_for_any_nfts(
        &mut store,
        &ctx(),
        &bidder(),
        &CONTRACT.to_string(),
        &collection(),
        &denom(),
        vec![1_000, 1_000, 1_000],
        params(false),
        NOW,
        3_000,
    )
    .unwrap();
    assert_eq!(res.swaps.len(), 3);
    for idx in 1..res.swaps.len() {
        assert!(res.swaps[idx - 1].spot_price <= res.swaps[idx].spot_price);
        assert_eq!(res.swaps[idx].transaction_type, TransactionType::UserSubmitsTokens);
    }
    // A two-sided linear pool asks one step above its spot price
    assert_eq!(res.swaps[0].spot_price, 410);
    let spent: u128 = res.swaps.iter().map(|s| s.spot_price).sum();
    assert_eq!(res.refund, 3_000 - spent);
    assert_eq!(res.swaps[0].nft_payment.address, bidder());
}

#[test]
fn purchases_need_enough_funds() {
    let (mut store, _) = prepare_pools(&variations(4), 10, true, 0);
    let res = execute_swap_tokens_for_any_nfts(
        &mut store,
        &ctx(),
        &bidder(),
        &CONTRACT.to_string(),
        &collection(),
        &denom(),
        vec![1_000, 1_000, 1_000],
        params(false),
        NOW,
        2_999,
    );
    assert_eq!(res, Err(ContractError::InsufficientFunds));
}

#[test]
fn specific_purchases_follow_the_legs() {
    let (mut store, ids) = prepare_pools(&variations(2), 10, true, 0);
    let groups = vec![
        PoolNftSwap {
            pool_id: ids[1],
            nft_swaps: vec![NftSwap { nft_token_id: format!("p{}-3", ids[1]), token_amount: 1_000 }],
        },
        PoolNftSwap {
            pool_id: ids[0],
            nft_swaps: vec![
                NftSwap { nft_token_id: format!("p{}-0", ids[0]), token_amount: 1_000 },
                NftSwap { nft_token_id: "missing".to_string(), token_amount: 1_000 },
            ],
        },
    ];
    let res = execute_swap_tokens_for_specific_nfts(
        &mut store,
        &ctx(),
        &bidder(),
        &CONTRACT.to_string(),
        &collection(),
        &denom(),
        groups.clone(),
        params(false),
        NOW,
        3_000,
    );
    assert_eq!(res, Err(ContractError::SwapError(SwapFailure::ItemNotFound)));
    let res = execute_swap_tokens_for_specific_nfts(
        &mut store,
        &ctx(),
        &bidder(),
        &CONTRACT.to_string(),
        &collection(),
        &denom(),
        groups,
        params(true),
        NOW,
        3_000,
    )
    .unwrap();
    assert_eq!(res.swaps.len(), 2);
    assert_eq!(res.swaps[0].pool_id, ids[1]);
    assert_eq!(res.swaps[1].pool_id, ids[0]);
    assert_eq!(res.swaps[1].nft_payment.nft_token_id, format!("p{}-0", ids[0]));
    assert_eq!(store.get_pair(ids[0]).unwrap().internal.nft_token_ids.len(), 5);
}

#[test]
fn direct_purchase_from_one_pool() {
    let (mut store, ids) = prepare_pools(&[2400], 100, true, 0);
    let legs = vec![
        NftSwap { nft_token_id: format!("p{}-1", ids[0]), token_amount: 2_500 },
        NftSwap { nft_token_id: format!("p{}-2", ids[0]), token_amount: 2_500 },
    ];
    let res = execute_direct_swap_tokens_for_specific_nfts(
        &mut store,
        &ctx(),
        &bidder(),
        &CONTRACT.to_string(),
        ids[0],
        legs,
        params(true),
        NOW,
        5_000,
    )
    .unwrap();
    // The pool asks 2500, then its spot rises to 2500 and it asks 2600
    assert_eq!(res.swaps.len(), 1);
    assert_eq!(res.swaps[0].spot_price, 2500);
    assert_eq!(res.refund, 2_500);
    assert_eq!(res.status, BatchStatus::PartiallyCompleted);
}

#[test]
fn simulation_changes_no_pool() {
    let (store, ids) = prepare_pools(&variations(5), 10, true, 0);
    let before: Vec<u128> = ids.iter().map(|id| store.get_pair(*id).unwrap().total_tokens).collect();
    let res = sim_swap_nfts_for_tokens(
        &store,
        &ctx(),
        &bidder(),
        &CONTRACT.to_string(),
        &collection(),
        &denom(),
        sell_orders(6, 10),
        params(false),
        NOW,
    )
    .unwrap();
    assert_eq!(res.swaps.len(), 6);
    assert_eq!(res.swaps[0].spot_price, 600);
    let after: Vec<u128> = ids.iter().map(|id| store.get_pair(*id).unwrap().total_tokens).collect();
    assert_eq!(before, after);
    let res = sim_swap_tokens_for_any_nfts(
        &store,
        &ctx(),
        &bidder(),
        &CONTRACT.to_string(),
        &collection(),
        &denom(),
        vec![500, 500],
        params(true),
        NOW,
        1_000,
    )
    .unwrap();
    assert_eq!(res.swaps.len(), 2);
    assert_eq!(res.swaps[0].spot_price, 410);
}
