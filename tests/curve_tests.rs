use infinity_pool::curve::{
    calc_cp_trade_buy_from_pair_price, calc_cp_trade_sell_to_pair_price,
    calc_exponential_spot_price_user_submits_nft, calc_exponential_spot_price_user_submits_tokens,
    calc_exponential_trade_buy_from_pair_price, calc_linear_spot_price_user_submits_nft,
    calc_linear_spot_price_user_submits_tokens, calc_linear_trade_buy_from_pair_price,
};
use infinity_pool::error::ContractError;
use infinity_pool::quote::{
    fee_amount, fee_amount_checked, PayoutContext, QuoteSummary, RoyaltyEntry, TokenPayment,
};

#[test]
fn linear_steps_by_delta_until_zero() {
    let mut spot: u128 = 2400;
    let mut prices = Vec::new();
    loop {
        match calc_linear_spot_price_user_submits_nft(spot, 100) {
            Ok(p) => {
                assert_eq!(p, spot - 100);
                spot = p;
                prices.push(p);
            }
            Err(e) => {
                assert_eq!(e, ContractError::PriceInvalid);
                break;
            }
        }
    }
    assert_eq!(prices.len(), 24);
    assert_eq!(spot, 0);
    assert_eq!(calc_linear_spot_price_user_submits_tokens(2400, 100), Ok(2500));
    assert_eq!(calc_linear_spot_price_user_submits_tokens(u128::MAX, 1), Err(ContractError::PriceInvalid));
    assert_eq!(calc_linear_trade_buy_from_pair_price(2400, 100), Ok(2500));
}

#[test]
fn exponential_scales_by_delta() {
    assert_eq!(calc_exponential_spot_price_user_submits_nft(10_000, 500), Ok(9523));
    assert_eq!(calc_exponential_spot_price_user_submits_tokens(10_000, 500), Ok(10_500));
    assert_eq!(calc_exponential_spot_price_user_submits_tokens(1, 1), Ok(2));
    assert_eq!(calc_exponential_trade_buy_from_pair_price(2400, 120), Ok(2429));
    assert_eq!(calc_exponential_spot_price_user_submits_nft(1, 1), Err(ContractError::PriceInvalid));
    assert_eq!(calc_exponential_spot_price_user_submits_tokens(0, 500), Err(ContractError::PriceInvalid));
    assert_eq!(
        calc_exponential_spot_price_user_submits_tokens(u128::MAX / 2, 500),
        Err(ContractError::PriceInvalid)
    );
}

#[test]
fn constant_product_prices_follow_reserves() {
    assert_eq!(calc_cp_trade_sell_to_pair_price(1000, 4), Ok(200));
    assert_eq!(calc_cp_trade_buy_from_pair_price(1000, 4), Ok(334));
    assert_eq!(calc_cp_trade_buy_from_pair_price(1000, 2), Ok(1000));
    assert_eq!(calc_cp_trade_sell_to_pair_price(1000, 0), Err(ContractError::PriceInvalid));
    assert_eq!(calc_cp_trade_sell_to_pair_price(0, 3), Err(ContractError::PriceInvalid));
    assert_eq!(calc_cp_trade_buy_from_pair_price(1000, 1), Err(ContractError::PriceInvalid));
}

fn ctx(fair_burn_bps: u128, royalty_bps: Option<u128>) -> PayoutContext {
    PayoutContext {
        fair_burn_recipient: "fair-burn".to_string(),
        fair_burn_fee_bps: fair_burn_bps,
        royalty: royalty_bps.map(|b| RoyaltyEntry { recipient: "artist".to_string(), share_bps: b }),
    }
}

#[test]
fn quote_breakdown_adds_up_to_the_sale() {
    let q = ctx(200, Some(500)).build_quote_summary(10_000, 300, &"pool".to_string()).unwrap();
    assert_eq!(q.fair_burn, TokenPayment { amount: 200, address: "fair-burn".to_string() });
    assert_eq!(q.royalty, Some(TokenPayment { amount: 500, address: "artist".to_string() }));
    assert_eq!(q.swap, Some(TokenPayment { amount: 300, address: "pool".to_string() }));
    assert_eq!(q.seller_amount, 9_000);
    assert_eq!(q.total(), 10_000);

    let q = ctx(200, None).build_quote_summary(999, 0, &"pool".to_string()).unwrap();
    assert_eq!(q.fair_burn.amount, 19);
    assert!(q.royalty.is_none());
    assert!(q.swap.is_none());
    assert_eq!(q.seller_amount, 980);
    assert_eq!(q.total(), 999);
}

#[test]
fn fees_above_the_sale_give_no_quote() {
    assert!(ctx(6_000, Some(5_000)).build_quote_summary(10_000, 0, &"pool".to_string()).is_none());
    assert!(ctx(5_000, Some(5_000)).build_quote_summary(10_000, 0, &"pool".to_string()).is_some());
}

#[test]
fn fee_amount_rounds_down_without_overflow() {
    assert_eq!(fee_amount(u128::MAX, 10_000), u128::MAX);
    assert_eq!(fee_amount(u128::MAX, 5_000), u128::MAX / 2);
    assert_eq!(fee_amount(9_999, 1), 0);
    assert_eq!(fee_amount(123_456, 250), 3_086);
}

#[test]
fn payout_lists_transfers_in_order() {
    let q = QuoteSummary {
        fair_burn: TokenPayment { amount: 2, address: "fair-burn".to_string() },
        royalty: None,
        swap: Some(TokenPayment { amount: 3, address: "pool".to_string() }),
        seller_amount: 95,
    };
    let p = q.payout(&"seller".to_string());
    assert_eq!(
        p,
        vec![
            TokenPayment { amount: 2, address: "fair-burn".to_string() },
            TokenPayment { amount: 3, address: "pool".to_string() },
            TokenPayment { amount: 95, address: "seller".to_string() },
        ]
    );
}

#[test]
fn percentages_above_the_whole_give_no_quote() {
    let over = ctx(10_001, None);
    let q = over.build_quote_summary(1, 0, &"pool".to_string()).unwrap();
    assert_eq!(q.fair_burn.amount, 1);
    assert_eq!(q.seller_amount, 0);
    assert!(over.build_quote_summary(10_000, 0, &"pool".to_string()).is_none());
    let q = ctx(20_000, None).build_quote_summary(0, 0, &"pool".to_string()).unwrap();
    assert_eq!(q.total(), 0);
    assert!(ctx(0, Some(u128::MAX)).build_quote_summary(u128::MAX, 0, &"pool".to_string()).is_none());
}

#[test]
fn checked_fee_reports_overflow() {
    assert_eq!(fee_amount_checked(u128::MAX, 20_000), None);
    assert_eq!(fee_amount_checked(10_000, 25_000), Some(25_000));
    assert_eq!(fee_amount_checked(3, 15_000), Some(4));
}
