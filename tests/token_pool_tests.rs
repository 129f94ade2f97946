use infinity_pool::curve::BondingCurve;
use infinity_pool::error::ContractError;
use infinity_pool::execute::{
    execute_create_pool, execute_deposit_nfts, execute_deposit_tokens, execute_remove_pool,
    execute_set_active_pool, execute_update_pool_config, execute_withdraw_all_nfts,
    execute_withdraw_all_tokens, execute_withdraw_nfts, execute_withdraw_tokens, PoolInfo,
    PoolStore,
};
use infinity_pool::pair::PoolType;
use infinity_pool::quote::{PayoutContext, TokenPayment};

const ASSET_ACCOUNT: &str = "asset";
const LISTING_FEE: u128 = 1000;

fn ctx() -> PayoutContext {
    PayoutContext {
        fair_burn_recipient: "fair-burn".to_string(),
        fair_burn_fee_bps: 200,
        royalty: None,
    }
}

fn info(curve: BondingCurve, pool_type: PoolType, asset_recipient: Option<&str>) -> PoolInfo {
    PoolInfo {
        collection: "collection".to_string(),
        denom: "ustars".to_string(),
        asset_recipient: asset_recipient.map(|a| a.to_string()),
        pool_type,
        bonding_curve: curve,
        is_active: false,
    }
}

fn linear_pool(store: &mut PoolStore, creator: &String, asset_recipient: Option<&str>) -> u64 {
    execute_create_pool(
        store,
        &ctx(),
        creator,
        info(
            BondingCurve::Linear { spot_price: 2400, delta: 100 },
            PoolType::NftOnly,
            asset_recipient,
        ),
        LISTING_FEE,
        LISTING_FEE,
    )
    .unwrap()
}

#[test]
fn create_token_pool() {
    let mut store = PoolStore::new();
    let creator = "creator".to_string();

    let res = execute_create_pool(
        &mut store,
        &ctx(),
        &creator,
        info(BondingCurve::ConstantProduct, PoolType::NftOnly, Some(ASSET_ACCOUNT)),
        LISTING_FEE,
        LISTING_FEE,
    );
    assert_eq!(res, Err(ContractError::InvalidPool));

    let res = execute_create_pool(
        &mut store,
        &ctx(),
        &creator,
        info(
            BondingCurve::Linear { spot_price: 2400, delta: 120 },
            PoolType::NftOnly,
            Some(ASSET_ACCOUNT),
        ),
        LISTING_FEE,
        LISTING_FEE,
    );
    assert!(res.is_ok());

    let res = execute_create_pool(
        &mut store,
        &ctx(),
        &creator,
        info(
            BondingCurve::Exponential { spot_price: 2400, delta: 120 },
            PoolType::NftOnly,
            Some(ASSET_ACCOUNT),
        ),
        LISTING_FEE,
        LISTING_FEE,
    );
    assert!(res.is_ok());
}

#[test]
fn create_pool_requires_exact_listing_fee() {
    let mut store = PoolStore::new();
    let creator = "creator".to_string();
    let res = execute_create_pool(
        &mut store,
        &ctx(),
        &creator,
        info(BondingCurve::Linear { spot_price: 2400, delta: 100 }, PoolType::NftOnly, None),
        999,
        LISTING_FEE,
    );
    assert_eq!(res, Err(ContractError::InvalidListingFee(999)));
    assert!(store.get_pair(1).is_none());
}

#[test]
fn constant_product_needs_two_sided_pool() {
    let mut store = PoolStore::new();
    let creator = "creator".to_string();
    let trade = PoolType::Trade { reinvest_tokens: true, reinvest_nfts: true, swap_fee_bps: 0 };
    let res = execute_create_pool(
        &mut store,
        &ctx(),
        &creator,
        info(BondingCurve::ConstantProduct, trade, None),
        LISTING_FEE,
        LISTING_FEE,
    );
    assert_eq!(res, Ok(1));
}

#[test]
fn deposit_assets_token_pool() {
    let mut store = PoolStore::new();
    let creator = "creator".to_string();
    let user1 = "bidder".to_string();
    let pool = linear_pool(&mut store, &creator, Some(ASSET_ACCOUNT));

    // Only the owner of the pool can deposit tokens
    let res = execute_deposit_tokens(&mut store, &ctx(), &user1, pool, 1000);
    assert_eq!(res, Err(ContractError::Unauthorized));

    // The owner can deposit tokens, and they are summed by the pool
    let res = execute_deposit_tokens(&mut store, &ctx(), &creator, pool, 1250);
    assert!(res.is_ok());
    let res = execute_deposit_tokens(&mut store, &ctx(), &creator, pool, 3200);
    assert!(res.is_ok());
    assert_eq!(store.get_pair(pool).unwrap().total_tokens, 1250 + 3200);
    assert_eq!(store.get_pair(pool).unwrap().total_tokens, 4450);

    // Items of another collection cannot be deposited
    let res = execute_deposit_nfts(
        &mut store,
        &ctx(),
        &creator,
        pool,
        &"other".to_string(),
        &vec!["1".to_string(), "2".to_string()],
    );
    assert_eq!(res, Err(ContractError::InvalidInput));
}

#[test]
fn deposit_nfts_rejects_duplicates() {
    let mut store = PoolStore::new();
    let creator = "creator".to_string();
    let pool = linear_pool(&mut store, &creator, None);
    let collection = "collection".to_string();
    let res = execute_deposit_nfts(
        &mut store,
        &ctx(),
        &creator,
        pool,
        &collection,
        &vec!["1".to_string(), "2".to_string()],
    );
    assert!(res.is_ok());
    assert_eq!(store.get_pair(pool).unwrap().internal.nft_token_ids.len(), 2);
    let res = execute_deposit_nfts(&mut store, &ctx(), &creator, pool, &collection, &vec!["2".to_string()]);
    assert_eq!(res, Err(ContractError::InvalidInput));
    let res = execute_deposit_nfts(
        &mut store,
        &ctx(),
        &creator,
        pool,
        &collection,
        &vec!["3".to_string(), "3".to_string()],
    );
    assert_eq!(res, Err(ContractError::InvalidInput));
    assert_eq!(store.get_pair(pool).unwrap().internal.nft_token_ids.len(), 2);
}

#[test]
fn withdraw_assets_token_pool() {
    let mut store = PoolStore::new();
    let creator = "creator".to_string();
    let user1 = "bidder".to_string();
    let pool = linear_pool(&mut store, &creator, Some(ASSET_ACCOUNT));
    execute_deposit_tokens(&mut store, &ctx(), &creator, pool, 1000).unwrap();

    // Only the owner of the pool can withdraw tokens
    let res = execute_withdraw_tokens(&mut store, &ctx(), &user1, pool, 300, None);
    assert_eq!(res, Err(ContractError::Unauthorized));

    // The owner can withdraw tokens, directed to the asset recipient
    let res = execute_withdraw_tokens(
        &mut store,
        &ctx(),
        &creator,
        pool,
        300,
        Some(ASSET_ACCOUNT.to_string()),
    );
    assert_eq!(res, Ok(TokenPayment { amount: 300, address: ASSET_ACCOUNT.to_string() }));
    assert_eq!(store.get_pair(pool).unwrap().total_tokens, 1000 - 300);

    // More than the pool holds cannot be withdrawn
    let res = execute_withdraw_tokens(&mut store, &ctx(), &creator, pool, 701, None);
    assert_eq!(res, Err(ContractError::InvalidInput));

    // The remaining tokens go to the owner
    let res = execute_withdraw_all_tokens(&mut store, &ctx(), &creator, pool, None);
    assert_eq!(res, Ok(TokenPayment { amount: 700, address: creator.clone() }));
    assert_eq!(store.get_pair(pool).unwrap().total_tokens, 0);

    // Items the pool does not hold cannot be withdrawn
    let res = execute_withdraw_nfts(&mut store, &ctx(), &creator, pool, &vec!["1".to_string()], None);
    assert_eq!(res, Err(ContractError::InvalidInput));

    // Withdrawing all items of an empty pool transfers nothing
    let res = execute_withdraw_all_nfts(&mut store, &ctx(), &creator, pool, None);
    assert_eq!(res.unwrap().len(), 0);
}

#[test]
fn withdraw_all_nfts_takes_a_batch() {
    let mut store = PoolStore::new();
    let creator = "creator".to_string();
    let pool = linear_pool(&mut store, &creator, None);
    let ids: Vec<String> = (0..12).map(|i| i.to_string()).collect();
    execute_deposit_nfts(&mut store, &ctx(), &creator, pool, &"collection".to_string(), &ids).unwrap();
    let payments = execute_withdraw_all_nfts(&mut store, &ctx(), &creator, pool, None).unwrap();
    assert_eq!(payments.len(), 10);
    assert_eq!(payments[0].nft_token_id, "0");
    assert_eq!(payments[9].nft_token_id, "9");
    assert_eq!(payments[0].address, creator);
    assert_eq!(
        store.get_pair(pool).unwrap().internal.nft_token_ids,
        vec!["10".to_string(), "11".to_string()]
    );
}

#[test]
fn update_token_pool() {
    let mut store = PoolStore::new();
    let creator = "creator".to_string();
    let user1 = "bidder".to_string();
    let pool = linear_pool(&mut store, &creator, None);

    // Only the owner of the pool can update it
    let res = execute_update_pool_config(
        &mut store,
        &ctx(),
        &user1,
        pool,
        Some(ASSET_ACCOUNT.to_string()),
        Some(101),
        Some(102),
        Some(0),
        Some(false),
        Some(false),
    );
    assert_eq!(res, Err(ContractError::Unauthorized));

    // A fee cannot be set on a one-sided pool
    let res = execute_update_pool_config(
        &mut store,
        &ctx(),
        &creator,
        pool,
        Some(ASSET_ACCOUNT.to_string()),
        Some(101),
        Some(102),
        Some(100),
        Some(false),
        Some(false),
    );
    assert_eq!(res, Err(ContractError::InvalidPool));

    // The fields are updated
    let res = execute_update_pool_config(
        &mut store,
        &ctx(),
        &creator,
        pool,
        Some(ASSET_ACCOUNT.to_string()),
        Some(100),
        Some(2400),
        Some(0),
        Some(false),
        Some(false),
    );
    assert!(res.is_ok());
    let pair = store.get_pair(pool).unwrap();
    assert_eq!(pair.id, pool);
    assert_eq!(pair.config.asset_recipient, Some(ASSET_ACCOUNT.to_string()));
    assert_eq!(pair.config.bonding_curve, BondingCurve::Linear { spot_price: 2400, delta: 100 });
}

#[test]
fn update_rejects_price_on_constant_product() {
    let mut store = PoolStore::new();
    let creator = "creator".to_string();
    let trade = PoolType::Trade { reinvest_tokens: false, reinvest_nfts: false, swap_fee_bps: 0 };
    let pool = execute_create_pool(
        &mut store,
        &ctx(),
        &creator,
        info(BondingCurve::ConstantProduct, trade, None),
        LISTING_FEE,
        LISTING_FEE,
    )
    .unwrap();
    let res = execute_update_pool_config(
        &mut store, &ctx(), &creator, pool, None, None, Some(5), None, None, None,
    );
    assert_eq!(res, Err(ContractError::InvalidPool));
    let res = execute_update_pool_config(
        &mut store, &ctx(), &creator, pool, None, None, None, Some(10_001), None, None,
    );
    assert_eq!(res, Err(ContractError::InvalidPool));
    let res = execute_update_pool_config(
        &mut store, &ctx(), &creator, pool, None, None, None, Some(250), Some(true), None,
    );
    assert!(res.is_ok());
    assert_eq!(
        store.get_pair(pool).unwrap().config.pool_type,
        PoolType::Trade { reinvest_tokens: true, reinvest_nfts: false, swap_fee_bps: 250 }
    );
}

#[test]
fn remove_token_pool() {
    let mut store = PoolStore::new();
    let creator = "creator".to_string();
    let user1 = "bidder".to_string();
    let pool = linear_pool(&mut store, &creator, None);
    execute_deposit_tokens(&mut store, &ctx(), &creator, pool, 1000).unwrap();

    // Only the owner of the pool can remove it
    let res = execute_remove_pool(&mut store, &user1, pool, Some(ASSET_ACCOUNT.to_string()));
    assert_eq!(res, Err(ContractError::Unauthorized));

    // The owner can remove it, and the asset recipient gets the remaining tokens
    let res = execute_remove_pool(&mut store, &creator, pool, Some(ASSET_ACCOUNT.to_string()));
    assert_eq!(res, Ok(Some(TokenPayment { amount: 1000, address: ASSET_ACCOUNT.to_string() })));
    assert!(store.get_pair(pool).is_none());
}

#[test]
fn remove_pool_holding_items_fails() {
    let mut store = PoolStore::new();
    let creator = "creator".to_string();
    let pool = linear_pool(&mut store, &creator, None);
    execute_deposit_tokens(&mut store, &ctx(), &creator, pool, 500).unwrap();
    execute_deposit_nfts(&mut store, &ctx(), &creator, pool, &"collection".to_string(), &vec!["7".to_string()])
        .unwrap();
    let res = execute_remove_pool(&mut store, &creator, pool, None);
    assert_eq!(res, Err(ContractError::InvalidPool));
    assert!(store.get_pair(pool).is_some());
    let res = execute_withdraw_nfts(&mut store, &ctx(), &creator, pool, &vec!["7".to_string()], None);
    assert!(res.is_ok());
    let res = execute_remove_pool(&mut store, &creator, pool, Some(ASSET_ACCOUNT.to_string()));
    assert_eq!(res, Ok(Some(TokenPayment { amount: 500, address: ASSET_ACCOUNT.to_string() })));
    assert!(store.get_pair(pool).is_none());
}

#[test]
fn missing_pool_is_invalid() {
    let mut store = PoolStore::new();
    let creator = "creator".to_string();
    assert_eq!(
        execute_deposit_tokens(&mut store, &ctx(), &creator, 9, 10),
        Err(ContractError::InvalidPool)
    );
    assert_eq!(execute_remove_pool(&mut store, &creator, 9, None), Err(ContractError::InvalidPool));
}

#[test]
fn activate_token_pool() {
    let mut store = PoolStore::new();
    let creator = "creator".to_string();
    let user1 = "bidder".to_string();
    let pool = linear_pool(&mut store, &creator, None);
    execute_deposit_tokens(&mut store, &ctx(), &creator, pool, 1000).unwrap();

    // Only the owner of the pool can activate it
    let res = execute_set_active_pool(&mut store, &ctx(), &user1, pool, true);
    assert_eq!(res, Err(ContractError::Unauthorized));

    // The owner can activate it
    let res = execute_set_active_pool(&mut store, &ctx(), &creator, pool, true);
    assert!(res.is_ok());
    let pair = store.get_pair(pool).unwrap();
    assert!(pair.config.is_active);
    // The spot price exceeds the pool's tokens, so it offers nothing for an item
    assert!(pair.internal.sell_to_pair_quote_summary.is_none());
    assert!(pair.internal.buy_from_pair_quote_summary.is_none());

    // With enough tokens the pool quotes its spot price
    execute_deposit_tokens(&mut store, &ctx(), &creator, pool, 1400).unwrap();
    let pair = store.get_pair(pool).unwrap();
    let quote = pair.internal.sell_to_pair_quote_summary.as_ref().unwrap();
    assert_eq!(quote.total(), 2400);
    assert_eq!(quote.fair_burn.amount, 48);
    assert_eq!(quote.seller_amount, 2352);
}
