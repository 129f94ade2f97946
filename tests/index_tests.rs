use infinity_pool::curve::{BondingCurve, TransactionType};
use infinity_pool::execute::{
    execute_create_pool, execute_deposit_nfts, execute_deposit_tokens, execute_set_active_pool, PoolInfo,
    PoolStore,
};
use infinity_pool::index::{PairQuote, PriceIndex, QuoteCursor};
use infinity_pool::pair::PoolType;
use infinity_pool::quote::PayoutContext;

fn entry(id: u64, collection: &str, sell: Option<u128>, buy: Option<u128>) -> PairQuote {
    PairQuote {
        pair_id: id,
        collection: collection.to_string(),
        denom: "ustars".to_string(),
        sell_to_pair_quote: sell,
        buy_from_pair_quote: buy,
    }
}

#[test]
fn cursor_walks_sell_quotes_best_first() {
    let mut index = PriceIndex::new();
    index.update_pair_indices(entry(1, "a", Some(100), Some(120)));
    index.update_pair_indices(entry(2, "a", Some(300), None));
    index.update_pair_indices(entry(3, "a", Some(300), Some(90)));
    index.update_pair_indices(entry(4, "b", Some(999), Some(1)));
    index.update_pair_indices(entry(5, "a", None, Some(90)));
    let mut cursor =
        QuoteCursor::new("a".to_string(), "ustars".to_string(), TransactionType::UserSubmitsNfts);
    assert_eq!(cursor.peek(&index), Some((2, 300)));
    assert_eq!(cursor.advance(&index), Some((2, 300)));
    assert_eq!(cursor.advance(&index), Some((3, 300)));
    assert!(cursor.has_next(&index));
    assert_eq!(cursor.advance(&index), Some((1, 100)));
    assert_eq!(cursor.advance(&index), None);
    assert!(!cursor.has_next(&index));
}

#[test]
fn cursor_walks_buy_quotes_cheapest_first() {
    let mut index = PriceIndex::new();
    index.update_pair_indices(entry(1, "a", Some(100), Some(120)));
    index.update_pair_indices(entry(3, "a", Some(300), Some(90)));
    index.update_pair_indices(entry(5, "a", None, Some(90)));
    let mut cursor =
        QuoteCursor::new("a".to_string(), "ustars".to_string(), TransactionType::UserSubmitsTokens);
    assert_eq!(cursor.advance(&index), Some((3, 90)));
    assert_eq!(cursor.advance(&index), Some((5, 90)));
    assert_eq!(cursor.advance(&index), Some((1, 120)));
    assert_eq!(cursor.advance(&index), None);
}

#[test]
fn republishing_replaces_and_removal_drops() {
    let mut index = PriceIndex::new();
    index.update_pair_indices(entry(1, "a", Some(100), None));
    index.update_pair_indices(entry(1, "a", Some(50), None));
    assert_eq!(index.entries.len(), 1);
    assert_eq!(index.entries[0].sell_to_pair_quote, Some(50));
    index.update_pair_indices(entry(2, "a", Some(70), None));
    index.remove_pair(1);
    assert_eq!(index.entries, vec![entry(2, "a", Some(70), None)]);
}

#[test]
fn constant_product_pool_quotes_from_reserves() {
    let ctx = PayoutContext { fair_burn_recipient: "fb".to_string(), fair_burn_fee_bps: 0, royalty: None };
    let owner = "owner".to_string();
    let mut store = PoolStore::new();
    let id = execute_create_pool(
        &mut store,
        &ctx,
        &owner,
        PoolInfo {
            collection: "c".to_string(),
            denom: "ustars".to_string(),
            asset_recipient: None,
            pool_type: PoolType::Trade { reinvest_tokens: true, reinvest_nfts: true, swap_fee_bps: 0 },
            bonding_curve: BondingCurve::ConstantProduct,
            is_active: true,
        },
        0,
        0,
    )
    .unwrap();
    execute_deposit_tokens(&mut store, &ctx, &owner, id, 1000).unwrap();
    let items: Vec<String> = (0..4).map(|k| k.to_string()).collect();
    execute_deposit_nfts(&mut store, &ctx, &owner, id, &"c".to_string(), &items).unwrap();
    let pair = store.get_pair(id).unwrap();
    assert_eq!(pair.internal.sell_to_pair_quote_summary.as_ref().unwrap().total(), 200);
    assert_eq!(pair.internal.buy_from_pair_quote_summary.as_ref().unwrap().total(), 334);
    let published = &store.index.entries[0];
    assert_eq!(published.sell_to_pair_quote, Some(200));
    assert_eq!(published.buy_from_pair_quote, Some(334));

    // Selling one item into the pool moves both reserves
    let mut pair = store.get_pair(id).unwrap().clone();
    pair.sim_swap_nft_for_tokens(&ctx, "new".to_string());
    assert_eq!(pair.total_tokens, 800);
    assert_eq!(pair.internal.nft_token_ids.len(), 5);
    assert_eq!(pair.internal.sell_to_pair_quote_summary.as_ref().unwrap().total(), 133);

    // Deactivating clears both quotes from the index
    execute_set_active_pool(&mut store, &ctx, &owner, id, false).unwrap();
    assert_eq!(store.index.entries[0].sell_to_pair_quote, None);
    assert_eq!(store.index.entries[0].buy_from_pair_quote, None);
}
