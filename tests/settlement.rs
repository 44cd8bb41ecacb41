use trade_engine::book::MatchedTrade;
use trade_engine::portfolio::{buy_fill, empty_portfolio, Asset, Portfolio, SettlementError};
use trade_engine::settlement::{
    combine_sides, next_step, RetryStep, SettleOutcome, SettlementProcessor, SideErrors, WriteOutcome, MAX_ATTEMPTS,
};
use trade_engine::store::{PortfolioStore, StoreError};

fn trade(buy: u64, sell: u64, qty: u32, price: u32) -> MatchedTrade {
    MatchedTrade {
        buy_order_id: buy,
        sell_order_id: sell,
        symbol: "ACME".to_string(),
        quantity: qty,
        price,
        buyer_id: "bob".to_string(),
        seller_id: "sue".to_string(),
    }
}

fn seller_portfolio(shares: u64) -> Portfolio {
    Portfolio {
        portfolio_id: "ps".to_string(),
        total_money: 0,
        assets: vec![Asset {
            symbol: "ACME".to_string(),
            shares,
            market_value: shares as u128 * 5,
            average_cost: 5,
            portfolio_diversity: 0,
        }],
    }
}

fn processor(seller_shares: u64) -> SettlementProcessor {
    let mut store = PortfolioStore::new();
    store.insert("bob".to_string(), empty_portfolio("pb".to_string())).unwrap();
    store.insert("sue".to_string(), seller_portfolio(seller_shares)).unwrap();
    SettlementProcessor::new(store)
}

fn shares(p: &Portfolio) -> u64 {
    p.assets.iter().filter(|a| a.symbol == "ACME").map(|a| a.shares).sum()
}

#[test]
fn settles_both_sides() {
    let mut sp = processor(10);
    assert_eq!(sp.apply(&trade(1, 2, 4, 6)), Ok(SettleOutcome::Settled));
    let (b, vb) = sp.store.get(&"bob".to_string()).unwrap();
    let (s, vs) = sp.store.get(&"sue".to_string()).unwrap();
    assert_eq!(b.total_money, -24);
    assert_eq!(s.total_money, 24);
    assert_eq!(shares(&b), 4);
    assert_eq!(shares(&s), 6);
    assert_eq!(shares(&b) + shares(&s), 10);
    assert_eq!(vb, 1);
    assert_eq!(vs, 1);
    assert_eq!(sp.store.history.len(), 1);
    assert!(sp.is_settled(1, 2));
}

#[test]
fn second_application_changes_nothing() {
    let mut sp = processor(10);
    assert_eq!(sp.apply(&trade(1, 2, 4, 6)), Ok(SettleOutcome::Settled));
    assert_eq!(sp.apply(&trade(1, 2, 4, 6)), Ok(SettleOutcome::AlreadySettled));
    let (b, vb) = sp.store.get(&"bob".to_string()).unwrap();
    let (s, _) = sp.store.get(&"sue".to_string()).unwrap();
    assert_eq!(b.total_money, -24);
    assert_eq!(s.total_money, 24);
    assert_eq!(shares(&b), 4);
    assert_eq!(vb, 1);
    assert_eq!(sp.store.history.len(), 1);
    assert_eq!(sp.processed.len(), 1);
}

#[test]
fn seller_short_of_shares_is_reported() {
    let mut sp = processor(2);
    assert_eq!(
        sp.apply(&trade(1, 2, 4, 6)),
        Err(SideErrors { buyer: None, seller: Some(SettlementError::InsufficientHoldings) })
    );
    let (b, _) = sp.store.get(&"bob".to_string()).unwrap();
    let (s, vs) = sp.store.get(&"sue".to_string()).unwrap();
    // the buyer's side stands; the seller is left for reconciliation
    assert_eq!(shares(&b), 4);
    assert_eq!(shares(&s), 2);
    assert_eq!(s.total_money, 0);
    assert_eq!(vs, 0);
    // a redelivery does not debit the buyer again
    assert_eq!(sp.apply(&trade(1, 2, 4, 6)), Ok(SettleOutcome::AlreadySettled));
    let (b2, _) = sp.store.get(&"bob".to_string()).unwrap();
    assert_eq!(b2.total_money, -24);
}

#[test]
fn unknown_buyer_still_credits_seller() {
    let mut sp = processor(10);
    let mut t = trade(1, 2, 4, 6);
    t.buyer_id = "nobody".to_string();
    assert_eq!(sp.apply(&t), Err(SideErrors { buyer: Some(SettlementError::PortfolioNotFound), seller: None }));
    let (s, vs) = sp.store.get(&"sue".to_string()).unwrap();
    assert_eq!(s.total_money, 24);
    assert_eq!(shares(&s), 6);
    assert_eq!(vs, 1);
    let (b, vb) = sp.store.get(&"bob".to_string()).unwrap();
    assert_eq!(b.total_money, 0);
    assert_eq!(vb, 0);
    assert!(sp.is_settled(1, 2));
    assert_eq!(sp.store.history.len(), 1);
    // a redelivery credits the seller no second time
    assert_eq!(sp.apply(&t), Ok(SettleOutcome::AlreadySettled));
    let (s2, _) = sp.store.get(&"sue".to_string()).unwrap();
    assert_eq!(s2.total_money, 24);
}

#[test]
fn unknown_seller_still_debits_buyer() {
    let mut sp = processor(10);
    let mut t = trade(1, 2, 4, 6);
    t.seller_id = "nobody".to_string();
    assert_eq!(sp.apply(&t), Err(SideErrors { buyer: None, seller: Some(SettlementError::PortfolioNotFound) }));
    let (b, _) = sp.store.get(&"bob".to_string()).unwrap();
    assert_eq!(b.total_money, -24);
    assert!(sp.is_settled(1, 2));
}

#[test]
fn both_sides_failing_are_both_reported() {
    let mut sp = processor(10);
    let mut t = trade(1, 2, 4, 6);
    t.buyer_id = "nobody".to_string();
    t.seller_id = "bob".to_string();
    assert_eq!(
        sp.apply(&t),
        Err(SideErrors {
            buyer: Some(SettlementError::PortfolioNotFound),
            seller: Some(SettlementError::InsufficientHoldings),
        })
    );
    assert_eq!(sp.store.history.len(), 1);
}

#[test]
fn self_trade_nets_out() {
    let mut sp = processor(10);
    let mut t = trade(1, 2, 4, 6);
    t.buyer_id = "sue".to_string();
    assert_eq!(sp.apply(&t), Ok(SettleOutcome::Settled));
    let (s, v) = sp.store.get(&"sue".to_string()).unwrap();
    assert_eq!(s.total_money, 0);
    assert_eq!(shares(&s), 10);
    assert_eq!(v, 2);
}

#[test]
fn retry_steps() {
    assert_eq!(next_step(1, WriteOutcome::Written), RetryStep::Done);
    assert_eq!(next_step(MAX_ATTEMPTS, WriteOutcome::Written), RetryStep::Done);
    assert_eq!(next_step(1, WriteOutcome::Conflict), RetryStep::Retry);
    assert_eq!(next_step(MAX_ATTEMPTS - 1, WriteOutcome::Conflict), RetryStep::Retry);
    assert_eq!(next_step(MAX_ATTEMPTS, WriteOutcome::Conflict), RetryStep::GiveUp);
    assert_eq!(MAX_ATTEMPTS, 5);
}

#[test]
fn bounded_conflicts_give_up_after_five_attempts() {
    let mut attempts = 0u32;
    loop {
        attempts += 1;
        match next_step(attempts, WriteOutcome::Conflict) {
            RetryStep::Retry => continue,
            RetryStep::GiveUp => break,
            RetryStep::Done => unreachable!(),
        }
    }
    assert_eq!(attempts, 5);
}

#[test]
fn sides_combine() {
    assert_eq!(combine_sides(None, None), Ok(SettleOutcome::Settled));
    assert_eq!(
        combine_sides(Some(SettlementError::StorageConflict), None),
        Err(SideErrors { buyer: Some(SettlementError::StorageConflict), seller: None })
    );
    assert_eq!(
        combine_sides(None, Some(SettlementError::Overflow)),
        Err(SideErrors { buyer: None, seller: Some(SettlementError::Overflow) })
    );
}

#[test]
fn stale_write_is_refused_and_retry_keeps_both_fills() {
    let mut store = PortfolioStore::new();
    store.insert("bob".to_string(), empty_portfolio("pb".to_string())).unwrap();
    let uid = "bob".to_string();
    let sym = "ACME".to_string();
    // two writers read the same version
    let (pa, va) = store.get(&uid).unwrap();
    let (pb, vb) = store.get(&uid).unwrap();
    assert_eq!(va, vb);
    let from_b = buy_fill(&pb, &sym, 3, 10).unwrap();
    assert_eq!(store.compare_and_set(&uid, from_b, vb), Ok(()));
    let stale = buy_fill(&pa, &sym, 2, 20).unwrap();
    assert_eq!(store.compare_and_set(&uid, stale, va), Err(StoreError::Conflict));
    // writer A reads again and recomputes
    let (pa2, va2) = store.get(&uid).unwrap();
    assert_eq!(va2, va + 1);
    let fresh = buy_fill(&pa2, &sym, 2, 20).unwrap();
    assert_eq!(store.compare_and_set(&uid, fresh, va2), Ok(()));
    let (last, v) = store.get(&uid).unwrap();
    assert_eq!(v, 2);
    assert_eq!(shares(&last), 5);
    assert_eq!(last.total_money, -70);
}

#[test]
fn store_errors() {
    let mut store = PortfolioStore::new();
    let uid = "x".to_string();
    assert_eq!(store.compare_and_set(&uid, empty_portfolio("p".to_string()), 0), Err(StoreError::NotFound));
    assert!(store.get(&uid).is_none());
    assert_eq!(store.insert(uid.clone(), empty_portfolio("p".to_string())), Ok(()));
    assert_eq!(store.insert(uid.clone(), empty_portfolio("q".to_string())), Err(StoreError::AlreadyExists));
    let (p, _) = store.get(&uid).unwrap();
    assert_eq!(p.portfolio_id, "p");
}

#[test]
fn trade_history_is_appended() {
    let mut store = PortfolioStore::new();
    store.append_trade_history(trade(1, 2, 1, 1));
    store.append_trade_history(trade(3, 4, 1, 1));
    assert_eq!(store.history.len(), 2);
    assert_eq!(store.history[1].buy_order_id, 3);
}
