use trade_engine::book::{BookError, NewOrder, NotFoundError, Side};
use trade_engine::models::OrderType;
use trade_engine::portfolio::{empty_portfolio, Asset, Portfolio, SettlementError};
use trade_engine::settlement::{SettleOutcome, SideErrors};
use trade_engine::store::PortfolioStore;
use trade_engine::venue::Venue;

fn order(id: u64, user: &str, side: Side, price: u32, qty: u32) -> NewOrder {
    NewOrder {
        order_id: id,
        user_id: user.to_string(),
        symbol: "ACME".to_string(),
        side,
        order_type: OrderType::Limit,
        price,
        quantity: qty,
    }
}

fn venue() -> Venue {
    let mut store = PortfolioStore::new();
    store.insert("bob".to_string(), empty_portfolio("pb".to_string())).unwrap();
    let seller = Portfolio {
        portfolio_id: "ps".to_string(),
        total_money: 0,
        assets: vec![Asset {
            symbol: "ACME".to_string(),
            shares: 10,
            market_value: 50,
            average_cost: 5,
            portfolio_diversity: 0,
        }],
    };
    store.insert("sue".to_string(), seller).unwrap();
    Venue::new("ACME".to_string(), store)
}

#[test]
fn matched_order_is_settled() {
    let mut v = venue();
    let rep = v.submit_order(order(1, "sue", Side::Sell, 6, 10)).unwrap();
    assert!(rep.trades.is_empty());
    assert!(rep.residual.is_some());
    let rep = v.submit_order(order(2, "bob", Side::Buy, 7, 10)).unwrap();
    assert_eq!(rep.trades.len(), 1);
    assert_eq!(rep.trades[0].price, 6);
    assert_eq!(rep.settlements, vec![Ok(SettleOutcome::Settled)]);
    let (b, _) = v.settlement.store.get(&"bob".to_string()).unwrap();
    let (s, _) = v.settlement.store.get(&"sue".to_string()).unwrap();
    assert_eq!(b.total_money, -60);
    assert_eq!(b.assets[0].shares, 10);
    assert_eq!(b.assets[0].average_cost, 6);
    assert_eq!(s.total_money, 60);
    assert!(s.assets.is_empty());
    let (bids, asks) = v.order_book_snapshot();
    assert!(bids.is_empty() && asks.is_empty());
}

#[test]
fn settlement_failure_is_reported_per_trade() {
    let mut v = venue();
    v.submit_order(order(1, "bob", Side::Sell, 6, 3)).unwrap();
    let rep = v.submit_order(order(2, "sue", Side::Buy, 6, 3)).unwrap();
    assert_eq!(rep.trades.len(), 1);
    // bob holds no ACME to deliver
    assert_eq!(
        rep.settlements,
        vec![Err(SideErrors { buyer: None, seller: Some(SettlementError::InsufficientHoldings) })]
    );
}

#[test]
fn rejected_order_touches_nothing() {
    let mut v = venue();
    assert_eq!(v.submit_order(order(1, "bob", Side::Buy, 6, 0)).err().map(|_| ()), Some(()));
    assert!(matches!(v.submit_order(order(1, "bob", Side::Buy, 0, 1)), Err(BookError::InvalidOrder)));
    assert!(v.settlement.processed.is_empty());
    assert!(v.book.bids.is_empty());
}

#[test]
fn cancel_through_venue() {
    let mut v = venue();
    v.submit_order(order(1, "bob", Side::Buy, 6, 3)).unwrap();
    v.submit_order(order(2, "bob", Side::Buy, 5, 3)).unwrap();
    v.submit_order(order(3, "sue", Side::Sell, 9, 3)).unwrap();
    assert_eq!(v.cancel_order(1), Ok(()));
    assert_eq!(v.cancel_order(1), Err(NotFoundError));
    let (bids, asks) = v.order_book_snapshot();
    assert_eq!(bids.len(), 1);
    assert_eq!(bids[0].order_id, 2);
    assert_eq!(asks.len(), 1);
    assert_eq!(asks[0].order_id, 3);
}
