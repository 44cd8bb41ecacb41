use trade_engine::book::{BookError, NewOrder, NotFoundError, OrderBook, Side};
use trade_engine::models::OrderType;

fn order(id: u64, user: &str, side: Side, t: OrderType, price: u32, qty: u32) -> NewOrder {
    NewOrder {
        order_id: id,
        user_id: user.to_string(),
        symbol: "ACME".to_string(),
        side,
        order_type: t,
        price,
        quantity: qty,
    }
}

fn book() -> OrderBook {
    OrderBook::new("ACME".to_string())
}

#[test]
fn equal_prices_fill_in_arrival_order() {
    let mut b = book();
    // A, B at 10 and C at 11, arriving in that order
    b.submit(order(1, "a", Side::Sell, OrderType::Limit, 10, 5)).unwrap();
    b.submit(order(2, "b", Side::Sell, OrderType::Limit, 10, 5)).unwrap();
    b.submit(order(3, "c", Side::Sell, OrderType::Limit, 11, 5)).unwrap();
    let (trades, residual) = b.submit(order(4, "t", Side::Buy, OrderType::Limit, 11, 10)).unwrap();
    assert!(residual.is_none());
    assert_eq!(trades.len(), 2);
    assert_eq!(trades[0].sell_order_id, 1);
    assert_eq!(trades[1].sell_order_id, 2);
    assert_eq!(trades[0].quantity, 5);
    assert_eq!(trades[1].quantity, 5);
    assert_eq!(b.asks.len(), 1);
    assert_eq!(b.asks[0].order_id, 3);
}

#[test]
fn trade_price_is_the_resting_price() {
    let mut b = book();
    b.submit(order(1, "s", Side::Sell, OrderType::Limit, 10, 4)).unwrap();
    let (trades, _) = b.submit(order(2, "t", Side::Buy, OrderType::Limit, 12, 4)).unwrap();
    assert_eq!(trades.len(), 1);
    assert_eq!(trades[0].price, 10);
    assert_eq!(trades[0].buy_order_id, 2);
    assert_eq!(trades[0].sell_order_id, 1);
    assert_eq!(trades[0].buyer_id, "t");
    assert_eq!(trades[0].seller_id, "s");
    assert_eq!(trades[0].symbol, "ACME");
}

#[test]
fn sell_taker_trades_at_resting_bid() {
    let mut b = book();
    b.submit(order(1, "b", Side::Buy, OrderType::Limit, 15, 4)).unwrap();
    let (trades, _) = b.submit(order(2, "s", Side::Sell, OrderType::Limit, 11, 3)).unwrap();
    assert_eq!(trades[0].price, 15);
    assert_eq!(trades[0].buy_order_id, 1);
    assert_eq!(trades[0].sell_order_id, 2);
    assert_eq!(b.bids[0].remaining_quantity, 1);
}

#[test]
fn no_overfill_of_either_side() {
    let mut b = book();
    b.submit(order(1, "a", Side::Sell, OrderType::Limit, 10, 3)).unwrap();
    b.submit(order(2, "b", Side::Sell, OrderType::Limit, 11, 4)).unwrap();
    let (trades, residual) = b.submit(order(3, "t", Side::Buy, OrderType::Limit, 11, 5)).unwrap();
    let total: u32 = trades.iter().map(|t| t.quantity).sum();
    assert_eq!(total, 5);
    assert_eq!(trades[0].quantity, 3);
    assert_eq!(trades[1].quantity, 2);
    assert!(residual.is_none());
    assert_eq!(b.asks.len(), 1);
    assert_eq!(b.asks[0].remaining_quantity, 2);
    assert_eq!(b.asks[0].original_quantity, 4);
}

#[test]
fn unmatched_limit_remainder_rests() {
    let mut b = book();
    b.submit(order(1, "a", Side::Sell, OrderType::Limit, 10, 2)).unwrap();
    let (trades, residual) = b.submit(order(2, "t", Side::Buy, OrderType::Limit, 10, 5)).unwrap();
    assert_eq!(trades.len(), 1);
    let r = residual.unwrap();
    assert_eq!(r.order_id, 2);
    assert_eq!(r.remaining_quantity, 3);
    assert_eq!(r.original_quantity, 5);
    assert!(b.asks.is_empty());
    assert_eq!(b.bids.len(), 1);
    assert_eq!(b.bids[0].order_id, 2);
}

#[test]
fn limit_does_not_cross_worse_price() {
    let mut b = book();
    b.submit(order(1, "a", Side::Sell, OrderType::Limit, 12, 2)).unwrap();
    let (trades, residual) = b.submit(order(2, "t", Side::Buy, OrderType::Limit, 11, 2)).unwrap();
    assert!(trades.is_empty());
    assert!(residual.is_some());
    assert_eq!(b.asks.len(), 1);
    assert_eq!(b.bids.len(), 1);
}

#[test]
fn market_order_never_rests() {
    let mut b = book();
    b.submit(order(1, "a", Side::Sell, OrderType::Limit, 10, 2)).unwrap();
    b.submit(order(2, "b", Side::Sell, OrderType::Limit, 50, 2)).unwrap();
    let (trades, residual) = b.submit(order(3, "t", Side::Buy, OrderType::Market, 0, 10)).unwrap();
    assert_eq!(trades.len(), 2);
    assert_eq!(trades[0].price, 10);
    assert_eq!(trades[1].price, 50);
    assert!(residual.is_none());
    assert!(b.asks.is_empty());
    assert!(b.bids.is_empty());
}

#[test]
fn market_order_on_empty_book() {
    let mut b = book();
    let (trades, residual) = b.submit(order(1, "t", Side::Sell, OrderType::Market, 0, 10)).unwrap();
    assert!(trades.is_empty());
    assert!(residual.is_none());
    assert!(b.bids.is_empty() && b.asks.is_empty());
}

#[test]
fn bids_kept_in_price_then_time_order() {
    let mut b = book();
    b.submit(order(1, "a", Side::Buy, OrderType::Limit, 10, 1)).unwrap();
    b.submit(order(2, "b", Side::Buy, OrderType::Limit, 12, 1)).unwrap();
    b.submit(order(3, "c", Side::Buy, OrderType::Stop, 10, 1)).unwrap();
    b.submit(order(4, "d", Side::Buy, OrderType::Limit, 11, 1)).unwrap();
    let ids: Vec<u64> = b.bids.iter().map(|o| o.order_id).collect();
    assert_eq!(ids, vec![2, 4, 1, 3]);
    let (bids, asks) = b.snapshot();
    assert_eq!(bids.len(), 4);
    assert!(asks.is_empty());
}

#[test]
fn asks_kept_in_price_then_time_order() {
    let mut b = book();
    b.submit(order(1, "a", Side::Sell, OrderType::Limit, 10, 1)).unwrap();
    b.submit(order(2, "b", Side::Sell, OrderType::Limit, 9, 1)).unwrap();
    b.submit(order(3, "c", Side::Sell, OrderType::Limit, 10, 1)).unwrap();
    let ids: Vec<u64> = b.asks.iter().map(|o| o.order_id).collect();
    assert_eq!(ids, vec![2, 1, 3]);
}

#[test]
fn invalid_orders_are_rejected() {
    let mut b = book();
    assert_eq!(b.submit(order(1, "a", Side::Buy, OrderType::Limit, 10, 0)).err(), Some(BookError::InvalidOrder));
    assert_eq!(b.submit(order(2, "a", Side::Buy, OrderType::Limit, 0, 5)).err(), Some(BookError::InvalidOrder));
    let mut other = order(3, "a", Side::Buy, OrderType::Limit, 10, 5);
    other.symbol = "XYZ".to_string();
    assert_eq!(b.submit(other).err(), Some(BookError::InvalidOrder));
    assert!(b.bids.is_empty());
    assert_eq!(b.next_arrival, 0);
}

#[test]
fn duplicate_order_id_is_rejected() {
    let mut b = book();
    b.submit(order(1, "a", Side::Buy, OrderType::Limit, 10, 5)).unwrap();
    assert_eq!(b.submit(order(1, "a", Side::Sell, OrderType::Limit, 20, 5)).err(), Some(BookError::DuplicateOrder));
    assert_eq!(b.bids.len(), 1);
    assert!(b.asks.is_empty());
}

#[test]
fn arrivals_exhausted() {
    let mut b = book();
    b.next_arrival = u64::MAX;
    assert_eq!(b.submit(order(1, "a", Side::Buy, OrderType::Limit, 10, 5)).err(), Some(BookError::ArrivalsExhausted));
}

#[test]
fn cancel_removes_then_reports_not_found() {
    let mut b = book();
    b.submit(order(1, "a", Side::Buy, OrderType::Limit, 10, 5)).unwrap();
    b.submit(order(2, "b", Side::Sell, OrderType::Limit, 20, 5)).unwrap();
    assert!(b.contains(2));
    assert_eq!(b.cancel(2), Ok(()));
    assert!(!b.contains(2));
    assert_eq!(b.cancel(2), Err(NotFoundError));
    assert_eq!(b.cancel(99), Err(NotFoundError));
    assert_eq!(b.bids.len(), 1);
    assert_eq!(b.cancel(1), Ok(()));
    assert!(b.bids.is_empty());
}

#[test]
fn fills_over_a_run_never_exceed_quantities() {
    let mut b = book();
    let orders = vec![
        order(1, "a", Side::Sell, OrderType::Limit, 10, 5),
        order(2, "b", Side::Sell, OrderType::Limit, 11, 4),
        order(3, "c", Side::Buy, OrderType::Limit, 10, 3),
        order(4, "d", Side::Buy, OrderType::Limit, 12, 4),
        order(5, "e", Side::Sell, OrderType::Limit, 9, 6),
        order(6, "f", Side::Buy, OrderType::Market, 0, 10),
    ];
    let quantities: Vec<(u64, u32)> = orders.iter().map(|o| (o.order_id, o.quantity)).collect();
    let mut all = Vec::new();
    for o in orders {
        let (trades, _) = b.submit(o).unwrap();
        all.extend(trades);
    }
    let filled = |id: u64| -> u32 {
        all.iter().filter(|t| t.buy_order_id == id || t.sell_order_id == id).map(|t| t.quantity).sum()
    };
    for (id, q) in &quantities {
        assert!(filled(*id) <= *q);
    }
    assert_eq!(filled(1), 5);
    assert_eq!(filled(3), 3);
    for r in b.bids.iter().chain(b.asks.iter()) {
        assert_eq!(r.remaining_quantity, r.original_quantity - filled(r.order_id));
    }
}
