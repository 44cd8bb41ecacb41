use trade_engine::models::{
    bearer_token, new_user_state, validate_request, order_record, record_placed_order, OrderRequest, OrderType,
};
use trade_engine::portfolio::empty_portfolio;

#[test]
fn order_type_names() {
    assert_eq!(OrderType::Limit.as_str(), "limit");
    assert_eq!(OrderType::Market.as_str(), "market");
    assert_eq!(OrderType::Stop.as_str(), "stop");
}

#[test]
fn order_type_parses_its_names() {
    assert_eq!(OrderType::from_str("limit"), Some(OrderType::Limit));
    assert_eq!(OrderType::from_str("market"), Some(OrderType::Market));
    assert_eq!(OrderType::from_str("stop"), Some(OrderType::Stop));
}

#[test]
fn order_type_rejects_other_text() {
    assert_eq!(OrderType::from_str("Limit"), None);
    assert_eq!(OrderType::from_str(""), None);
    assert_eq!(OrderType::from_str("limits"), None);
    assert_eq!(OrderType::from_str("stp"), None);
}

#[test]
fn order_type_round_trips() {
    for t in [OrderType::Limit, OrderType::Market, OrderType::Stop] {
        assert_eq!(OrderType::from_str(t.as_str()), Some(t));
    }
}

#[test]
fn contract_codes() {
    assert_eq!(OrderType::Limit.contract_code(), 0);
    assert_eq!(OrderType::Market.contract_code(), 1);
    assert_eq!(OrderType::Stop.contract_code(), 2);
}

#[test]
fn bearer_prefix_is_removed() {
    assert_eq!(bearer_token("Bearer abc.def"), "abc.def");
    assert_eq!(bearer_token("Bearer Bearer tok"), "tok");
    assert_eq!(bearer_token("token"), "token");
    assert_eq!(bearer_token("Bearer"), "Bearer");
    assert_eq!(bearer_token("Bearer "), "");
    assert_eq!(bearer_token("bearer x"), "bearer x");
}

#[test]
fn order_record_from_request() {
    let req = OrderRequest { symbol: "ACME".to_string(), quantity: 7, price: 12, order_type: OrderType::Market };
    let o = order_record("o-1".to_string(), "u-1".to_string(), &req);
    assert_eq!(o.order_id, "o-1");
    assert_eq!(o.user_id, "u-1");
    assert_eq!(o.symbol, "ACME");
    assert_eq!(o.quantity, 7);
    assert_eq!(o.price, 12);
    assert_eq!(o.order_type, "market");
}

#[test]
fn new_account_and_placed_order() {
    let mut st = new_user_state(
        "u-1".to_string(),
        "alice".to_string(),
        "hash".to_string(),
        empty_portfolio("p-1".to_string()),
    );
    assert!(st.orders.is_empty());
    assert!(st.transactions.is_empty());
    assert_eq!(st.portfolio.total_money, 0);
    assert!(st.portfolio.assets.is_empty());
    let req = OrderRequest { symbol: "ACME".to_string(), quantity: 3, price: 9, order_type: OrderType::Limit };
    let o = order_record("o-9".to_string(), st.user_id.clone(), &req);
    record_placed_order(&mut st, o, "0xabc".to_string());
    assert_eq!(st.orders.len(), 1);
    assert_eq!(st.orders[0].order_id, "o-9");
    assert_eq!(st.orders[0].order_type, "limit");
    assert_eq!(st.transactions.len(), 1);
    assert_eq!(st.transactions[0].order_id, "o-9");
    assert_eq!(st.transactions[0].transaction_id, "0xabc");
    assert_eq!(st.username, "alice");
}

#[test]
fn requests_are_checked() {
    let ok = OrderRequest { symbol: "ACME".to_string(), quantity: 1, price: 1, order_type: OrderType::Limit };
    assert!(validate_request(&ok));
    let zero_qty = OrderRequest { symbol: "ACME".to_string(), quantity: 0, price: 1, order_type: OrderType::Limit };
    assert!(!validate_request(&zero_qty));
    let zero_price = OrderRequest { symbol: "ACME".to_string(), quantity: 1, price: 0, order_type: OrderType::Stop };
    assert!(!validate_request(&zero_price));
    let market = OrderRequest { symbol: "ACME".to_string(), quantity: 1, price: 0, order_type: OrderType::Market };
    assert!(validate_request(&market));
    let no_symbol = OrderRequest { symbol: String::new(), quantity: 1, price: 1, order_type: OrderType::Limit };
    assert!(!validate_request(&no_symbol));
}
