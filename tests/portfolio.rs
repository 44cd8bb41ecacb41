use trade_engine::portfolio::{
    buy_fill, empty_portfolio, find_holding, notional_of, refresh_diversity, sell_fill, Asset, Portfolio,
    SettlementError, CASH_LIMIT, MAX_HOLDINGS,
};

fn holding(symbol: &str, shares: u64, avg: u32, mv: u128) -> Asset {
    Asset { symbol: symbol.to_string(), shares, market_value: mv, average_cost: avg, portfolio_diversity: 0 }
}

fn acme() -> String {
    "ACME".to_string()
}

#[test]
fn first_buy_into_empty_portfolio() {
    let p = empty_portfolio("p".to_string());
    let q = buy_fill(&p, &acme(), 10, 5).unwrap();
    assert_eq!(q.assets.len(), 1);
    let a = &q.assets[0];
    assert_eq!(a.symbol, "ACME");
    assert_eq!(a.shares, 10);
    assert_eq!(a.average_cost, 5);
    assert_eq!(a.market_value, 50);
    assert_eq!(q.total_money, -50);
    // total value is zero, so no share of it is reported
    assert_eq!(a.portfolio_diversity, 0);
    assert_eq!(q.portfolio_id, "p");
}

#[test]
fn selling_whole_holding_removes_it() {
    let p = Portfolio { portfolio_id: "s".to_string(), total_money: 0, assets: vec![holding("ACME", 10, 5, 50)] };
    let q = sell_fill(&p, &acme(), 10, 6).unwrap();
    assert!(q.assets.is_empty());
    assert_eq!(q.total_money, 60);
}

#[test]
fn weighted_average_cost() {
    let p = Portfolio { portfolio_id: "p".to_string(), total_money: 1000, assets: vec![holding("ACME", 10, 5, 50)] };
    let q = buy_fill(&p, &acme(), 10, 8).unwrap();
    let a = &q.assets[0];
    assert_eq!(a.shares, 20);
    // (10*5 + 10*8) / 20 = 6.5, kept in whole price units
    assert_eq!(a.average_cost, 6);
    assert_eq!(a.market_value, 160);
    assert_eq!(q.total_money, 920);
}

#[test]
fn partial_sell_keeps_average_cost() {
    let p = Portfolio { portfolio_id: "p".to_string(), total_money: 0, assets: vec![holding("ACME", 10, 5, 50)] };
    let q = sell_fill(&p, &acme(), 4, 7).unwrap();
    let a = &q.assets[0];
    assert_eq!(a.shares, 6);
    assert_eq!(a.average_cost, 5);
    assert_eq!(a.market_value, 42);
    assert_eq!(q.total_money, 28);
}

#[test]
fn diversity_in_basis_points() {
    let p = Portfolio {
        portfolio_id: "p".to_string(),
        total_money: 100,
        assets: vec![holding("XYZ", 1, 50, 50)],
    };
    let q = buy_fill(&p, &acme(), 10, 5).unwrap();
    // cash 50, XYZ worth 50, ACME worth 50: total 150
    assert_eq!(q.total_money, 50);
    assert_eq!(q.assets.len(), 2);
    assert_eq!(q.assets[0].symbol, "XYZ");
    assert_eq!(q.assets[0].portfolio_diversity, 3333);
    assert_eq!(q.assets[1].symbol, "ACME");
    assert_eq!(q.assets[1].portfolio_diversity, 3333);
}

#[test]
fn refresh_against_total_value() {
    let assets = vec![holding("A", 1, 1, 30), holding("B", 1, 1, 10)];
    let r = refresh_diversity(&assets, 60);
    assert_eq!(r[0].portfolio_diversity, 3000);
    assert_eq!(r[1].portfolio_diversity, 1000);
    let r = refresh_diversity(&assets, -40);
    assert_eq!(r[0].portfolio_diversity, 0);
    assert_eq!(r[1].portfolio_diversity, 0);
}

#[test]
fn sell_without_holding_fails() {
    let p = empty_portfolio("p".to_string());
    assert_eq!(sell_fill(&p, &acme(), 1, 5).err(), Some(SettlementError::InsufficientHoldings));
}

#[test]
fn sell_more_than_held_fails() {
    let p = Portfolio { portfolio_id: "p".to_string(), total_money: 0, assets: vec![holding("ACME", 3, 5, 15)] };
    assert_eq!(sell_fill(&p, &acme(), 4, 5).err(), Some(SettlementError::InsufficientHoldings));
}

#[test]
fn buy_beyond_cash_bound_fails() {
    let p = Portfolio { portfolio_id: "p".to_string(), total_money: -CASH_LIMIT, assets: vec![] };
    assert_eq!(buy_fill(&p, &acme(), 1, 1).err(), Some(SettlementError::Overflow));
}

#[test]
fn sell_beyond_cash_bound_fails() {
    let p = Portfolio {
        portfolio_id: "p".to_string(),
        total_money: CASH_LIMIT,
        assets: vec![holding("ACME", 3, 5, 15)],
    };
    assert_eq!(sell_fill(&p, &acme(), 1, 1).err(), Some(SettlementError::Overflow));
}

#[test]
fn shares_beyond_u64_fail() {
    let p = Portfolio { portfolio_id: "p".to_string(), total_money: 0, assets: vec![holding("ACME", u64::MAX, 1, 1)] };
    assert_eq!(buy_fill(&p, &acme(), 1, 1).err(), Some(SettlementError::Overflow));
}

#[test]
fn too_many_holdings_fail() {
    let assets: Vec<Asset> = (0..MAX_HOLDINGS).map(|i| holding(&format!("S{}", i), 1, 1, 1)).collect();
    let p = Portfolio { portfolio_id: "p".to_string(), total_money: 0, assets };
    assert_eq!(buy_fill(&p, &acme(), 1, 1).err(), Some(SettlementError::Overflow));
    assert!(buy_fill(&p, &"S7".to_string(), 1, 1).is_ok());
}

#[test]
fn holdings_are_found_by_symbol() {
    let assets = vec![holding("A", 1, 1, 1), holding("B", 2, 1, 2)];
    assert_eq!(find_holding(&assets, &"B".to_string()), Some(1));
    assert_eq!(find_holding(&assets, &"C".to_string()), None);
}

#[test]
fn notional_is_quantity_times_price() {
    assert_eq!(notional_of(10, 5), 50);
    assert_eq!(notional_of(u32::MAX, u32::MAX), (u32::MAX as u128) * (u32::MAX as u128));
}
