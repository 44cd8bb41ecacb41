//! Portfolios and the effect of a fill on each side of a trade.
//!
//! Money and prices are integers in the ledger's price unit. The average cost
//! of a holding is rounded down to that unit, and the diversity of a holding
//! (its share of the portfolio's total value) is kept in basis points.
use vstd::prelude::*;

verus! {

/// Bound on the absolute cash balance of a portfolio (2^120).
pub const CASH_LIMIT: i128 = 1329227995784915872903807060280344576;

/// Bound on the market value of one holding (2^96): shares fit in `u64`,
/// prices in `u32`.
pub const MARKET_VALUE_LIMIT: u128 = 79228162514264337593543950336;

/// Most holdings a portfolio keeps (2^16). The total value of a portfolio,
/// its cash plus the market value of every holding, is computed in `i128`:
/// with cash within `CASH_LIMIT` and each holding within
/// `MARKET_VALUE_LIMIT`, this bound keeps that sum below 2^121.
pub const MAX_HOLDINGS: usize = 65536;

/// Basis points in a whole.
pub const DIVERSITY_SCALE: u128 = 10000;

/// One position of a portfolio.
pub struct Asset {
    pub symbol: String,
    pub shares: u64,
    pub market_value: u128,
    pub average_cost: u32,
    pub portfolio_diversity: u128,
}

pub struct Portfolio {
    pub portfolio_id: String,
    pub total_money: i128,
    pub assets: Vec<Asset>,
}

#[derive(Clone, Copy, Debug, PartialEq, Eq, Structural)]
pub enum SettlementError {
    /// No portfolio is stored for the user.
    PortfolioNotFound,
    /// The seller does not hold the shares the trade sold.
    InsufficientHoldings,
    /// The stored portfolio kept changing under every attempt.
    StorageConflict,
    /// The fill would take a balance or a holding beyond the bounds a portfolio keeps.
    Overflow,
}

pub open spec fn unique_symbols(assets: Seq<Asset>) -> bool {
    forall|i: int, j: int|
        0 <= i < j < assets.len() ==> (#[trigger] assets[i]).symbol@ != (#[trigger] assets[j]).symbol@
}

pub open spec fn holding_ok(a: Asset) -> bool {
    a.shares > 0 && a.market_value <= MARKET_VALUE_LIMIT
}

impl Portfolio {
    pub open spec fn wf(&self) -> bool {
        &&& unique_symbols(self.assets@)
        &&& self.assets@.len() <= MAX_HOLDINGS
        &&& forall|i: int| 0 <= i < self.assets@.len() ==> holding_ok(#[trigger] self.assets@[i])
        &&& -CASH_LIMIT <= self.total_money <= CASH_LIMIT
    }
}

pub open spec fn holds(assets: Seq<Asset>, sym: Seq<char>) -> bool {
    exists|i: int| 0 <= i < assets.len() && (#[trigger] assets[i]).symbol@ == sym
}

/// Where the holding of `sym` stands, or -1.
pub open spec fn holding_index(assets: Seq<Asset>, sym: Seq<char>) -> int {
    if holds(assets, sym) {
        choose|i: int| 0 <= i < assets.len() && (#[trigger] assets[i]).symbol@ == sym
    } else {
        -1
    }
}

/// Shares of `sym` held, zero where there is no holding.
pub open spec fn shares_of(assets: Seq<Asset>, sym: Seq<char>) -> int {
    let i = holding_index(assets, sym);
    if i >= 0 {
        assets[i].shares as int
    } else {
        0
    }
}

pub open spec fn notional(quantity: u32, price: u32) -> int {
    quantity as int * price as int
}

pub open spec fn sum_market_value(assets: Seq<Asset>) -> int
    decreases assets.len(),
{
    if assets.len() == 0 {
        0
    } else {
        sum_market_value(assets.drop_last()) + assets.last().market_value
    }
}

pub open spec fn total_value(cash: int, assets: Seq<Asset>) -> int {
    cash + sum_market_value(assets)
}

/// A holding's share of the total value in basis points; zero when the
/// total is not positive.
pub open spec fn diversity_of(market_value: int, total: int) -> int {
    if total > 0 {
        market_value * DIVERSITY_SCALE / total
    } else {
        0
    }
}

pub open spec fn with_diversity(a: Asset, d: int) -> Asset {
    Asset {
        symbol: a.symbol,
        shares: a.shares,
        market_value: a.market_value,
        average_cost: a.average_cost,
        portfolio_diversity: d as u128,
    }
}

/// Every holding with its diversity recomputed against the whole portfolio.
pub open spec fn refreshed(assets: Seq<Asset>, cash: int) -> Seq<Asset> {
    Seq::new(
        assets.len(),
        |i: int| with_diversity(assets[i], diversity_of(assets[i].market_value as int, total_value(cash, assets))),
    )
}

pub open spec fn empty_holding(symbol: String) -> Asset {
    Asset { symbol, shares: 0, market_value: 0, average_cost: 0, portfolio_diversity: 0 }
}

/// A holding after buying `quantity` at `price`: weighted average cost, and
/// market value at the trade price.
pub open spec fn bought_holding(a: Asset, quantity: u32, price: u32) -> Asset {
    let shares = a.shares + quantity;
    Asset {
        symbol: a.symbol,
        shares: shares as u64,
        market_value: (shares * price) as u128,
        average_cost: ((a.shares * a.average_cost + notional(quantity, price)) / shares) as u32,
        portfolio_diversity: a.portfolio_diversity,
    }
}

/// A holding after selling `quantity` at `price`; the average cost stays.
pub open spec fn sold_holding(a: Asset, quantity: u32, price: u32) -> Asset {
    let shares = a.shares - quantity;
    Asset {
        symbol: a.symbol,
        shares: shares as u64,
        market_value: (shares * price) as u128,
        average_cost: a.average_cost,
        portfolio_diversity: a.portfolio_diversity,
    }
}

pub open spec fn assets_after_buy(assets: Seq<Asset>, symbol: String, quantity: u32, price: u32) -> Seq<
    Asset,
> {
    let i = holding_index(assets, symbol@);
    if i >= 0 {
        assets.update(i, bought_holding(assets[i], quantity, price))
    } else {
        assets.push(bought_holding(empty_holding(symbol), quantity, price))
    }
}

pub open spec fn assets_after_sell(assets: Seq<Asset>, symbol: Seq<char>, quantity: u32, price: u32) -> Seq<
    Asset,
> {
    let i = holding_index(assets, symbol);
    if assets[i].shares == quantity {
        assets.remove(i)
    } else {
        assets.update(i, sold_holding(assets[i], quantity, price))
    }
}

/// Whether a buy fill keeps the portfolio within its bounds.
pub open spec fn buy_fits_at(p: Portfolio, symbol: Seq<char>, quantity: u32, price: u32) -> bool {
    let i = holding_index(p.assets@, symbol);
    &&& (i >= 0 ==> p.assets@[i].shares + quantity <= u64::MAX)
    &&& (i < 0 ==> p.assets@.len() < MAX_HOLDINGS)
    &&& p.total_money - notional(quantity, price) >= -CASH_LIMIT
}

/// Whether `q` is the buyer's portfolio `p` after a fill: cash debited by the
/// notional, the holding bought into, every diversity recomputed.
pub open spec fn is_after_buy(p: Portfolio, q: Portfolio, symbol: String, quantity: u32, price: u32) -> bool {
    let cash = p.total_money - notional(quantity, price);
    &&& q.portfolio_id == p.portfolio_id
    &&& q.total_money == cash
    &&& q.assets@ == refreshed(assets_after_buy(p.assets@, symbol, quantity, price), cash)
}

/// Whether the seller holds what a sell fill takes.
pub open spec fn sell_covered(p: Portfolio, symbol: Seq<char>, quantity: u32) -> bool {
    let i = holding_index(p.assets@, symbol);
    i >= 0 && p.assets@[i].shares >= quantity
}

pub open spec fn sell_fits_at(p: Portfolio, quantity: u32, price: u32) -> bool {
    p.total_money + notional(quantity, price) <= CASH_LIMIT
}

/// Whether `q` is the seller's portfolio `p` after a fill: cash credited by
/// the notional, the holding sold from (and dropped once empty), every
/// diversity recomputed.
pub open spec fn is_after_sell(p: Portfolio, q: Portfolio, symbol: Seq<char>, quantity: u32, price: u32) -> bool {
    let cash = p.total_money + notional(quantity, price);
    &&& q.portfolio_id == p.portfolio_id
    &&& q.total_money == cash
    &&& q.assets@ == refreshed(assets_after_sell(p.assets@, symbol, quantity, price), cash)
}

proof fn lemma_index_is(assets: Seq<Asset>, sym: Seq<char>, i: int)
    requires
        unique_symbols(assets),
        0 <= i < assets.len(),
        assets[i].symbol@ == sym,
    ensures
        holding_index(assets, sym) == i,
{
    assert(holds(assets, sym));
    let j = holding_index(assets, sym);
    if j < i {
        assert(assets[j].symbol@ != assets[i].symbol@);
    } else if j > i {
        assert(assets[i].symbol@ != assets[j].symbol@);
    }
}

proof fn lemma_sum_bound(assets: Seq<Asset>)
    requires
        forall|i: int| 0 <= i < assets.len() ==> holding_ok(#[trigger] assets[i]),
    ensures
        0 <= sum_market_value(assets) <= assets.len() * MARKET_VALUE_LIMIT,
    decreases assets.len(),
{
    if assets.len() > 0 {
        let d = assets.drop_last();
        assert forall|i: int| 0 <= i < d.len() implies holding_ok(#[trigger] d[i]) by {
            assert(d[i] == assets[i]);
        }
        lemma_sum_bound(d);
        assert(holding_ok(assets[assets.len() - 1]));
    }
}

proof fn lemma_sum_prefix(assets: Seq<Asset>, i: int)
    requires
        0 <= i < assets.len(),
    ensures
        sum_market_value(assets.subrange(0, i + 1)) == sum_market_value(assets.subrange(0, i))
            + assets[i].market_value,
{
    let s = assets.subrange(0, i + 1);
    assert(s.drop_last() =~= assets.subrange(0, i));
}

pub(crate) fn copy_asset(a: &Asset) -> (r: Asset)
    ensures
        r == *a,
{
    Asset {
        symbol: a.symbol.clone(),
        shares: a.shares,
        market_value: a.market_value,
        average_cost: a.average_cost,
        portfolio_diversity: a.portfolio_diversity,
    }
}

/// Looks up the holding of `symbol`.
pub fn find_holding(assets: &Vec<Asset>, symbol: &String) -> (r: Option<usize>)
    requires
        unique_symbols(assets@),
    ensures
        r matches Some(i) ==> i < assets@.len() && holding_index(assets@, symbol@) == i,
        r is None ==> holding_index(assets@, symbol@) == -1 && !holds(assets@, symbol@),
{
    let mut i: usize = 0;
    while i < assets.len()
        invariant
            unique_symbols(assets@),
            i <= assets@.len(),
            forall|k: int| 0 <= k < i ==> (#[trigger] assets@[k]).symbol@ != symbol@,
        decreases assets@.len() - i,
    {
        if assets[i].symbol.eq(symbol) {
            proof {
                lemma_index_is(assets@, symbol@, i as int);
            }
            return Some(i);
        }
        i = i + 1;
    }
    None
}

/// Recomputes every holding's diversity against the portfolio's total value
/// (cash plus the market value of all holdings).
pub fn refresh_diversity(assets: &Vec<Asset>, cash: i128) -> (r: Vec<Asset>)
    requires
        assets@.len() <= MAX_HOLDINGS,
        forall|i: int| 0 <= i < assets@.len() ==> holding_ok(#[trigger] assets@[i]),
        -CASH_LIMIT <= cash <= CASH_LIMIT,
    ensures
        r@ == refreshed(assets@, cash as int),
{
    let n = assets.len();
    let mut total: i128 = cash;
    let mut i: usize = 0;
    while i < n
        invariant
            n == assets@.len(),
            n <= MAX_HOLDINGS,
            i <= n,
            forall|k: int| 0 <= k < assets@.len() ==> holding_ok(#[trigger] assets@[k]),
            -CASH_LIMIT <= cash <= CASH_LIMIT,
            total == cash + sum_market_value(assets@.subrange(0, i as int)),
            0 <= sum_market_value(assets@.subrange(0, i as int)) <= i * MARKET_VALUE_LIMIT,
        decreases n - i,
    {
        proof {
            lemma_sum_prefix(assets@, i as int);
            assert(holding_ok(assets@[i as int]));
        }
        total = total + assets[i].market_value as i128;
        i = i + 1;
    }
    assert(assets@.subrange(0, n as int) =~= assets@);
    let ghost tv = total_value(cash as int, assets@);
    assert(total == tv);
    let mut out: Vec<Asset> = Vec::new();
    let mut j: usize = 0;
    while j < n
        invariant
            n == assets@.len(),
            j <= n,
            total == tv,
            tv == total_value(cash as int, assets@),
            forall|k: int| 0 <= k < assets@.len() ==> holding_ok(#[trigger] assets@[k]),
            out@.len() == j,
            forall|k: int| 0 <= k < j ==> out@[k] == refreshed(assets@, cash as int)[k],
        decreases n - j,
    {
        let a = &assets[j];
        proof {
            assert(holding_ok(assets@[j as int]));
        }
        let d: u128 = if total > 0 {
            assert(a.market_value * DIVERSITY_SCALE <= MARKET_VALUE_LIMIT * DIVERSITY_SCALE)
                by (nonlinear_arith)
                requires
                    a.market_value <= MARKET_VALUE_LIMIT,
            ;
            let num: u128 = a.market_value * DIVERSITY_SCALE;
            let q: u128 = num / (total as u128);
            assert(q <= num) by (nonlinear_arith)
                requires
                    q == num / (total as u128),
                    total > 0,
            ;
            q
        } else {
            0
        };
        let mut b = copy_asset(a);
        b.portfolio_diversity = d;
        out.push(b);
        j = j + 1;
    }
    assert(out@ =~= refreshed(assets@, cash as int));
    out
}

/// Cash that changes hands in a fill.
pub fn notional_of(quantity: u32, price: u32) -> (r: u128)
    ensures
        r == notional(quantity, price),
        r <= 0xffff_ffff_ffff_ffff,
{
    let q: u128 = quantity as u128;
    let px: u128 = price as u128;
    assert(q * px <= 0xffff_ffff_ffff_ffff) by (nonlinear_arith)
        requires
            q <= 0xffff_ffff,
            px <= 0xffff_ffff,
    ;
    q * px
}

pub(crate) fn copy_assets(v: &Vec<Asset>) -> (r: Vec<Asset>)
    ensures
        r@ == v@,
{
    let mut out: Vec<Asset> = Vec::new();
    let mut i: usize = 0;
    while i < v.len()
        invariant
            i <= v@.len(),
            out@ == v@.subrange(0, i as int),
        decreases v@.len() - i,
    {
        out.push(copy_asset(&v[i]));
        i = i + 1;
        assert(out@ =~= v@.subrange(0, i as int));
    }
    assert(v@.subrange(0, v@.len() as int) =~= v@);
    out
}

fn buy_into(a: &Asset, quantity: u32, price: u32) -> (r: Asset)
    requires
        a.shares + quantity <= u64::MAX,
        quantity > 0,
    ensures
        r == bought_holding(*a, quantity, price),
        holding_ok(r),
{
    let shares: u64 = a.shares + quantity as u64;
    let held: u128 = a.shares as u128;
    let avg: u128 = a.average_cost as u128;
    let q: u128 = quantity as u128;
    let px: u128 = price as u128;
    let m: u128 = 0xffff_ffff;
    assert(held * avg <= held * m && q * px <= q * m && held * m + q * m == (held + q) * m
        && (held + q) * px <= (held + q) * m && (held + q) * m <= 0xffff_ffff_ffff_ffff * m)
        by (nonlinear_arith)
        requires
            avg <= m,
            px <= m,
            held + q <= 0xffff_ffff_ffff_ffff,
    ;
    let cost: u128 = held * avg + q * px;
    let total: u128 = held + q;
    let new_avg: u128 = cost / total;
    assert(new_avg <= m) by (nonlinear_arith)
        requires
            new_avg == cost / total,
            cost <= total * m,
            total > 0,
    ;
    Asset {
        symbol: a.symbol.clone(),
        shares,
        market_value: total * px,
        average_cost: new_avg as u32,
        portfolio_diversity: a.portfolio_diversity,
    }
}

fn sell_from(a: &Asset, quantity: u32, price: u32) -> (r: Asset)
    requires
        a.shares > quantity,
    ensures
        r == sold_holding(*a, quantity, price),
        holding_ok(r),
{
    let shares: u64 = a.shares - quantity as u64;
    let px: u128 = price as u128;
    let s: u128 = shares as u128;
    assert(s * px <= 0xffff_ffff_ffff_ffff * 0xffff_ffff) by (nonlinear_arith)
        requires
            s <= 0xffff_ffff_ffff_ffff,
            px <= 0xffff_ffff,
    ;
    Asset {
        symbol: a.symbol.clone(),
        shares,
        market_value: s * px,
        average_cost: a.average_cost,
        portfolio_diversity: a.portfolio_diversity,
    }
}

proof fn lemma_refreshed_wf(assets: Seq<Asset>, cash: int)
    requires
        unique_symbols(assets),
        forall|i: int| 0 <= i < assets.len() ==> holding_ok(#[trigger] assets[i]),
    ensures
        unique_symbols(refreshed(assets, cash)),
        forall|i: int| 0 <= i < assets.len() ==> holding_ok(#[trigger] refreshed(assets, cash)[i]),
{
    let r = refreshed(assets, cash);
    assert forall|i: int, j: int| 0 <= i < j < r.len() implies (#[trigger] r[i]).symbol@
        != (#[trigger] r[j]).symbol@ by {
        assert(assets[i].symbol@ != assets[j].symbol@);
    }
    assert forall|i: int| 0 <= i < assets.len() implies holding_ok(#[trigger] r[i]) by {
        assert(holding_ok(assets[i]));
    }
}

/// Applies the buyer's side of a fill: `quantity` shares of `symbol` bought at
/// `price`. Fails only when the result would leave the portfolio's bounds.
pub fn buy_fill(p: &Portfolio, symbol: &String, quantity: u32, price: u32) -> (r: Result<
    Portfolio,
    SettlementError,
>)
    requires
        p.wf(),
        quantity > 0,
    ensures
        r is Ok <==> buy_fits_at(*p, symbol@, quantity, price),
        r matches Ok(q) ==> is_after_buy(*p, q, *symbol, quantity, price) && q.wf(),
        r matches Err(e) ==> e == SettlementError::Overflow,
{
    let idx = find_holding(&p.assets, symbol);
    let cost: u128 = notional_of(quantity, price);
    if p.total_money < -CASH_LIMIT + cost as i128 {
        return Err(SettlementError::Overflow);
    }
    let cash: i128 = p.total_money - cost as i128;
    let mut assets = copy_assets(&p.assets);
    match idx {
        Some(i) => {
            if p.assets[i].shares > u64::MAX - quantity as u64 {
                return Err(SettlementError::Overflow);
            }
            let h = buy_into(&p.assets[i], quantity, price);
            assets[i] = h;
            proof {
                let s = assets@;
                assert forall|a: int, b: int| 0 <= a < b < s.len() implies (#[trigger] s[a]).symbol@
                    != (#[trigger] s[b]).symbol@ by {
                    assert(p.assets@[a].symbol@ != p.assets@[b].symbol@);
                }
                assert forall|k: int| 0 <= k < s.len() implies holding_ok(#[trigger] s[k]) by {
                    assert(holding_ok(p.assets@[k]));
                }
            }
        },
        None => {
            if p.assets.len() >= MAX_HOLDINGS {
                return Err(SettlementError::Overflow);
            }
            let fresh = Asset {
                symbol: symbol.clone(),
                shares: 0,
                market_value: 0,
                average_cost: 0,
                portfolio_diversity: 0,
            };
            let h = buy_into(&fresh, quantity, price);
            assets.push(h);
            proof {
                let s = assets@;
                assert forall|a: int, b: int| 0 <= a < b < s.len() implies (#[trigger] s[a]).symbol@
                    != (#[trigger] s[b]).symbol@ by {
                    if b < s.len() - 1 {
                        assert(p.assets@[a].symbol@ != p.assets@[b].symbol@);
                    } else {
                        assert(s[a] == p.assets@[a]);
                    }
                }
                assert forall|k: int| 0 <= k < s.len() implies holding_ok(#[trigger] s[k]) by {
                    if k < s.len() - 1 {
                        assert(holding_ok(p.assets@[k]));
                    }
                }
            }
        },
    }
    assert(assets@ == assets_after_buy(p.assets@, *symbol, quantity, price));
    let refreshed_assets = refresh_diversity(&assets, cash);
    proof {
        lemma_refreshed_wf(assets@, cash as int);
    }
    Ok(Portfolio { portfolio_id: p.portfolio_id.clone(), total_money: cash, assets: refreshed_assets })
}

/// Applies the seller's side of a fill: `quantity` shares of `symbol` sold at
/// `price`. A holding that reaches zero shares is removed.
pub fn sell_fill(p: &Portfolio, symbol: &String, quantity: u32, price: u32) -> (r: Result<
    Portfolio,
    SettlementError,
>)
    requires
        p.wf(),
        quantity > 0,
    ensures
        r matches Err(SettlementError::InsufficientHoldings) <==> !sell_covered(*p, symbol@, quantity),
        r matches Err(SettlementError::Overflow) <==> sell_covered(*p, symbol@, quantity) && !sell_fits_at(
            *p,
            quantity,
            price,
        ),
        r matches Err(e) ==> e == SettlementError::InsufficientHoldings || e == SettlementError::Overflow,
        r matches Ok(q) ==> is_after_sell(*p, q, symbol@, quantity, price) && q.wf(),
{
    let idx = find_holding(&p.assets, symbol);
    let i = match idx {
        Some(i) => i,
        None => {
            return Err(SettlementError::InsufficientHoldings);
        },
    };
    if p.assets[i].shares < quantity as u64 {
        return Err(SettlementError::InsufficientHoldings);
    }
    let cost: u128 = notional_of(quantity, price);
    if p.total_money > CASH_LIMIT - cost as i128 {
        return Err(SettlementError::Overflow);
    }
    let cash: i128 = p.total_money + cost as i128;
    let mut assets = copy_assets(&p.assets);
    if p.assets[i].shares == quantity as u64 {
        assets.remove(i);
        proof {
            let s = assets@;
            assert forall|a: int, b: int| 0 <= a < b < s.len() implies (#[trigger] s[a]).symbol@
                != (#[trigger] s[b]).symbol@ by {
                if a < i {
                    if b < i {
                        assert(p.assets@[a].symbol@ != p.assets@[b].symbol@);
                    } else {
                        assert(p.assets@[a].symbol@ != p.assets@[b + 1].symbol@);
                    }
                } else {
                    assert(p.assets@[a + 1].symbol@ != p.assets@[b + 1].symbol@);
                }
            }
            assert forall|k: int| 0 <= k < s.len() implies holding_ok(#[trigger] s[k]) by {
                if k < i {
                    assert(holding_ok(p.assets@[k]));
                } else {
                    assert(holding_ok(p.assets@[k + 1]));
                }
            }
        }
    } else {
        let h = sell_from(&p.assets[i], quantity, price);
        assets[i] = h;
        proof {
            let s = assets@;
            assert forall|a: int, b: int| 0 <= a < b < s.len() implies (#[trigger] s[a]).symbol@
                != (#[trigger] s[b]).symbol@ by {
                assert(p.assets@[a].symbol@ != p.assets@[b].symbol@);
            }
            assert forall|k: int| 0 <= k < s.len() implies holding_ok(#[trigger] s[k]) by {
                assert(holding_ok(p.assets@[k]));
            }
        }
    }
    assert(assets@ == assets_after_sell(p.assets@, symbol@, quantity, price));
    let refreshed_assets = refresh_diversity(&assets, cash);
    proof {
        lemma_refreshed_wf(assets@, cash as int);
    }
    Ok(Portfolio { portfolio_id: p.portfolio_id.clone(), total_money: cash, assets: refreshed_assets })
}

proof fn lemma_unique_update(assets: Seq<Asset>, i: int, h: Asset)
    requires
        unique_symbols(assets),
        0 <= i < assets.len(),
        h.symbol@ == assets[i].symbol@,
    ensures
        unique_symbols(assets.update(i, h)),
{
    let s = assets.update(i, h);
    assert forall|a: int, b: int| 0 <= a < b < s.len() implies (#[trigger] s[a]).symbol@
        != (#[trigger] s[b]).symbol@ by {
        assert(assets[a].symbol@ != assets[b].symbol@);
    }
}

proof fn lemma_unique_push(assets: Seq<Asset>, h: Asset)
    requires
        unique_symbols(assets),
        !holds(assets, h.symbol@),
    ensures
        unique_symbols(assets.push(h)),
{
    let s = assets.push(h);
    assert forall|a: int, b: int| 0 <= a < b < s.len() implies (#[trigger] s[a]).symbol@
        != (#[trigger] s[b]).symbol@ by {
        if b < s.len() - 1 {
            assert(assets[a].symbol@ != assets[b].symbol@);
        } else {
            assert(s[a] == assets[a]);
        }
    }
}

proof fn lemma_unique_remove(assets: Seq<Asset>, i: int)
    requires
        unique_symbols(assets),
        0 <= i < assets.len(),
    ensures
        unique_symbols(assets.remove(i)),
        !holds(assets.remove(i), assets[i].symbol@),
{
    let s = assets.remove(i);
    assert forall|a: int, b: int| 0 <= a < b < s.len() implies (#[trigger] s[a]).symbol@
        != (#[trigger] s[b]).symbol@ by {
        if a < i {
            if b < i {
                assert(assets[a].symbol@ != assets[b].symbol@);
            } else {
                assert(assets[a].symbol@ != assets[b + 1].symbol@);
            }
        } else {
            assert(assets[a + 1].symbol@ != assets[b + 1].symbol@);
        }
    }
    if holds(s, assets[i].symbol@) {
        let k = choose|k: int| 0 <= k < s.len() && (#[trigger] s[k]).symbol@ == assets[i].symbol@;
        if k < i {
            assert(assets[k].symbol@ != assets[i].symbol@);
        } else {
            assert(assets[i].symbol@ != assets[k + 1].symbol@);
        }
    }
}

proof fn lemma_shares_refreshed(assets: Seq<Asset>, cash: int, sym: Seq<char>)
    requires
        unique_symbols(assets),
    ensures
        shares_of(refreshed(assets, cash), sym) == shares_of(assets, sym),
{
    let r = refreshed(assets, cash);
    assert forall|a: int, b: int| 0 <= a < b < r.len() implies (#[trigger] r[a]).symbol@
        != (#[trigger] r[b]).symbol@ by {
        assert(assets[a].symbol@ != assets[b].symbol@);
    }
    if holds(assets, sym) {
        let i = holding_index(assets, sym);
        lemma_index_is(r, sym, i);
    } else {
        if holds(r, sym) {
            let k = choose|k: int| 0 <= k < r.len() && (#[trigger] r[k]).symbol@ == sym;
            assert(assets[k].symbol@ == sym);
        }
    }
}

/// A buy fill adds exactly the traded quantity to the buyer's holding of the
/// symbol.
pub proof fn lemma_buy_adds_shares(p: Portfolio, q: Portfolio, symbol: String, quantity: u32, price: u32)
    requires
        p.wf(),
        buy_fits_at(p, symbol@, quantity, price),
        is_after_buy(p, q, symbol, quantity, price),
    ensures
        shares_of(q.assets@, symbol@) == shares_of(p.assets@, symbol@) + quantity,
{
    let a = p.assets@;
    let i = holding_index(a, symbol@);
    let n = assets_after_buy(a, symbol, quantity, price);
    if i >= 0 {
        lemma_unique_update(a, i, bought_holding(a[i], quantity, price));
        lemma_index_is(n, symbol@, i);
    } else {
        lemma_unique_push(a, bought_holding(empty_holding(symbol), quantity, price));
        lemma_index_is(n, symbol@, a.len() as int);
    }
    lemma_shares_refreshed(n, p.total_money - notional(quantity, price), symbol@);
}

/// A sell fill takes exactly the traded quantity from the seller's holding of
/// the symbol.
pub proof fn lemma_sell_removes_shares(p: Portfolio, q: Portfolio, symbol: Seq<char>, quantity: u32, price: u32)
    requires
        p.wf(),
        sell_covered(p, symbol, quantity),
        is_after_sell(p, q, symbol, quantity, price),
    ensures
        shares_of(q.assets@, symbol) == shares_of(p.assets@, symbol) - quantity,
{
    let a = p.assets@;
    let i = holding_index(a, symbol);
    let n = assets_after_sell(a, symbol, quantity, price);
    assert(a[i].symbol@ == symbol);
    if a[i].shares == quantity {
        lemma_unique_remove(a, i);
    } else {
        lemma_unique_update(a, i, sold_holding(a[i], quantity, price));
        lemma_index_is(n, symbol, i);
    }
    lemma_shares_refreshed(n, p.total_money + notional(quantity, price), symbol);
}

/// Settling one trade moves cash and shares between the two parties and
/// creates or destroys neither: the buyer pays exactly the notional the seller
/// receives, and the shares of the symbol held by the two together are the same
/// before and after.
pub proof fn lemma_settlement_conserves(
    buyer: Portfolio,
    buyer_after: Portfolio,
    seller: Portfolio,
    seller_after: Portfolio,
    symbol: String,
    quantity: u32,
    price: u32,
)
    requires
        buyer.wf(),
        seller.wf(),
        buy_fits_at(buyer, symbol@, quantity, price),
        sell_covered(seller, symbol@, quantity),
        is_after_buy(buyer, buyer_after, symbol, quantity, price),
        is_after_sell(seller, seller_after, symbol@, quantity, price),
    ensures
        buyer_after.total_money == buyer.total_money - quantity * price,
        seller_after.total_money == seller.total_money + quantity * price,
        shares_of(buyer_after.assets@, symbol@) + shares_of(seller_after.assets@, symbol@)
            == shares_of(buyer.assets@, symbol@) + shares_of(seller.assets@, symbol@),
{
    lemma_buy_adds_shares(buyer, buyer_after, symbol, quantity, price);
    lemma_sell_removes_shares(seller, seller_after, symbol@, quantity, price);
}

/// A copy of a portfolio.
pub fn copy_portfolio(p: &Portfolio) -> (r: Portfolio)
    ensures
        r.portfolio_id == p.portfolio_id,
        r.total_money == p.total_money,
        r.assets@ == p.assets@,
{
    Portfolio { portfolio_id: p.portfolio_id.clone(), total_money: p.total_money, assets: copy_assets(&p.assets) }
}

/// A portfolio with no cash and no holdings.
pub fn empty_portfolio(portfolio_id: String) -> (r: Portfolio)
    ensures
        r.wf(),
        r.portfolio_id == portfolio_id,
        r.total_money == 0,
        r.assets@.len() == 0,
{
    Portfolio { portfolio_id, total_money: 0, assets: Vec::new() }
}

impl Portfolio {
    /// Whether the portfolio keeps its invariant; see `wf`.
    pub fn is_well_formed(&self) -> (r: bool)
        ensures
            r == self.wf(),
    {
        let n = self.assets.len();
        if n > MAX_HOLDINGS || self.total_money < -CASH_LIMIT || self.total_money > CASH_LIMIT {
            return false;
        }
        let mut i: usize = 0;
        while i < n
            invariant
                n == self.assets@.len(),
                i <= n,
                forall|k: int| 0 <= k < i ==> holding_ok(#[trigger] self.assets@[k]),
                forall|a: int, b: int|
                    0 <= a < b < n && a < i ==> (#[trigger] self.assets@[a]).symbol@
                        != (#[trigger] self.assets@[b]).symbol@,
            decreases n - i,
        {
            let a = &self.assets[i];
            if a.shares == 0 || a.market_value > MARKET_VALUE_LIMIT {
                return false;
            }
            let mut j: usize = i + 1;
            while j < n
                invariant
                    n == self.assets@.len(),
                    i < j <= n,
                    forall|b: int| i < b < j ==> self.assets@[i as int].symbol@ != (#[trigger] self.assets@[b]).symbol@,
                decreases n - j,
            {
                if self.assets[j].symbol.eq(&self.assets[i].symbol) {
                    return false;
                }
                j = j + 1;
            }
            i = i + 1;
        }
        true
    }
}

} // verus!
