//! The order book of one symbol and its price-time priority matching.
//!
//! Bids are kept best (highest) price first, asks best (lowest) price first;
//! at equal prices the earlier arrival comes first. An incoming order walks
//! the opposite side from the front while the resting order's price is
//! acceptable, trading at the resting (maker) order's price.
use vstd::prelude::*;
use crate::models::OrderType;

verus! {

#[derive(Clone, Copy, Debug, PartialEq, Eq, Structural)]
pub enum Side {
    Buy,
    Sell,
}

/// An order as submitted to the book.
pub struct NewOrder {
    pub order_id: u64,
    pub user_id: String,
    pub symbol: String,
    pub side: Side,
    pub order_type: OrderType,
    pub price: u32,
    pub quantity: u32,
}

/// An order waiting in the book.
pub struct RestingOrder {
    pub order_id: u64,
    pub user_id: String,
    pub side: Side,
    pub order_type: OrderType,
    pub price: u32,
    pub original_quantity: u32,
    pub remaining_quantity: u32,
    pub arrival: u64,
}

/// A trade produced by matching; its price is the resting order's price.
pub struct MatchedTrade {
    pub buy_order_id: u64,
    pub sell_order_id: u64,
    pub symbol: String,
    pub quantity: u32,
    pub price: u32,
    pub buyer_id: String,
    pub seller_id: String,
}

pub struct OrderBook {
    pub symbol: String,
    pub bids: Vec<RestingOrder>,
    pub asks: Vec<RestingOrder>,
    pub next_arrival: u64,
}

#[derive(Clone, Copy, Debug, PartialEq, Eq, Structural)]
pub enum BookError {
    /// Zero quantity, a zero limit price, or another symbol than the book's.
    InvalidOrder,
    /// An order with the same id is already resting.
    DuplicateOrder,
    /// The arrival counter has no value left.
    ArrivalsExhausted,
}

/// The order to cancel is not resting in the book.
#[derive(Clone, Copy, Debug, PartialEq, Eq, Structural)]
pub struct NotFoundError;

pub open spec fn opposite(side: Side) -> Side {
    match side {
        Side::Buy => Side::Sell,
        Side::Sell => Side::Buy,
    }
}

/// Whether a taker on `side` with limit `limit` accepts a resting price.
/// A market order accepts any price; limit and stop orders accept a price no
/// worse than their limit.
pub open spec fn accepts(side: Side, order_type: OrderType, limit: u32, maker_price: u32) -> bool {
    match order_type {
        OrderType::Market => true,
        _ => match side {
            Side::Buy => limit >= maker_price,
            Side::Sell => limit <= maker_price,
        },
    }
}

/// Whether price `a` is at least as good as price `b` on `side`.
pub open spec fn as_good(side: Side, a: u32, b: u32) -> bool {
    match side {
        Side::Buy => a >= b,
        Side::Sell => a <= b,
    }
}

/// Whether `a` stands ahead of `b` on `side`: a better price, or the same
/// price and an earlier arrival.
pub open spec fn ahead(side: Side, a: RestingOrder, b: RestingOrder) -> bool {
    (as_good(side, a.price, b.price) && a.price != b.price) || (a.price == b.price && a.arrival < b.arrival)
}

pub open spec fn in_priority(side: Side, s: Seq<RestingOrder>) -> bool {
    forall|i: int, j: int| 0 <= i < j < s.len() ==> ahead(side, #[trigger] s[i], #[trigger] s[j])
}

pub open spec fn side_ok(side: Side, s: Seq<RestingOrder>, next_arrival: u64) -> bool {
    &&& in_priority(side, s)
    &&& forall|i: int|
        0 <= i < s.len() ==> {
            let o = #[trigger] s[i];
            &&& o.side == side
            &&& o.order_type != OrderType::Market
            &&& 0 < o.remaining_quantity <= o.original_quantity
            &&& o.arrival < next_arrival
        }
}

pub open spec fn ids_distinct(s: Seq<RestingOrder>) -> bool {
    forall|i: int, j: int| 0 <= i < j < s.len() ==> (#[trigger] s[i]).order_id != (#[trigger] s[j]).order_id
}

pub open spec fn ids_apart(a: Seq<RestingOrder>, b: Seq<RestingOrder>) -> bool {
    forall|i: int, j: int|
        0 <= i < a.len() && 0 <= j < b.len() ==> (#[trigger] a[i]).order_id != (#[trigger] b[j]).order_id
}

pub open spec fn has_id(s: Seq<RestingOrder>, id: u64) -> bool {
    exists|i: int| 0 <= i < s.len() && (#[trigger] s[i]).order_id == id
}

/// Where the order `id` stands in `s`, or -1.
pub open spec fn id_index(s: Seq<RestingOrder>, id: u64) -> int {
    if has_id(s, id) {
        choose|i: int| 0 <= i < s.len() && (#[trigger] s[i]).order_id == id
    } else {
        -1
    }
}

impl OrderBook {
    pub open spec fn wf(&self) -> bool {
        &&& side_ok(Side::Buy, self.bids@, self.next_arrival)
        &&& side_ok(Side::Sell, self.asks@, self.next_arrival)
        &&& ids_distinct(self.bids@)
        &&& ids_distinct(self.asks@)
        &&& ids_apart(self.bids@, self.asks@)
    }

    pub open spec fn side_of(&self, side: Side) -> Seq<RestingOrder> {
        match side {
            Side::Buy => self.bids@,
            Side::Sell => self.asks@,
        }
    }

    pub open spec fn resting(&self, id: u64) -> bool {
        has_id(self.bids@, id) || has_id(self.asks@, id)
    }
}

pub open spec fn valid_order(book: OrderBook, o: NewOrder) -> bool {
    &&& o.quantity > 0
    &&& (o.order_type != OrderType::Market ==> o.price > 0)
    &&& o.symbol@.len() > 0
    &&& o.symbol@ == book.symbol@
}

pub open spec fn trade_between(taker: NewOrder, maker: RestingOrder, quantity: u32) -> MatchedTrade {
    match taker.side {
        Side::Buy => MatchedTrade {
            buy_order_id: taker.order_id,
            sell_order_id: maker.order_id,
            symbol: taker.symbol,
            quantity,
            price: maker.price,
            buyer_id: taker.user_id,
            seller_id: maker.user_id,
        },
        Side::Sell => MatchedTrade {
            buy_order_id: maker.order_id,
            sell_order_id: taker.order_id,
            symbol: taker.symbol,
            quantity,
            price: maker.price,
            buyer_id: maker.user_id,
            seller_id: taker.user_id,
        },
    }
}

pub open spec fn with_remaining(o: RestingOrder, remaining: u32) -> RestingOrder {
    RestingOrder { remaining_quantity: remaining, ..o }
}

/// Walks the opposite side `book` for a taker with `remaining` unmatched
/// quantity: the trades produced, the side afterwards, and what is left.
pub open spec fn match_walk(taker: NewOrder, remaining: nat, book: Seq<RestingOrder>) -> (Seq<MatchedTrade>, Seq<
    RestingOrder,
>, nat)
    decreases remaining + book.len(),
{
    if remaining == 0 || book.len() == 0 || !accepts(taker.side, taker.order_type, taker.price, book[0].price) {
        (Seq::empty(), book, remaining)
    } else {
        let m = book[0];
        if remaining >= m.remaining_quantity {
            let rest = match_walk(taker, (remaining - m.remaining_quantity) as nat, book.drop_first());
            (seq![trade_between(taker, m, m.remaining_quantity)] + rest.0, rest.1, rest.2)
        } else {
            (
                seq![trade_between(taker, m, remaining as u32)],
                book.update(0, with_remaining(m, (m.remaining_quantity - remaining) as u32)),
                0,
            )
        }
    }
}

/// Where an order at `price` joins `s`: after every order whose price is at
/// least as good.
pub open spec fn insert_position(side: Side, s: Seq<RestingOrder>, price: u32) -> int
    decreases s.len(),
{
    if s.len() == 0 || !as_good(side, s[0].price, price) {
        0
    } else {
        1 + insert_position(side, s.drop_first(), price)
    }
}

pub open spec fn resting_of(o: NewOrder, remaining: u32, arrival: u64) -> RestingOrder {
    RestingOrder {
        order_id: o.order_id,
        user_id: o.user_id,
        side: o.side,
        order_type: o.order_type,
        price: o.price,
        original_quantity: o.quantity,
        remaining_quantity: remaining,
        arrival,
    }
}

pub open spec fn sum_quantity(t: Seq<MatchedTrade>) -> int
    decreases t.len(),
{
    if t.len() == 0 {
        0
    } else {
        t[0].quantity + sum_quantity(t.drop_first())
    }
}

pub open spec fn maker_id(side: Side, t: MatchedTrade) -> u64 {
    match side {
        Side::Buy => t.sell_order_id,
        Side::Sell => t.buy_order_id,
    }
}

pub open spec fn total_remaining(s: Seq<RestingOrder>) -> int
    decreases s.len(),
{
    if s.len() == 0 {
        0
    } else {
        s[0].remaining_quantity + total_remaining(s.drop_first())
    }
}

/// What a walk over `book` gives for a taker with `remaining` unmatched:
/// the `k`-th trade is against the `k`-th resting order, at its price and for
/// no more than it had left; the walk stops only when the taker is exhausted,
/// the side is empty, or the next price is not acceptable; what is left of the
/// side is its tail, each order as before but for a smaller remainder; and
/// quantity is neither created nor lost.
#[verifier::rlimit(50)]
pub proof fn lemma_walk(taker: NewOrder, remaining: nat, book: Seq<RestingOrder>)
    requires
        forall|i: int| 0 <= i < book.len() ==> (#[trigger] book[i]).remaining_quantity > 0,
    ensures
        ({
            let (t, b, r) = match_walk(taker, remaining, book);
            let d = book.len() - b.len();
            &&& 0 <= d <= t.len() <= book.len()
            &&& forall|k: int|
                0 <= k < t.len() ==> {
                    &&& #[trigger] t[k] == trade_between(taker, book[k], t[k].quantity)
                    &&& 0 < t[k].quantity <= book[k].remaining_quantity
                    &&& t[k].quantity <= remaining
                }
            &&& forall|i: int|
                0 <= i < b.len() ==> {
                    &&& #[trigger] b[i] == with_remaining(book[i + d], b[i].remaining_quantity)
                    &&& 0 < b[i].remaining_quantity <= book[i + d].remaining_quantity
                }
            &&& r <= remaining
            &&& sum_quantity(t) + r == remaining
            &&& total_remaining(book) == sum_quantity(t) + total_remaining(b)
            &&& (r > 0 ==> b.len() == 0 || !accepts(taker.side, taker.order_type, taker.price, b[0].price))
        }),
    decreases remaining + book.len(),
{
    if remaining == 0 || book.len() == 0 || !accepts(taker.side, taker.order_type, taker.price, book[0].price) {
        assert(sum_quantity(Seq::<MatchedTrade>::empty()) == 0);
    } else {
        let m = book[0];
        if remaining >= m.remaining_quantity {
            let tail = book.drop_first();
            assert forall|i: int| 0 <= i < tail.len() implies (#[trigger] tail[i]).remaining_quantity > 0 by {
                assert(tail[i] == book[i + 1]);
            }
            lemma_walk(taker, (remaining - m.remaining_quantity) as nat, tail);
            let rest = match_walk(taker, (remaining - m.remaining_quantity) as nat, tail);
            let t = seq![trade_between(taker, m, m.remaining_quantity)] + rest.0;
            assert(t.drop_first() =~= rest.0);
            assert(sum_quantity(t) == t[0].quantity + sum_quantity(rest.0));
            assert forall|k: int| 0 <= k < t.len() implies {
                &&& #[trigger] t[k] == trade_between(taker, book[k], t[k].quantity)
                &&& 0 < t[k].quantity <= book[k].remaining_quantity
                &&& t[k].quantity <= remaining
            } by {
                if k > 0 {
                    assert(t[k] == rest.0[k - 1]);
                    assert(tail[k - 1] == book[k]);
                }
            }
            let b = rest.1;
            let d = book.len() - b.len();
            assert forall|i: int| 0 <= i < b.len() implies {
                &&& #[trigger] b[i] == with_remaining(book[i + d], b[i].remaining_quantity)
                &&& 0 < b[i].remaining_quantity <= book[i + d].remaining_quantity
            } by {
                assert(tail[i + d - 1] == book[i + d]);
            }
        } else {
            let b = book.update(0, with_remaining(m, (m.remaining_quantity - remaining) as u32));
            let t = seq![trade_between(taker, m, remaining as u32)];
            assert(t.drop_first() =~= Seq::<MatchedTrade>::empty());
            assert(sum_quantity(t) == t[0].quantity + sum_quantity(t.drop_first()));
            assert(sum_quantity(Seq::<MatchedTrade>::empty()) == 0);
            assert(b.drop_first() =~= book.drop_first());
            assert forall|i: int| 0 <= i < b.len() implies {
                &&& #[trigger] b[i] == with_remaining(book[i], b[i].remaining_quantity)
                &&& 0 < b[i].remaining_quantity <= book[i].remaining_quantity
            } by {
                if i > 0 {
                    assert(book[i] == with_remaining(book[i], book[i].remaining_quantity));
                }
            }
        }
    }
}

pub(crate) proof fn lemma_insert_bounds(side: Side, s: Seq<RestingOrder>, price: u32)
    ensures
        0 <= insert_position(side, s, price) <= s.len(),
    decreases s.len(),
{
    if s.len() > 0 && as_good(side, s[0].price, price) {
        lemma_insert_bounds(side, s.drop_first(), price);
    }
}

proof fn lemma_insert_position(side: Side, s: Seq<RestingOrder>, price: u32)
    requires
        in_priority(side, s),
    ensures
        0 <= insert_position(side, s, price) <= s.len(),
        forall|j: int| 0 <= j < insert_position(side, s, price) ==> as_good(side, (#[trigger] s[j]).price, price),
        forall|j: int|
            insert_position(side, s, price) <= j < s.len() ==> !as_good(side, (#[trigger] s[j]).price, price),
    decreases s.len(),
{
    if s.len() == 0 || !as_good(side, s[0].price, price) {
        assert forall|j: int| 0 <= j < s.len() implies !as_good(side, (#[trigger] s[j]).price, price) by {
            if j > 0 {
                assert(ahead(side, s[0], s[j]));
            }
        }
    } else {
        let t = s.drop_first();
        assert forall|i: int, j: int| 0 <= i < j < t.len() implies ahead(side, #[trigger] t[i], #[trigger] t[j]) by {
            assert(ahead(side, s[i + 1], s[j + 1]));
        }
        lemma_insert_position(side, t, price);
        let k = insert_position(side, t, price);
        assert forall|j: int| 0 <= j < k + 1 implies as_good(side, (#[trigger] s[j]).price, price) by {
            if j > 0 {
                assert(s[j] == t[j - 1]);
            }
        }
        assert forall|j: int| k + 1 <= j < s.len() implies !as_good(side, (#[trigger] s[j]).price, price) by {
            assert(s[j] == t[j - 1]);
        }
    }
}

fn copy_resting(o: &RestingOrder) -> (r: RestingOrder)
    ensures
        r == *o,
{
    RestingOrder {
        order_id: o.order_id,
        user_id: o.user_id.clone(),
        side: o.side,
        order_type: o.order_type,
        price: o.price,
        original_quantity: o.original_quantity,
        remaining_quantity: o.remaining_quantity,
        arrival: o.arrival,
    }
}

fn make_trade(taker: &NewOrder, maker: &RestingOrder, quantity: u32) -> (r: MatchedTrade)
    ensures
        r == trade_between(*taker, *maker, quantity),
{
    match taker.side {
        Side::Buy => MatchedTrade {
            buy_order_id: taker.order_id,
            sell_order_id: maker.order_id,
            symbol: taker.symbol.clone(),
            quantity,
            price: maker.price,
            buyer_id: taker.user_id.clone(),
            seller_id: maker.user_id.clone(),
        },
        Side::Sell => MatchedTrade {
            buy_order_id: maker.order_id,
            sell_order_id: taker.order_id,
            symbol: taker.symbol.clone(),
            quantity,
            price: maker.price,
            buyer_id: maker.user_id.clone(),
            seller_id: taker.user_id.clone(),
        },
    }
}

/// Whether a taker accepts a resting price; see `accepts`.
pub fn price_acceptable(side: Side, order_type: OrderType, limit: u32, maker_price: u32) -> (r: bool)
    ensures
        r == accepts(side, order_type, limit, maker_price),
{
    match order_type {
        OrderType::Market => true,
        _ => match side {
            Side::Buy => limit >= maker_price,
            Side::Sell => limit <= maker_price,
        },
    }
}

/// Matches `taker` against the opposite side `opp`, front first.
fn match_against(taker: &NewOrder, opp: &mut Vec<RestingOrder>) -> (r: (Vec<MatchedTrade>, u32))
    ensures
        r.0@ == match_walk(*taker, taker.quantity as nat, old(opp)@).0,
        final(opp)@ == match_walk(*taker, taker.quantity as nat, old(opp)@).1,
        r.1 as nat == match_walk(*taker, taker.quantity as nat, old(opp)@).2,
{
    let ghost start = opp@;
    let mut trades: Vec<MatchedTrade> = Vec::new();
    let mut remaining: u32 = taker.quantity;
    loop
        invariant
            match_walk(*taker, taker.quantity as nat, start).0 == trades@ + match_walk(
                *taker,
                remaining as nat,
                opp@,
            ).0,
            match_walk(*taker, taker.quantity as nat, start).1 == match_walk(*taker, remaining as nat, opp@).1,
            match_walk(*taker, taker.quantity as nat, start).2 == match_walk(*taker, remaining as nat, opp@).2,
        ensures
            trades@ == match_walk(*taker, taker.quantity as nat, start).0,
            opp@ == match_walk(*taker, taker.quantity as nat, start).1,
            remaining as nat == match_walk(*taker, taker.quantity as nat, start).2,
        decreases remaining + opp@.len(),
    {
        if remaining == 0 || opp.len() == 0 {
            assert(trades@ + Seq::<MatchedTrade>::empty() =~= trades@);
            break;
        }
        if !price_acceptable(taker.side, taker.order_type, taker.price, opp[0].price) {
            assert(trades@ + Seq::<MatchedTrade>::empty() =~= trades@);
            break;
        }
        let m_rem = opp[0].remaining_quantity;
        let ghost before = opp@;
        let ghost prev = trades@;
        if remaining >= m_rem {
            let t = make_trade(taker, &opp[0], m_rem);
            trades.push(t);
            opp.remove(0);
            remaining = remaining - m_rem;
            assert(opp@ =~= before.drop_first());
            let ghost rest = match_walk(*taker, remaining as nat, opp@);
            assert(prev + (seq![t] + rest.0) =~= trades@ + rest.0);
        } else {
            let t = make_trade(taker, &opp[0], remaining);
            trades.push(t);
            let mut front = copy_resting(&opp[0]);
            front.remaining_quantity = m_rem - remaining;
            opp.set(0, front);
            assert(opp@ =~= before.update(0, with_remaining(before[0], (m_rem - remaining) as u32)));
            remaining = 0;
            assert(prev + seq![t] =~= trades@ + Seq::<MatchedTrade>::empty());
        }
    }
    (trades, remaining)
}

/// Where an order at `price` joins `s`; see `insert_position`.
fn insert_point(side: Side, s: &Vec<RestingOrder>, price: u32) -> (r: usize)
    ensures
        r == insert_position(side, s@, price),
        r <= s@.len(),
{
    proof {
        lemma_insert_bounds(side, s@, price);
    }
    let mut i: usize = 0;
    assert(s@.subrange(0, s@.len() as int) =~= s@);
    while i < s.len()
        invariant
            i <= s@.len(),
            insert_position(side, s@, price) == i + insert_position(side, s@.subrange(i as int, s@.len() as int), price),
        decreases s@.len() - i,
    {
        let ghost tail = s@.subrange(i as int, s@.len() as int);
        let good = match side {
            Side::Buy => s[i].price >= price,
            Side::Sell => s[i].price <= price,
        };
        if !good {
            assert(tail[0] == s@[i as int]);
            return i;
        }
        assert(tail.drop_first() =~= s@.subrange(i + 1, s@.len() as int));
        i = i + 1;
    }
    i
}

fn find_id(s: &Vec<RestingOrder>, id: u64) -> (r: Option<usize>)
    requires
        ids_distinct(s@),
    ensures
        r matches Some(i) ==> i < s@.len() && id_index(s@, id) == i,
        r is None ==> !has_id(s@, id) && id_index(s@, id) == -1,
{
    let mut i: usize = 0;
    while i < s.len()
        invariant
            ids_distinct(s@),
            i <= s@.len(),
            forall|k: int| 0 <= k < i ==> (#[trigger] s@[k]).order_id != id,
        decreases s@.len() - i,
    {
        if s[i].order_id == id {
            proof {
                assert(has_id(s@, id));
                let j = id_index(s@, id);
                if j != i {
                    if j < i {
                        assert(s@[j].order_id != s@[i as int].order_id);
                    } else {
                        assert(s@[i as int].order_id != s@[j].order_id);
                    }
                }
            }
            return Some(i);
        }
        i = i + 1;
    }
    None
}

/// Whether `new` is `old` after accepting `o`: the trades and the opposite
/// side are those of the walk, the arrival counter advances, and an unmatched
/// remainder of a non-market order rests on its own side in priority order.
pub open spec fn submitted(
    old: OrderBook,
    new: OrderBook,
    o: NewOrder,
    trades: Seq<MatchedTrade>,
    residual: Option<RestingOrder>,
) -> bool {
    let opp = old.side_of(opposite(o.side));
    let own = old.side_of(o.side);
    let walk = match_walk(o, o.quantity as nat, opp);
    &&& new.symbol == old.symbol
    &&& new.next_arrival == old.next_arrival + 1
    &&& trades == walk.0
    &&& new.side_of(opposite(o.side)) == walk.1
    &&& if walk.2 > 0 && o.order_type != OrderType::Market {
        let x = resting_of(o, walk.2 as u32, old.next_arrival);
        &&& residual == Some(x)
        &&& new.side_of(o.side) == own.insert(insert_position(o.side, own, o.price), x)
    } else {
        &&& residual is None
        &&& new.side_of(o.side) == own
    }
}

proof fn lemma_side_after_walk(side: Side, opp: Seq<RestingOrder>, b: Seq<RestingOrder>, na: u64)
    requires
        side_ok(side, opp, na),
        ids_distinct(opp),
        na < u64::MAX,
        b.len() <= opp.len(),
        forall|i: int|
            0 <= i < b.len() ==> {
                &&& #[trigger] b[i] == with_remaining(opp[i + opp.len() - b.len()], b[i].remaining_quantity)
                &&& 0 < b[i].remaining_quantity <= opp[i + opp.len() - b.len()].remaining_quantity
            },
    ensures
        side_ok(side, b, (na + 1) as u64),
        ids_distinct(b),
        forall|id: u64| has_id(b, id) ==> has_id(opp, id),
{
    let d = opp.len() - b.len();
    assert forall|i: int, j: int| 0 <= i < j < b.len() implies ahead(side, #[trigger] b[i], #[trigger] b[j]) by {
        assert(ahead(side, opp[i + d], opp[j + d]));
    }
    assert forall|i: int| 0 <= i < b.len() implies {
        let o = #[trigger] b[i];
        &&& o.side == side
        &&& o.order_type != OrderType::Market
        &&& 0 < o.remaining_quantity <= o.original_quantity
        &&& o.arrival < (na + 1) as u64
    } by {
        let q = opp[i + d];
        assert(0 <= i + d < opp.len());
        assert(q.remaining_quantity <= q.original_quantity);
    }
    assert forall|i: int, j: int| 0 <= i < j < b.len() implies (#[trigger] b[i]).order_id
        != (#[trigger] b[j]).order_id by {
        assert(opp[i + d].order_id != opp[j + d].order_id);
    }
    assert forall|id: u64| has_id(b, id) implies has_id(opp, id) by {
        let i = choose|i: int| 0 <= i < b.len() && (#[trigger] b[i]).order_id == id;
        assert(opp[i + d].order_id == id);
    }
}

proof fn lemma_side_after_insert(side: Side, own: Seq<RestingOrder>, x: RestingOrder, na: u64)
    requires
        side_ok(side, own, na),
        ids_distinct(own),
        na < u64::MAX,
        x.arrival == na,
        x.side == side,
        x.order_type != OrderType::Market,
        0 < x.remaining_quantity <= x.original_quantity,
        !has_id(own, x.order_id),
    ensures
        side_ok(side, own.insert(insert_position(side, own, x.price), x), (na + 1) as u64),
        ids_distinct(own.insert(insert_position(side, own, x.price), x)),
        forall|id: u64|
            has_id(own.insert(insert_position(side, own, x.price), x), id) ==> has_id(own, id) || id
                == x.order_id,
{
    lemma_insert_position(side, own, x.price);
    let k = insert_position(side, own, x.price);
    let s = own.insert(k, x);
    assert forall|i: int, j: int| 0 <= i < j < s.len() implies ahead(side, #[trigger] s[i], #[trigger] s[j]) by {
        if j < k {
            assert(ahead(side, own[i], own[j]));
        } else if j == k {
            assert(as_good(side, own[i].price, x.price));
            assert(own[i].arrival < na);
        } else if i < k {
            assert(ahead(side, own[i], own[j - 1]));
        } else if i == k {
            assert(!as_good(side, own[j - 1].price, x.price));
        } else {
            assert(ahead(side, own[i - 1], own[j - 1]));
        }
    }
    assert forall|i: int| 0 <= i < s.len() implies {
        let o = #[trigger] s[i];
        &&& o.side == side
        &&& o.order_type != OrderType::Market
        &&& 0 < o.remaining_quantity <= o.original_quantity
        &&& o.arrival < (na + 1) as u64
    } by {
        if i < k {
            assert(s[i] == own[i]);
        } else if i > k {
            assert(s[i] == own[i - 1]);
        }
    }
    assert forall|i: int, j: int| 0 <= i < j < s.len() implies (#[trigger] s[i]).order_id
        != (#[trigger] s[j]).order_id by {
        if j < k {
            assert(own[i].order_id != own[j].order_id);
        } else if j == k {
            assert(s[i] == own[i]);
        } else if i < k {
            assert(own[i].order_id != own[j - 1].order_id);
        } else if i == k {
            assert(s[j] == own[j - 1]);
        } else {
            assert(own[i - 1].order_id != own[j - 1].order_id);
        }
    }
    assert forall|id: u64| has_id(s, id) implies has_id(own, id) || id == x.order_id by {
        let i = choose|i: int| 0 <= i < s.len() && (#[trigger] s[i]).order_id == id;
        if i < k {
            assert(own[i].order_id == id);
        } else if i > k {
            assert(own[i - 1].order_id == id);
        }
    }
}

proof fn lemma_side_later(side: Side, s: Seq<RestingOrder>, na: u64)
    requires
        side_ok(side, s, na),
        na < u64::MAX,
    ensures
        side_ok(side, s, (na + 1) as u64),
{
}

proof fn lemma_apart(a: Seq<RestingOrder>, b: Seq<RestingOrder>, a0: Seq<RestingOrder>, b0: Seq<RestingOrder>, id: u64)
    requires
        ids_apart(a0, b0),
        !has_id(a0, id),
        !has_id(b0, id),
        forall|k: u64| has_id(a, k) ==> has_id(a0, k) || k == id,
        forall|k: u64| has_id(b, k) ==> has_id(b0, k),
    ensures
        ids_apart(a, b),
{
    assert forall|i: int, j: int| 0 <= i < a.len() && 0 <= j < b.len() implies (#[trigger] a[i]).order_id
        != (#[trigger] b[j]).order_id by {
        let k = a[i].order_id;
        assert(has_id(a, k));
        if b[j].order_id == k {
            assert(has_id(b, k));
            assert(has_id(b0, k));
            if has_id(a0, k) {
                let i0 = choose|i0: int| 0 <= i0 < a0.len() && (#[trigger] a0[i0]).order_id == k;
                let j0 = choose|j0: int| 0 <= j0 < b0.len() && (#[trigger] b0[j0]).order_id == k;
                assert(a0[i0].order_id != b0[j0].order_id);
            }
        }
    }
}

proof fn lemma_apart_shrink(a: Seq<RestingOrder>, b: Seq<RestingOrder>, a0: Seq<RestingOrder>, b0: Seq<RestingOrder>)
    requires
        ids_apart(a0, b0),
        forall|k: u64| has_id(a, k) ==> has_id(a0, k),
        forall|k: u64| has_id(b, k) ==> has_id(b0, k),
    ensures
        ids_apart(a, b),
{
    assert forall|i: int, j: int| 0 <= i < a.len() && 0 <= j < b.len() implies (#[trigger] a[i]).order_id
        != (#[trigger] b[j]).order_id by {
        let k = a[i].order_id;
        assert(has_id(a, k));
        if b[j].order_id == k {
            assert(has_id(b, k));
            let i0 = choose|i0: int| 0 <= i0 < a0.len() && (#[trigger] a0[i0]).order_id == k;
            let j0 = choose|j0: int| 0 <= j0 < b0.len() && (#[trigger] b0[j0]).order_id == k;
            assert(a0[i0].order_id != b0[j0].order_id);
        }
    }
}

pub(crate) proof fn lemma_apart_flip(a: Seq<RestingOrder>, b: Seq<RestingOrder>)
    requires
        ids_apart(a, b),
    ensures
        ids_apart(b, a),
{
    assert forall|i: int, j: int| 0 <= i < b.len() && 0 <= j < a.len() implies (#[trigger] b[i]).order_id
        != (#[trigger] a[j]).order_id by {
        assert(a[j].order_id != b[i].order_id);
    }
}

/// Matches `order` against `opp` and rests what is left on `own`.
fn submit_side(
    order: &NewOrder,
    own: &mut Vec<RestingOrder>,
    opp: &mut Vec<RestingOrder>,
    arrival: u64,
    is_market: bool,
) -> (r: (Vec<MatchedTrade>, Option<RestingOrder>))
    requires
        side_ok(order.side, old(own)@, arrival),
        side_ok(opposite(order.side), old(opp)@, arrival),
        ids_distinct(old(own)@),
        ids_distinct(old(opp)@),
        !has_id(old(own)@, order.order_id),
        arrival < u64::MAX,
        order.quantity > 0,
        is_market == (order.order_type == OrderType::Market),
    ensures
        ({
            let walk = match_walk(*order, order.quantity as nat, old(opp)@);
            &&& r.0@ == walk.0
            &&& final(opp)@ == walk.1
            &&& if walk.2 > 0 && order.order_type != OrderType::Market {
                let x = resting_of(*order, walk.2 as u32, arrival);
                &&& r.1 == Some(x)
                &&& final(own)@ == old(own)@.insert(insert_position(order.side, old(own)@, order.price), x)
            } else {
                &&& r.1 is None
                &&& final(own)@ == old(own)@
            }
        }),
        side_ok(order.side, final(own)@, (arrival + 1) as u64),
        side_ok(opposite(order.side), final(opp)@, (arrival + 1) as u64),
        ids_distinct(final(own)@),
        ids_distinct(final(opp)@),
        forall|id: u64| has_id(final(own)@, id) ==> has_id(old(own)@, id) || id == order.order_id,
        forall|id: u64| has_id(final(opp)@, id) ==> has_id(old(opp)@, id),
{
    let ghost own0 = own@;
    let ghost opp0 = opp@;
    let (trades, rem) = match_against(order, opp);
    proof {
        lemma_walk(*order, order.quantity as nat, opp0);
        lemma_side_after_walk(opposite(order.side), opp0, opp@, arrival);
    }
    if rem > 0 && !is_market {
        let x = RestingOrder {
            order_id: order.order_id,
            user_id: order.user_id.clone(),
            side: order.side,
            order_type: order.order_type,
            price: order.price,
            original_quantity: order.quantity,
            remaining_quantity: rem,
            arrival,
        };
        let y = copy_resting(&x);
        proof {
            lemma_side_after_insert(order.side, own0, x, arrival);
        }
        let k = insert_point(order.side, own, order.price);
        own.insert(k, y);
        (trades, Some(x))
    } else {
        proof {
            lemma_side_later(order.side, own0, arrival);
        }
        (trades, None)
    }
}

impl OrderBook {
    /// An empty book for `symbol`.
    pub fn new(symbol: String) -> (r: OrderBook)
        ensures
            r.wf(),
            r.symbol == symbol,
            r.bids@.len() == 0,
            r.asks@.len() == 0,
            r.next_arrival == 0,
    {
        OrderBook { symbol, bids: Vec::new(), asks: Vec::new(), next_arrival: 0 }
    }

    /// Whether an order with this id is resting.
    pub fn contains(&self, order_id: u64) -> (r: bool)
        requires
            self.wf(),
        ensures
            r == self.resting(order_id),
    {
        find_id(&self.bids, order_id).is_some() || find_id(&self.asks, order_id).is_some()
    }

    /// Submits an order: matches it against the opposite side, then rests
    /// what is left of a limit or stop order. A market order never rests.
    pub fn submit(&mut self, order: NewOrder) -> (r: Result<(Vec<MatchedTrade>, Option<RestingOrder>), BookError>)
        requires
            old(self).wf(),
        ensures
            final(self).wf(),
            r matches Err(BookError::InvalidOrder) <==> !valid_order(*old(self), order),
            r matches Err(BookError::DuplicateOrder) <==> valid_order(*old(self), order) && old(self).resting(
                order.order_id,
            ),
            r matches Err(BookError::ArrivalsExhausted) <==> valid_order(*old(self), order) && !old(
                self,
            ).resting(order.order_id) && old(self).next_arrival == u64::MAX,
            r is Err ==> *final(self) == *old(self),
            r matches Ok((t, res)) ==> submitted(*old(self), *final(self), order, t@, res),
    {
        let is_market = match order.order_type {
            OrderType::Market => true,
            _ => false,
        };
        if order.quantity == 0 || (!is_market && order.price == 0) || order.symbol.as_str().unicode_len() == 0
            || !order.symbol.eq(&self.symbol) {
            return Err(BookError::InvalidOrder);
        }
        if self.contains(order.order_id) {
            return Err(BookError::DuplicateOrder);
        }
        if self.next_arrival == u64::MAX {
            return Err(BookError::ArrivalsExhausted);
        }
        let ghost old_book = *self;
        let arrival = self.next_arrival;
        let (trades, residual) = match order.side {
            Side::Buy => submit_side(&order, &mut self.bids, &mut self.asks, arrival, is_market),
            Side::Sell => submit_side(&order, &mut self.asks, &mut self.bids, arrival, is_market),
        };
        self.next_arrival = arrival + 1;
        proof {
            match order.side {
                Side::Buy => {
                    lemma_apart(self.bids@, self.asks@, old_book.bids@, old_book.asks@, order.order_id);
                },
                Side::Sell => {
                    lemma_apart_flip(old_book.bids@, old_book.asks@);
                    lemma_apart(self.asks@, self.bids@, old_book.asks@, old_book.bids@, order.order_id);
                    lemma_apart_flip(self.asks@, self.bids@);
                },
            }
        }
        Ok((trades, residual))
    }
}

proof fn lemma_side_remove(side: Side, s: Seq<RestingOrder>, i: int, na: u64)
    requires
        side_ok(side, s, na),
        ids_distinct(s),
        0 <= i < s.len(),
    ensures
        side_ok(side, s.remove(i), na),
        ids_distinct(s.remove(i)),
        forall|id: u64| has_id(s.remove(i), id) ==> has_id(s, id),
        !has_id(s.remove(i), s[i].order_id),
{
    let r = s.remove(i);
    assert forall|a: int, b: int| 0 <= a < b < r.len() implies ahead(side, #[trigger] r[a], #[trigger] r[b]) by {
        let a0 = if a < i { a } else { a + 1 };
        let b0 = if b < i { b } else { b + 1 };
        assert(ahead(side, s[a0], s[b0]));
    }
    assert forall|a: int| 0 <= a < r.len() implies {
        let o = #[trigger] r[a];
        &&& o.side == side
        &&& o.order_type != OrderType::Market
        &&& 0 < o.remaining_quantity <= o.original_quantity
        &&& o.arrival < na
    } by {
        let a0 = if a < i { a } else { a + 1 };
        assert(r[a] == s[a0]);
    }
    assert forall|a: int, b: int| 0 <= a < b < r.len() implies (#[trigger] r[a]).order_id
        != (#[trigger] r[b]).order_id by {
        let a0 = if a < i { a } else { a + 1 };
        let b0 = if b < i { b } else { b + 1 };
        assert(s[a0].order_id != s[b0].order_id);
    }
    assert forall|id: u64| has_id(r, id) implies has_id(s, id) by {
        let a = choose|a: int| 0 <= a < r.len() && (#[trigger] r[a]).order_id == id;
        let a0 = if a < i { a } else { a + 1 };
        assert(s[a0].order_id == id);
    }
    if has_id(r, s[i].order_id) {
        let a = choose|a: int| 0 <= a < r.len() && (#[trigger] r[a]).order_id == s[i].order_id;
        if a < i {
            assert(s[a].order_id != s[i].order_id);
        } else {
            assert(s[i].order_id != s[a + 1].order_id);
        }
    }
}

fn copy_side(v: &Vec<RestingOrder>) -> (r: Vec<RestingOrder>)
    ensures
        r@ == v@,
{
    let mut out: Vec<RestingOrder> = Vec::new();
    let mut i: usize = 0;
    while i < v.len()
        invariant
            i <= v@.len(),
            out@ == v@.subrange(0, i as int),
        decreases v@.len() - i,
    {
        out.push(copy_resting(&v[i]));
        i = i + 1;
        assert(out@ =~= v@.subrange(0, i as int));
    }
    assert(v@.subrange(0, v@.len() as int) =~= v@);
    out
}

impl OrderBook {
    /// Removes a resting order. Fails, changing nothing, when no order with
    /// this id rests in the book (never placed, already filled, or already
    /// cancelled).
    pub fn cancel(&mut self, order_id: u64) -> (r: Result<(), NotFoundError>)
        requires
            old(self).wf(),
        ensures
            final(self).wf(),
            r is Err <==> !old(self).resting(order_id),
            r is Err ==> *final(self) == *old(self),
            r is Ok ==> {
                &&& final(self).symbol == old(self).symbol
                &&& final(self).next_arrival == old(self).next_arrival
                &&& if has_id(old(self).bids@, order_id) {
                    &&& final(self).bids@ == old(self).bids@.remove(id_index(old(self).bids@, order_id))
                    &&& final(self).asks@ == old(self).asks@
                } else {
                    &&& final(self).asks@ == old(self).asks@.remove(id_index(old(self).asks@, order_id))
                    &&& final(self).bids@ == old(self).bids@
                }
            },
            !final(self).resting(order_id),
    {
        let ghost old_book = *self;
        match find_id(&self.bids, order_id) {
            Some(i) => {
                proof {
                    lemma_side_remove(Side::Buy, old_book.bids@, i as int, old_book.next_arrival);
                    lemma_apart_shrink(self.bids@.remove(i as int), self.asks@, old_book.bids@, old_book.asks@);
                    if has_id(old_book.asks@, order_id) {
                        let j = choose|j: int| 0 <= j < old_book.asks@.len() && (#[trigger] old_book.asks@[j]).order_id == order_id;
                        assert(old_book.bids@[i as int].order_id != old_book.asks@[j].order_id);
                    }
                }
                self.bids.remove(i);
                return Ok(());
            },
            None => {},
        }
        match find_id(&self.asks, order_id) {
            Some(i) => {
                proof {
                    lemma_side_remove(Side::Sell, old_book.asks@, i as int, old_book.next_arrival);
                    lemma_apart_flip(old_book.bids@, old_book.asks@);
                    lemma_apart_shrink(self.asks@.remove(i as int), self.bids@, old_book.asks@, old_book.bids@);
                    lemma_apart_flip(self.asks@.remove(i as int), self.bids@);
                }
                self.asks.remove(i);
                Ok(())
            },
            None => Err(NotFoundError),
        }
    }

    /// Copies of both sides, each in priority order: bids, then asks.
    pub fn snapshot(&self) -> (r: (Vec<RestingOrder>, Vec<RestingOrder>))
        ensures
            r.0@ == self.bids@,
            r.1@ == self.asks@,
    {
        (copy_side(&self.bids), copy_side(&self.asks))
    }
}

/// No over-fill: on submitting `order` to a well-formed book, every trade is
/// for no more than the incoming order's quantity and no more than the
/// resting order's remaining (hence original) quantity; the trades together
/// take no more than the incoming quantity; and no resting order is traded
/// against twice.
pub proof fn lemma_no_overfill(book: OrderBook, order: NewOrder)
    requires
        book.wf(),
    ensures
        ({
            let opp = book.side_of(opposite(order.side));
            let t = match_walk(order, order.quantity as nat, opp).0;
            &&& forall|k: int|
                0 <= k < t.len() ==> {
                    &&& (#[trigger] t[k]).quantity <= order.quantity
                    &&& t[k].quantity <= opp[k].remaining_quantity <= opp[k].original_quantity
                }
            &&& sum_quantity(t) <= order.quantity
            &&& forall|k1: int, k2: int|
                0 <= k1 < k2 < t.len() ==> maker_id(order.side, #[trigger] t[k1]) != maker_id(
                    order.side,
                    #[trigger] t[k2],
                )
        }),
{
    let opp = book.side_of(opposite(order.side));
    assert forall|i: int| 0 <= i < opp.len() implies (#[trigger] opp[i]).remaining_quantity > 0 by {}
    lemma_walk(order, order.quantity as nat, opp);
    let t = match_walk(order, order.quantity as nat, opp).0;
    assert forall|k: int| 0 <= k < t.len() implies {
        &&& (#[trigger] t[k]).quantity <= order.quantity
        &&& t[k].quantity <= opp[k].remaining_quantity <= opp[k].original_quantity
    } by {}
    assert forall|k1: int, k2: int| 0 <= k1 < k2 < t.len() implies maker_id(order.side, #[trigger] t[k1])
        != maker_id(order.side, #[trigger] t[k2]) by {
        assert(opp[k1].order_id != opp[k2].order_id);
    }
}

/// Price-time priority and the maker-price rule: on submitting `order`, the
/// `k`-th trade is against the `k`-th resting order of the opposite side, at
/// that order's price; so trades go best price first and, at equal prices,
/// earliest arrival first; and a limit or stop taker never trades at a price
/// worse than its limit.
pub proof fn lemma_price_time_priority(book: OrderBook, order: NewOrder)
    requires
        book.wf(),
    ensures
        ({
            let opp = book.side_of(opposite(order.side));
            let t = match_walk(order, order.quantity as nat, opp).0;
            &&& t.len() <= opp.len()
            &&& forall|k: int|
                0 <= k < t.len() ==> {
                    &&& maker_id(order.side, #[trigger] t[k]) == opp[k].order_id
                    &&& t[k].price == opp[k].price
                    &&& accepts(order.side, order.order_type, order.price, t[k].price)
                }
            &&& forall|k1: int, k2: int|
                0 <= k1 < k2 < t.len() ==> ahead(opposite(order.side), #[trigger] opp[k1], #[trigger] opp[k2])
        }),
{
    let opp = book.side_of(opposite(order.side));
    assert forall|i: int| 0 <= i < opp.len() implies (#[trigger] opp[i]).remaining_quantity > 0 by {}
    lemma_walk(order, order.quantity as nat, opp);
    lemma_walk_accepts(order, order.quantity as nat, opp);
}

proof fn lemma_walk_accepts(taker: NewOrder, remaining: nat, book: Seq<RestingOrder>)
    ensures
        ({
            let t = match_walk(taker, remaining, book).0;
            forall|k: int|
                0 <= k < t.len() ==> accepts(taker.side, taker.order_type, taker.price, #[trigger] t[k].price)
        }),
    decreases remaining + book.len(),
{
    if remaining == 0 || book.len() == 0 || !accepts(taker.side, taker.order_type, taker.price, book[0].price) {
    } else {
        let m = book[0];
        if remaining >= m.remaining_quantity {
            lemma_walk_accepts(taker, (remaining - m.remaining_quantity) as nat, book.drop_first());
            let rest = match_walk(taker, (remaining - m.remaining_quantity) as nat, book.drop_first());
            let t = seq![trade_between(taker, m, m.remaining_quantity)] + rest.0;
            assert forall|k: int| 0 <= k < t.len() implies accepts(
                taker.side,
                taker.order_type,
                taker.price,
                #[trigger] t[k].price,
            ) by {
                if k > 0 {
                    assert(t[k] == rest.0[k - 1]);
                }
            }
        }
    }
}

impl MatchedTrade {
    /// A copy of this trade.
    pub fn copy(&self) -> (r: MatchedTrade)
        ensures
            r == *self,
    {
        MatchedTrade {
            buy_order_id: self.buy_order_id,
            sell_order_id: self.sell_order_id,
            symbol: self.symbol.clone(),
            quantity: self.quantity,
            price: self.price,
            buyer_id: self.buyer_id.clone(),
            seller_id: self.seller_id.clone(),
        }
    }
}

} // verus!
