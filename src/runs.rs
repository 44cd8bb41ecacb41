//! Fill accounting over a run of submissions to one book.
use vstd::prelude::*;
use crate::book::{has_id, opposite, submitted, MatchedTrade, NewOrder, OrderBook, RestingOrder, Side};
use crate::fills::{filled, lemma_filled_concat, lemma_side_fills, walk_setup};

verus! {

/// All trades of a run of submissions, in the order they were made.
pub open spec fn all_trades(ts: Seq<Seq<MatchedTrade>>) -> Seq<MatchedTrade>
    decreases ts.len(),
{
    if ts.len() == 0 {
        Seq::empty()
    } else {
        all_trades(ts.drop_last()) + ts.last()
    }
}

/// A resting order has exactly its original quantity less what it traded,
/// and it is one of the first `n` orders submitted, with that quantity.
pub open spec fn accounted(x: RestingOrder, all: Seq<MatchedTrade>, orders: Seq<NewOrder>, n: int) -> bool {
    &&& x.remaining_quantity == x.original_quantity - filled(all, x.order_id)
    &&& exists|i: int| 0 <= i < n && (#[trigger] orders[i]).order_id == x.order_id && orders[i].quantity == x.original_quantity
}

pub open spec fn all_accounted(s: Seq<RestingOrder>, all: Seq<MatchedTrade>, orders: Seq<NewOrder>, n: int) -> bool {
    forall|k: int| 0 <= k < s.len() ==> accounted(#[trigger] s[k], all, orders, n)
}

/// A run of accepted submissions from an empty book, with distinct order ids.
pub open spec fn accepted_run(
    books: Seq<OrderBook>,
    orders: Seq<NewOrder>,
    ts: Seq<Seq<MatchedTrade>>,
    rs: Seq<Option<RestingOrder>>,
) -> bool {
    &&& books.len() == orders.len() + 1
    &&& ts.len() == orders.len()
    &&& rs.len() == orders.len()
    &&& books[0].bids@.len() == 0
    &&& books[0].asks@.len() == 0
    &&& forall|i: int|
        0 <= i < orders.len() ==> {
            &&& (#[trigger] books[i]).wf()
            &&& !books[i].resting(orders[i].order_id)
            &&& submitted(books[i], books[i + 1], orders[i], ts[i], rs[i])
        }
    &&& forall|i: int, j: int| 0 <= i < j < orders.len() ==> (#[trigger] orders[i]).order_id != (#[trigger] orders[j]).order_id
}

proof fn lemma_step_accounts(
    o: NewOrder,
    own0: Seq<RestingOrder>,
    opp0: Seq<RestingOrder>,
    own1: Seq<RestingOrder>,
    opp1: Seq<RestingOrder>,
    t: Seq<MatchedTrade>,
    arrival: u64,
    all: Seq<MatchedTrade>,
    orders: Seq<NewOrder>,
    m: int,
)
    requires
        walk_setup(o, own0, opp0, own1, opp1, t, arrival),
        0 <= m < orders.len(),
        orders[m] == o,
        filled(all, o.order_id) == 0,
        all_accounted(own0, all, orders, m),
        all_accounted(opp0, all, orders, m),
    ensures
        all_accounted(own1, all + t, orders, m + 1),
        all_accounted(opp1, all + t, orders, m + 1),
{
    lemma_side_fills(o, own0, opp0, own1, opp1, t, arrival);
    assert forall|k: int| 0 <= k < opp1.len() implies accounted(#[trigger] opp1[k], all + t, orders, m + 1) by {
        let x = opp1[k];
        let j = choose|j: int|
            0 <= j < opp0.len() && #[trigger] opp1[k].order_id == opp0[j].order_id
                && opp1[k].original_quantity == opp0[j].original_quantity
                && opp1[k].remaining_quantity == opp0[j].remaining_quantity - filled(t, opp0[j].order_id);
        assert(accounted(opp0[j], all, orders, m));
        lemma_filled_concat(all, t, x.order_id);
        let w = choose|w: int| 0 <= w < m && (#[trigger] orders[w]).order_id == opp0[j].order_id && orders[w].quantity == opp0[j].original_quantity;
        assert(0 <= w < m + 1 && orders[w].order_id == x.order_id && orders[w].quantity == x.original_quantity);
    }
    assert forall|k: int| 0 <= k < own1.len() implies accounted(#[trigger] own1[k], all + t, orders, m + 1) by {
        let x = own1[k];
        lemma_filled_concat(all, t, x.order_id);
        if x.order_id == o.order_id && x.original_quantity == o.quantity && x.remaining_quantity == o.quantity - filled(t, o.order_id) {
            assert(orders[m].order_id == x.order_id && orders[m].quantity == x.original_quantity);
        } else {
            let j = choose|j: int| 0 <= j < own0.len() && own1[k] == own0[j];
            assert(accounted(own0[j], all, orders, m));
            assert(filled(t, own0[j].order_id) == 0);
            let w = choose|w: int| 0 <= w < m && (#[trigger] orders[w]).order_id == own0[j].order_id && orders[w].quantity == own0[j].original_quantity;
            assert(0 <= w < m + 1 && orders[w].order_id == x.order_id && orders[w].quantity == x.original_quantity);
        }
    }
}

/// What holds after the first `n` submissions of a run.
pub open spec fn prefix_ok(books: Seq<OrderBook>, orders: Seq<NewOrder>, ts: Seq<Seq<MatchedTrade>>, n: int) -> bool {
    let all = all_trades(ts.subrange(0, n));
    &&& all_accounted(books[n].bids@, all, orders, n)
    &&& all_accounted(books[n].asks@, all, orders, n)
    &&& forall|i: int| 0 <= i < n ==> filled(all, (#[trigger] orders[i]).order_id) <= orders[i].quantity
    &&& forall|id: u64|
        (forall|i: int| 0 <= i < n ==> (#[trigger] orders[i]).order_id != id) ==> #[trigger] filled(all, id) == 0
}

/// The situation of step `m` of a run, taker's side first.
pub open spec fn step_sides(books: Seq<OrderBook>, orders: Seq<NewOrder>, m: int) -> (Seq<RestingOrder>, Seq<
    RestingOrder,
>, Seq<RestingOrder>, Seq<RestingOrder>) {
    let o = orders[m];
    (
        books[m].side_of(o.side),
        books[m].side_of(opposite(o.side)),
        books[m + 1].side_of(o.side),
        books[m + 1].side_of(opposite(o.side)),
    )
}

proof fn lemma_step_setup(
    books: Seq<OrderBook>,
    orders: Seq<NewOrder>,
    ts: Seq<Seq<MatchedTrade>>,
    rs: Seq<Option<RestingOrder>>,
    m: int,
)
    requires
        accepted_run(books, orders, ts, rs),
        0 <= m < orders.len(),
        prefix_ok(books, orders, ts, m),
    ensures
        ({
            let (own0, opp0, own1, opp1) = step_sides(books, orders, m);
            let all_m = all_trades(ts.subrange(0, m));
            &&& walk_setup(orders[m], own0, opp0, own1, opp1, ts[m], books[m].next_arrival)
            &&& all_accounted(own0, all_m, orders, m)
            &&& all_accounted(opp0, all_m, orders, m)
            &&& filled(all_m, orders[m].order_id) == 0
            &&& all_trades(ts.subrange(0, m + 1)) == all_m + ts[m]
        }),
{
    let all_m = all_trades(ts.subrange(0, m));
    assert(ts.subrange(0, m + 1).drop_last() =~= ts.subrange(0, m));
    let o = orders[m];
    let b0 = books[m];
    assert(b0.wf() && !b0.resting(o.order_id) && submitted(b0, books[m + 1], o, ts[m], rs[m]));
    assert forall|i: int| 0 <= i < m implies (#[trigger] orders[i]).order_id != o.order_id by {
        assert(orders[i].order_id != orders[m].order_id);
    }
    let (own0, opp0, own1, opp1) = step_sides(books, orders, m);
    assert forall|a: int, c: int| 0 <= a < own0.len() && 0 <= c < opp0.len() implies (#[trigger] own0[a]).order_id
        != (#[trigger] opp0[c]).order_id by {
        if o.side == Side::Buy {
            assert(b0.bids@[a].order_id != b0.asks@[c].order_id);
        } else {
            assert(b0.bids@[c].order_id != b0.asks@[a].order_id);
        }
    }
    assert(forall|a: int| 0 <= a < opp0.len() ==> (#[trigger] opp0[a]).remaining_quantity > 0);
}

proof fn lemma_step_bound(
    books: Seq<OrderBook>,
    orders: Seq<NewOrder>,
    ts: Seq<Seq<MatchedTrade>>,
    rs: Seq<Option<RestingOrder>>,
    m: int,
    i: int,
)
    requires
        accepted_run(books, orders, ts, rs),
        0 <= i <= m < orders.len(),
        prefix_ok(books, orders, ts, m),
    ensures
        filled(all_trades(ts.subrange(0, m + 1)), orders[i].order_id) <= orders[i].quantity,
{
    lemma_step_setup(books, orders, ts, rs, m);
    let (own0, opp0, own1, opp1) = step_sides(books, orders, m);
    let o = orders[m];
    let t = ts[m];
    let all_m = all_trades(ts.subrange(0, m));
    lemma_side_fills(o, own0, opp0, own1, opp1, t, books[m].next_arrival);
    let id = orders[i].order_id;
    lemma_filled_concat(all_m, t, id);
    if i < m {
        assert(orders[i].order_id != orders[m].order_id);
        if has_id(opp0, id) {
            let j = choose|j: int| 0 <= j < opp0.len() && (#[trigger] opp0[j]).order_id == id;
            assert(filled(t, opp0[j].order_id) <= opp0[j].remaining_quantity);
            assert(accounted(opp0[j], all_m, orders, m));
            let w = choose|w: int|
                0 <= w < m && (#[trigger] orders[w]).order_id == opp0[j].order_id && orders[w].quantity
                    == opp0[j].original_quantity;
            if w != i {
                if w < i {
                    assert(orders[w].order_id != orders[i].order_id);
                } else {
                    assert(orders[i].order_id != orders[w].order_id);
                }
            }
        } else if has_id(own0, id) {
            let j = choose|j: int| 0 <= j < own0.len() && (#[trigger] own0[j]).order_id == id;
            assert(filled(t, own0[j].order_id) == 0);
        } else {
            assert(filled(t, id) == 0);
        }
    }
}

proof fn lemma_step_fresh(
    books: Seq<OrderBook>,
    orders: Seq<NewOrder>,
    ts: Seq<Seq<MatchedTrade>>,
    rs: Seq<Option<RestingOrder>>,
    m: int,
    id: u64,
)
    requires
        accepted_run(books, orders, ts, rs),
        0 <= m < orders.len(),
        prefix_ok(books, orders, ts, m),
        forall|i: int| 0 <= i <= m ==> (#[trigger] orders[i]).order_id != id,
    ensures
        filled(all_trades(ts.subrange(0, m + 1)), id) == 0,
{
    lemma_step_setup(books, orders, ts, rs, m);
    let (own0, opp0, own1, opp1) = step_sides(books, orders, m);
    let t = ts[m];
    let all_m = all_trades(ts.subrange(0, m));
    lemma_side_fills(orders[m], own0, opp0, own1, opp1, t, books[m].next_arrival);
    lemma_filled_concat(all_m, t, id);
    assert(orders[m].order_id != id);
    assert(forall|i: int| 0 <= i < m ==> (#[trigger] orders[i]).order_id != id);
    if has_id(opp0, id) {
        let j = choose|j: int| 0 <= j < opp0.len() && (#[trigger] opp0[j]).order_id == id;
        assert(accounted(opp0[j], all_m, orders, m));
    }
    if has_id(own0, id) {
        let j = choose|j: int| 0 <= j < own0.len() && (#[trigger] own0[j]).order_id == id;
        assert(accounted(own0[j], all_m, orders, m));
    }
}

proof fn lemma_step_rest(
    books: Seq<OrderBook>,
    orders: Seq<NewOrder>,
    ts: Seq<Seq<MatchedTrade>>,
    rs: Seq<Option<RestingOrder>>,
    m: int,
)
    requires
        accepted_run(books, orders, ts, rs),
        0 <= m < orders.len(),
        prefix_ok(books, orders, ts, m),
    ensures
        all_accounted(books[m + 1].bids@, all_trades(ts.subrange(0, m + 1)), orders, m + 1),
        all_accounted(books[m + 1].asks@, all_trades(ts.subrange(0, m + 1)), orders, m + 1),
{
    lemma_step_setup(books, orders, ts, rs, m);
    let (own0, opp0, own1, opp1) = step_sides(books, orders, m);
    lemma_step_accounts(
        orders[m],
        own0,
        opp0,
        own1,
        opp1,
        ts[m],
        books[m].next_arrival,
        all_trades(ts.subrange(0, m)),
        orders,
        m,
    );
}

proof fn lemma_run_prefix(
    books: Seq<OrderBook>,
    orders: Seq<NewOrder>,
    ts: Seq<Seq<MatchedTrade>>,
    rs: Seq<Option<RestingOrder>>,
    n: int,
)
    requires
        accepted_run(books, orders, ts, rs),
        0 <= n <= orders.len(),
    ensures
        prefix_ok(books, orders, ts, n),
    decreases n,
{
    if n == 0 {
        assert(ts.subrange(0, 0) =~= Seq::<Seq<MatchedTrade>>::empty());
        assert(all_trades(ts.subrange(0, 0)) =~= Seq::<MatchedTrade>::empty());
        assert forall|id: u64| #[trigger] filled(Seq::<MatchedTrade>::empty(), id) == 0 by {}
    } else {
        let m = n - 1;
        lemma_run_prefix(books, orders, ts, rs, m);
        lemma_step_rest(books, orders, ts, rs, m);
        let all_n = all_trades(ts.subrange(0, n));
        assert forall|i: int| 0 <= i < n implies filled(all_n, (#[trigger] orders[i]).order_id)
            <= orders[i].quantity by {
            lemma_step_bound(books, orders, ts, rs, m, i);
        }
        assert forall|id: u64| (forall|i: int| 0 <= i < n ==> (#[trigger] orders[i]).order_id != id) implies #[trigger] filled(
            all_n,
            id,
        ) == 0 by {
            lemma_step_fresh(books, orders, ts, rs, m, id);
        }
    }
}

/// No over-fill over a whole run: in any run of accepted submissions to a
/// book that starts empty, with distinct order ids, every order trades in
/// total no more than its quantity over all the trades of the run, and every
/// order still resting at the end has exactly its original quantity less all
/// it traded.
pub proof fn lemma_no_overfill_over_run(
    books: Seq<OrderBook>,
    orders: Seq<NewOrder>,
    ts: Seq<Seq<MatchedTrade>>,
    rs: Seq<Option<RestingOrder>>,
)
    requires
        accepted_run(books, orders, ts, rs),
    ensures
        forall|i: int|
            0 <= i < orders.len() ==> filled(all_trades(ts), (#[trigger] orders[i]).order_id)
                <= orders[i].quantity,
        forall|k: int|
            0 <= k < books.last().bids@.len() ==> (#[trigger] books.last().bids@[k]).remaining_quantity
                == books.last().bids@[k].original_quantity - filled(all_trades(ts), books.last().bids@[k].order_id),
        forall|k: int|
            0 <= k < books.last().asks@.len() ==> (#[trigger] books.last().asks@[k]).remaining_quantity
                == books.last().asks@[k].original_quantity - filled(all_trades(ts), books.last().asks@[k].order_id),
{
    let n = orders.len() as int;
    lemma_run_prefix(books, orders, ts, rs, n);
    assert(ts.subrange(0, n) =~= ts);
    let last = books[n];
    assert forall|k: int| 0 <= k < last.bids@.len() implies (#[trigger] last.bids@[k]).remaining_quantity
        == last.bids@[k].original_quantity - filled(all_trades(ts), last.bids@[k].order_id) by {
        assert(accounted(last.bids@[k], all_trades(ts), orders, n));
    }
    assert forall|k: int| 0 <= k < last.asks@.len() implies (#[trigger] last.asks@[k]).remaining_quantity
        == last.asks@[k].original_quantity - filled(all_trades(ts), last.asks@[k].order_id) by {
        assert(accounted(last.asks@[k], all_trades(ts), orders, n));
    }
}

} // verus!
