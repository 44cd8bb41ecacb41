//! Fill accounting: how much each order has traded, within one submission
//! and over a whole run of submissions.
use vstd::prelude::*;
use crate::book::{
    accepts, has_id, ids_apart, ids_distinct, insert_position, lemma_insert_bounds, lemma_walk, match_walk,
    resting_of, sum_quantity, trade_between, with_remaining, MatchedTrade, NewOrder, RestingOrder,
};
use crate::models::OrderType;

verus! {

/// Whether a trade involves the order `id`, on either side.
pub open spec fn involves(t: MatchedTrade, id: u64) -> bool {
    t.buy_order_id == id || t.sell_order_id == id
}

/// The quantity traded by the order `id` over `trades`.
pub open spec fn filled(trades: Seq<MatchedTrade>, id: u64) -> int
    decreases trades.len(),
{
    if trades.len() == 0 {
        0
    } else {
        (if involves(trades[0], id) {
            trades[0].quantity as int
        } else {
            0
        }) + filled(trades.drop_first(), id)
    }
}

pub(crate) proof fn lemma_filled_concat(a: Seq<MatchedTrade>, b: Seq<MatchedTrade>, id: u64)
    ensures
        filled(a + b, id) == filled(a, id) + filled(b, id),
    decreases a.len(),
{
    if a.len() > 0 {
        assert((a + b).drop_first() =~= a.drop_first() + b);
        lemma_filled_concat(a.drop_first(), b, id);
    } else {
        assert(a + b =~= b);
    }
}

/// Only the trade at `j` (if any) involves `id`.
proof fn lemma_filled_one(t: Seq<MatchedTrade>, id: u64, j: int)
    requires
        forall|k: int| 0 <= k < t.len() && k != j ==> !involves(#[trigger] t[k], id),
    ensures
        filled(t, id) == if 0 <= j < t.len() && involves(t[j], id) {
            t[j].quantity as int
        } else {
            0
        },
    decreases t.len(),
{
    if t.len() > 0 {
        let d = t.drop_first();
        assert forall|k: int| 0 <= k < d.len() && k != j - 1 implies !involves(#[trigger] d[k], id) by {
            assert(d[k] == t[k + 1]);
        }
        lemma_filled_one(d, id, j - 1);
        if j > 0 && j < t.len() {
            assert(d[j - 1] == t[j]);
        }
    }
}

/// Every trade involves `id`.
proof fn lemma_filled_all(t: Seq<MatchedTrade>, id: u64)
    requires
        forall|k: int| 0 <= k < t.len() ==> involves(#[trigger] t[k], id),
    ensures
        filled(t, id) == sum_quantity(t),
    decreases t.len(),
{
    if t.len() > 0 {
        let d = t.drop_first();
        assert forall|k: int| 0 <= k < d.len() implies involves(#[trigger] d[k], id) by {
            assert(d[k] == t[k + 1]);
        }
        lemma_filled_all(d, id);
        assert(involves(t[0], id));
    }
}

/// The walk exactly: the first `d` resting orders (those no longer on the
/// side) were filled completely, at most one more was filled in part and stays
/// at the front, and the rest are untouched.
proof fn lemma_walk_exact(taker: NewOrder, remaining: nat, book: Seq<RestingOrder>)
    requires
        forall|i: int| 0 <= i < book.len() ==> (#[trigger] book[i]).remaining_quantity > 0,
    ensures
        ({
            let (t, b, r) = match_walk(taker, remaining, book);
            let d = book.len() - b.len();
            &&& t.len() == d || t.len() == d + 1
            &&& forall|j: int| 0 <= j < d ==> (#[trigger] t[j]).quantity == book[j].remaining_quantity
            &&& t.len() == d + 1 ==> b.len() > 0 && b[0].remaining_quantity == book[d].remaining_quantity
                - t[d].quantity
            &&& forall|i: int|
                0 <= i < b.len() && (i > 0 || t.len() == d) ==> (#[trigger] b[i]).remaining_quantity
                    == book[i + d].remaining_quantity
        }),
    decreases remaining + book.len(),
{
    if remaining == 0 || book.len() == 0 || !accepts(taker.side, taker.order_type, taker.price, book[0].price) {
    } else {
        let m = book[0];
        if remaining >= m.remaining_quantity {
            let tail = book.drop_first();
            assert forall|i: int| 0 <= i < tail.len() implies (#[trigger] tail[i]).remaining_quantity > 0 by {
                assert(tail[i] == book[i + 1]);
            }
            lemma_walk_exact(taker, (remaining - m.remaining_quantity) as nat, tail);
            lemma_walk(taker, (remaining - m.remaining_quantity) as nat, tail);
            let rest = match_walk(taker, (remaining - m.remaining_quantity) as nat, tail);
            let t = seq![trade_between(taker, m, m.remaining_quantity)] + rest.0;
            let b = rest.1;
            let d = book.len() - b.len();
            assert forall|j: int| 0 <= j < d implies (#[trigger] t[j]).quantity == book[j].remaining_quantity by {
                if j > 0 {
                    assert(t[j] == rest.0[j - 1]);
                    assert(tail[j - 1] == book[j]);
                }
            }
            if t.len() == d + 1 {
                assert(t[d] == rest.0[d - 1]);
                assert(tail[d - 1] == book[d]);
            }
            assert forall|i: int| 0 <= i < b.len() && (i > 0 || t.len() == d) implies (#[trigger] b[i]).remaining_quantity
                == book[i + d].remaining_quantity by {
                assert(tail[i + d - 1] == book[i + d]);
            }
        } else {
            let b = book.update(0, with_remaining(m, (m.remaining_quantity - remaining) as u32));
            assert forall|i: int| 0 <= i < b.len() && i > 0 implies (#[trigger] b[i]).remaining_quantity
                == book[i].remaining_quantity by {}
        }
    }
}

/// The situation of one submission, with `own` the taker's side and `opp`
/// the side it walks, before (0) and after (1).
pub open spec fn walk_setup(
    o: NewOrder,
    own0: Seq<RestingOrder>,
    opp0: Seq<RestingOrder>,
    own1: Seq<RestingOrder>,
    opp1: Seq<RestingOrder>,
    t: Seq<MatchedTrade>,
    arrival: u64,
) -> bool {
    &&& ids_distinct(own0)
    &&& ids_distinct(opp0)
    &&& ids_apart(own0, opp0)
    &&& !has_id(own0, o.order_id)
    &&& !has_id(opp0, o.order_id)
    &&& forall|i: int| 0 <= i < opp0.len() ==> (#[trigger] opp0[i]).remaining_quantity > 0
    &&& t == match_walk(o, o.quantity as nat, opp0).0
    &&& opp1 == match_walk(o, o.quantity as nat, opp0).1
    &&& {
        let walk = match_walk(o, o.quantity as nat, opp0);
        if walk.2 > 0 && o.order_type != OrderType::Market {
            own1 == own0.insert(insert_position(o.side, own0, o.price), resting_of(o, walk.2 as u32, arrival))
        } else {
            own1 == own0
        }
    }
}

proof fn lemma_fills_taker_and_makers(
    o: NewOrder,
    own0: Seq<RestingOrder>,
    opp0: Seq<RestingOrder>,
    own1: Seq<RestingOrder>,
    opp1: Seq<RestingOrder>,
    t: Seq<MatchedTrade>,
    arrival: u64,
)
    requires
        walk_setup(o, own0, opp0, own1, opp1, t, arrival),
    ensures
        filled(t, o.order_id) == sum_quantity(t) <= o.quantity,
        forall|j: int|
            0 <= j < opp0.len() ==> #[trigger] filled(t, opp0[j].order_id) <= opp0[j].remaining_quantity,
{
    lemma_walk(o, o.quantity as nat, opp0);
    assert forall|k: int| 0 <= k < t.len() implies involves(#[trigger] t[k], o.order_id) by {}
    lemma_filled_all(t, o.order_id);
    assert forall|j: int| 0 <= j < opp0.len() implies #[trigger] filled(t, opp0[j].order_id)
        <= opp0[j].remaining_quantity by {
        let id = opp0[j].order_id;
        assert forall|k: int| 0 <= k < t.len() && k != j implies !involves(#[trigger] t[k], id) by {
            assert(opp0[k].order_id != opp0[j].order_id);
            assert(opp0[j].order_id != o.order_id);
        }
        lemma_filled_one(t, id, j);
    }
}

proof fn lemma_fills_untouched(
    o: NewOrder,
    own0: Seq<RestingOrder>,
    opp0: Seq<RestingOrder>,
    own1: Seq<RestingOrder>,
    opp1: Seq<RestingOrder>,
    t: Seq<MatchedTrade>,
    arrival: u64,
)
    requires
        walk_setup(o, own0, opp0, own1, opp1, t, arrival),
    ensures
        forall|j: int| 0 <= j < own0.len() ==> #[trigger] filled(t, own0[j].order_id) == 0,
        forall|id: u64|
            !has_id(own0, id) && !has_id(opp0, id) && id != o.order_id ==> #[trigger] filled(t, id) == 0,
{
    lemma_walk(o, o.quantity as nat, opp0);
    assert forall|j: int| 0 <= j < own0.len() implies #[trigger] filled(t, own0[j].order_id) == 0 by {
        let id = own0[j].order_id;
        assert forall|k: int| 0 <= k < t.len() && k != -1 implies !involves(#[trigger] t[k], id) by {
            assert(own0[j].order_id != opp0[k].order_id);
            assert(own0[j].order_id != o.order_id);
        }
        lemma_filled_one(t, id, -1);
    }
    assert forall|id: u64| !has_id(own0, id) && !has_id(opp0, id) && id != o.order_id implies #[trigger] filled(
        t,
        id,
    ) == 0 by {
        assert forall|k: int| 0 <= k < t.len() && k != -1 implies !involves(#[trigger] t[k], id) by {
            if opp0[k].order_id == id {
                assert(has_id(opp0, id));
            }
        }
        lemma_filled_one(t, id, -1);
    }
}

proof fn lemma_fills_after(
    o: NewOrder,
    own0: Seq<RestingOrder>,
    opp0: Seq<RestingOrder>,
    own1: Seq<RestingOrder>,
    opp1: Seq<RestingOrder>,
    t: Seq<MatchedTrade>,
    arrival: u64,
)
    requires
        walk_setup(o, own0, opp0, own1, opp1, t, arrival),
        filled(t, o.order_id) == sum_quantity(t),
    ensures
        forall|i: int|
            0 <= i < opp1.len() ==> exists|j: int|
                0 <= j < opp0.len() && #[trigger] opp1[i].order_id == opp0[j].order_id
                    && opp1[i].original_quantity == opp0[j].original_quantity
                    && opp1[i].remaining_quantity == opp0[j].remaining_quantity - filled(t, opp0[j].order_id),
        forall|i: int|
            0 <= i < own1.len() ==> (#[trigger] own1[i]).order_id == o.order_id && own1[i].original_quantity
                == o.quantity && own1[i].remaining_quantity == o.quantity - filled(t, o.order_id) || exists|
                j: int,
            | 0 <= j < own0.len() && own1[i] == own0[j],
{
    lemma_walk(o, o.quantity as nat, opp0);
    lemma_walk_exact(o, o.quantity as nat, opp0);
    let walk = match_walk(o, o.quantity as nat, opp0);
    let d = opp0.len() - opp1.len();
    assert forall|i: int| 0 <= i < opp1.len() implies exists|j: int|
        0 <= j < opp0.len() && #[trigger] opp1[i].order_id == opp0[j].order_id
            && opp1[i].original_quantity == opp0[j].original_quantity && opp1[i].remaining_quantity
            == opp0[j].remaining_quantity - filled(t, opp0[j].order_id) by {
        let j = i + d;
        let id = opp0[j].order_id;
        assert forall|k: int| 0 <= k < t.len() && k != j implies !involves(#[trigger] t[k], id) by {
            assert(opp0[k].order_id != opp0[j].order_id);
            assert(opp0[j].order_id != o.order_id);
        }
        lemma_filled_one(t, id, j);
        assert(opp1[i] == with_remaining(opp0[j], opp1[i].remaining_quantity));
    }
    if walk.2 > 0 && o.order_type != OrderType::Market {
        lemma_insert_bounds(o.side, own0, o.price);
        let k = insert_position(o.side, own0, o.price);
        assert forall|i: int| 0 <= i < own1.len() implies (#[trigger] own1[i]).order_id == o.order_id
            && own1[i].original_quantity == o.quantity && own1[i].remaining_quantity == o.quantity - filled(
            t,
            o.order_id,
        ) || exists|j: int| 0 <= j < own0.len() && own1[i] == own0[j] by {
            if i < k {
                assert(own1[i] == own0[i]);
            } else if i > k {
                assert(own1[i] == own0[i - 1]);
            }
        }
    } else {
        assert forall|i: int| 0 <= i < own1.len() implies (#[trigger] own1[i]).order_id == o.order_id
            && own1[i].original_quantity == o.quantity && own1[i].remaining_quantity == o.quantity - filled(
            t,
            o.order_id,
        ) || exists|j: int| 0 <= j < own0.len() && own1[i] == own0[j] by {
            assert(own1[i] == own0[i]);
        }
    }
}

/// Fill accounting of one submission.
pub(crate) proof fn lemma_side_fills(
    o: NewOrder,
    own0: Seq<RestingOrder>,
    opp0: Seq<RestingOrder>,
    own1: Seq<RestingOrder>,
    opp1: Seq<RestingOrder>,
    t: Seq<MatchedTrade>,
    arrival: u64,
)
    requires
        walk_setup(o, own0, opp0, own1, opp1, t, arrival),
    ensures
        filled(t, o.order_id) == sum_quantity(t) <= o.quantity,
        forall|j: int|
            0 <= j < opp0.len() ==> #[trigger] filled(t, opp0[j].order_id) <= opp0[j].remaining_quantity,
        forall|j: int| 0 <= j < own0.len() ==> #[trigger] filled(t, own0[j].order_id) == 0,
        forall|id: u64|
            !has_id(own0, id) && !has_id(opp0, id) && id != o.order_id ==> #[trigger] filled(t, id) == 0,
        forall|i: int|
            0 <= i < opp1.len() ==> exists|j: int|
                0 <= j < opp0.len() && #[trigger] opp1[i].order_id == opp0[j].order_id
                    && opp1[i].original_quantity == opp0[j].original_quantity
                    && opp1[i].remaining_quantity == opp0[j].remaining_quantity - filled(t, opp0[j].order_id),
        forall|i: int|
            0 <= i < own1.len() ==> (#[trigger] own1[i]).order_id == o.order_id && own1[i].original_quantity
                == o.quantity && own1[i].remaining_quantity == o.quantity - filled(t, o.order_id) || exists|
                j: int,
            | 0 <= j < own0.len() && own1[i] == own0[j],
{
    lemma_fills_taker_and_makers(o, own0, opp0, own1, opp1, t, arrival);
    lemma_fills_untouched(o, own0, opp0, own1, opp1, t, arrival);
    lemma_fills_after(o, own0, opp0, own1, opp1, t, arrival);
}

} // verus!
