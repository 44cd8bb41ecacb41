//! One symbol's venue: the order book and the settlement of what it matches.
//!
//! An accepted order is matched first; each trade it produced is then
//! settled, in the order the trades were made.
use vstd::prelude::*;
use crate::book::{
    has_id, id_index, lemma_walk, match_walk, opposite, submitted, valid_order, BookError, MatchedTrade, NewOrder, NotFoundError,
    OrderBook, RestingOrder,
};
use crate::settlement::{settled, SettleOutcome, SettlementProcessor, SideErrors};
use crate::store::PortfolioStore;

verus! {

pub struct Venue {
    pub book: OrderBook,
    pub settlement: SettlementProcessor,
}

/// What submitting an order did: the trades, how the settlement of each went,
/// and the remainder left resting, if any.
pub struct SubmitReport {
    pub trades: Vec<MatchedTrade>,
    pub settlements: Vec<Result<SettleOutcome, SideErrors>>,
    pub residual: Option<RestingOrder>,
}

/// Whether `states` is a run of the settlement processor over `trades`, with
/// results `results`.
pub open spec fn settled_in_turn(
    states: Seq<SettlementProcessor>,
    trades: Seq<MatchedTrade>,
    results: Seq<Result<SettleOutcome, SideErrors>>,
) -> bool {
    &&& states.len() == trades.len() + 1
    &&& results.len() == trades.len()
    &&& forall|i: int| 0 <= i < trades.len() ==> settled(#[trigger] states[i], states[i + 1], trades[i], results[i])
}

/// Settles each of `trades`, first to last.
fn settle_in_turn(sp: &mut SettlementProcessor, trades: &Vec<MatchedTrade>) -> (r: Vec<
    Result<SettleOutcome, SideErrors>,
>)
    requires
        old(sp).wf(),
        forall|k: int| 0 <= k < trades@.len() ==> (#[trigger] trades@[k]).quantity > 0,
    ensures
        final(sp).wf(),
        exists|states: Seq<SettlementProcessor>|
            {
                &&& settled_in_turn(states, trades@, r@)
                &&& states[0] == *old(sp)
                &&& states.last() == *final(sp)
            },
{
    let mut settlements: Vec<Result<SettleOutcome, SideErrors>> = Vec::new();
    let ghost mut states: Seq<SettlementProcessor> = seq![*sp];
    let mut i: usize = 0;
    while i < trades.len()
        invariant
            sp.wf(),
            i <= trades@.len(),
            forall|k: int| 0 <= k < trades@.len() ==> (#[trigger] trades@[k]).quantity > 0,
            states.len() == i + 1,
            settlements@.len() == i,
            states[0] == *old(sp),
            states.last() == *sp,
            forall|k: int| 0 <= k < i ==> settled(#[trigger] states[k], states[k + 1], trades@[k], settlements@[k]),
        decreases trades@.len() - i,
    {
        let r = sp.apply(&trades[i]);
        settlements.push(r);
        proof {
            let prev = states;
            states = states.push(*sp);
            assert forall|k: int| 0 <= k < i + 1 implies settled(
                #[trigger] states[k],
                states[k + 1],
                trades@[k],
                settlements@[k],
            ) by {
                if k < i {
                    assert(states[k] == prev[k] && states[k + 1] == prev[k + 1]);
                }
            }
        }
        i = i + 1;
    }
    assert(settled_in_turn(states, trades@, settlements@));
    settlements
}

impl Venue {
    pub open spec fn wf(&self) -> bool {
        self.book.wf() && self.settlement.wf()
    }

    pub fn new(symbol: String, store: PortfolioStore) -> (r: Venue)
        requires
            store.wf(),
        ensures
            r.wf(),
            r.book.symbol == symbol,
            r.book.bids@.len() == 0,
            r.book.asks@.len() == 0,
            r.settlement.store == store,
            r.settlement.processed@.len() == 0,
    {
        Venue { book: OrderBook::new(symbol), settlement: SettlementProcessor::new(store) }
    }

    /// Matches `order` in the book, then settles every trade it produced.
    pub fn submit_order(&mut self, order: NewOrder) -> (r: Result<SubmitReport, BookError>)
        requires
            old(self).wf(),
        ensures
            final(self).wf(),
            r matches Err(BookError::InvalidOrder) <==> !valid_order(old(self).book, order),
            r matches Err(BookError::DuplicateOrder) <==> valid_order(old(self).book, order) && old(
                self,
            ).book.resting(order.order_id),
            r matches Err(BookError::ArrivalsExhausted) <==> valid_order(old(self).book, order) && !old(
                self,
            ).book.resting(order.order_id) && old(self).book.next_arrival == u64::MAX,
            r is Err ==> *final(self) == *old(self),
            r matches Ok(rep) ==> {
                &&& submitted(old(self).book, final(self).book, order, rep.trades@, rep.residual)
                &&& exists|states: Seq<SettlementProcessor>|
                    {
                        &&& settled_in_turn(states, rep.trades@, rep.settlements@)
                        &&& states[0] == old(self).settlement
                        &&& states.last() == final(self).settlement
                    }
            },
    {
        let ghost opp = self.book.side_of(opposite(order.side));
        let ghost taker = order;
        let ghost book_before = self.book;
        let (trades, residual) = match self.book.submit(order) {
            Ok(x) => x,
            Err(e) => {
                return Err(e);
            },
        };
        proof {
            assert forall|i: int| 0 <= i < opp.len() implies (#[trigger] opp[i]).remaining_quantity > 0 by {}
            lemma_walk(taker, taker.quantity as nat, opp);
        }
        let settlements = settle_in_turn(&mut self.settlement, &trades);
        Ok(SubmitReport { trades, settlements, residual })
    }

    /// Removes a resting order; see `OrderBook::cancel`.
    pub fn cancel_order(&mut self, order_id: u64) -> (r: Result<(), NotFoundError>)
        requires
            old(self).wf(),
        ensures
            final(self).wf(),
            r is Err <==> !old(self).book.resting(order_id),
            r is Err ==> final(self).book == old(self).book,
            r is Ok ==> {
                &&& final(self).book.symbol == old(self).book.symbol
                &&& final(self).book.next_arrival == old(self).book.next_arrival
                &&& if has_id(old(self).book.bids@, order_id) {
                    &&& final(self).book.bids@ == old(self).book.bids@.remove(
                        id_index(old(self).book.bids@, order_id),
                    )
                    &&& final(self).book.asks@ == old(self).book.asks@
                } else {
                    &&& final(self).book.asks@ == old(self).book.asks@.remove(
                        id_index(old(self).book.asks@, order_id),
                    )
                    &&& final(self).book.bids@ == old(self).book.bids@
                }
            },
            final(self).settlement == old(self).settlement,
            !final(self).book.resting(order_id),
    {
        self.book.cancel(order_id)
    }

    /// Both sides of the book, each in priority order: bids, then asks.
    pub fn order_book_snapshot(&self) -> (r: (Vec<RestingOrder>, Vec<RestingOrder>))
        ensures
            r.0@ == self.book.bids@,
            r.1@ == self.book.asks@,
    {
        self.book.snapshot()
    }
}

} // verus!
