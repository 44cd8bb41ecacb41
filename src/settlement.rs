//! Applies matched trades to the portfolios of both parties, exactly once per
//! trade.
//!
//! A trade is known by its pair of order ids. The ledger has already
//! committed it, so it is recorded as settled and appended to the history
//! whatever happens to the portfolios, and a redelivered trade is never
//! applied twice. The buyer's side and the seller's side are independent
//! writes, each read-compute-compare-and-set with a bounded number of
//! attempts: one side failing does not stop the other, and every failure is
//! returned, side by side, for manual reconciliation. Nothing is made up to
//! hide it.
use vstd::prelude::*;
use crate::book::MatchedTrade;
use crate::portfolio::{
    buy_fill, buy_fits_at, is_after_buy, is_after_sell, lemma_buy_adds_shares, lemma_sell_removes_shares, sell_covered, sell_fill, sell_fits_at,
    shares_of, Portfolio, SettlementError,
};
use crate::store::{
    cas_outcome, has_user, next_version, user_index, users_distinct, PortfolioStore, StoreError, StoredPortfolio,
};

verus! {

/// Attempts made at one portfolio write before giving up.
pub const MAX_ATTEMPTS: u32 = 5;

#[derive(Clone, Copy, Debug, PartialEq, Eq, Structural)]
pub enum SettleOutcome {
    /// The trade was applied now.
    Settled,
    /// The trade had been applied before; nothing changed.
    AlreadySettled,
}

/// The failures of a settlement: each party's error, where its side could
/// not be written.
#[derive(Clone, Copy, Debug, PartialEq, Eq, Structural)]
pub struct SideErrors {
    pub buyer: Option<SettlementError>,
    pub seller: Option<SettlementError>,
}

/// What a single compare-and-set write came to.
#[derive(Clone, Copy, Debug, PartialEq, Eq, Structural)]
pub enum WriteOutcome {
    Written,
    /// The stored version had moved on since the read.
    Conflict,
}

/// What a writer does next.
#[derive(Clone, Copy, Debug, PartialEq, Eq, Structural)]
pub enum RetryStep {
    /// The write is done.
    Done,
    /// Read afresh, recompute, and write again.
    Retry,
    /// Stop, reporting `StorageConflict`.
    GiveUp,
}

/// The next step after a write, `attempts` being the number of attempts made
/// so far, this one included.
pub open spec fn retry_step(attempts: u32, outcome: WriteOutcome) -> RetryStep {
    match outcome {
        WriteOutcome::Written => RetryStep::Done,
        WriteOutcome::Conflict => if attempts < MAX_ATTEMPTS {
            RetryStep::Retry
        } else {
            RetryStep::GiveUp
        },
    }
}

/// Decides what a writer does after a write; see `retry_step`. Following it
/// from a first attempt, a writer makes at most `MAX_ATTEMPTS` attempts, and
/// gives up only after that many conflicts in a row.
pub fn next_step(attempts: u32, outcome: WriteOutcome) -> (r: RetryStep)
    ensures
        r == retry_step(attempts, outcome),
{
    match outcome {
        WriteOutcome::Written => RetryStep::Done,
        WriteOutcome::Conflict => if attempts < MAX_ATTEMPTS {
            RetryStep::Retry
        } else {
            RetryStep::GiveUp
        },
    }
}

/// The result of a settlement whose two sides ended with these errors.
pub open spec fn outcome_of(buyer: Option<SettlementError>, seller: Option<SettlementError>) -> Result<
    SettleOutcome,
    SideErrors,
> {
    if buyer is None && seller is None {
        Ok(SettleOutcome::Settled)
    } else {
        Err(SideErrors { buyer, seller })
    }
}

/// Combines the two sides' errors into the result of a settlement.
pub fn combine_sides(buyer: Option<SettlementError>, seller: Option<SettlementError>) -> (r: Result<
    SettleOutcome,
    SideErrors,
>)
    ensures
        r == outcome_of(buyer, seller),
{
    if buyer.is_none() && seller.is_none() {
        Ok(SettleOutcome::Settled)
    } else {
        Err(SideErrors { buyer, seller })
    }
}

pub struct SettlementProcessor {
    pub store: PortfolioStore,
    pub processed: Vec<(u64, u64)>,
}

pub open spec fn trade_key(t: MatchedTrade) -> (u64, u64) {
    (t.buy_order_id, t.sell_order_id)
}

pub open spec fn already_settled(processed: Seq<(u64, u64)>, t: MatchedTrade) -> bool {
    exists|i: int| 0 <= i < processed.len() && processed[i] == trade_key(t)
}

/// Why the buyer's side cannot be written, if it cannot.
pub open spec fn buy_error(entries: Seq<StoredPortfolio>, t: MatchedTrade) -> Option<SettlementError> {
    let i = user_index(entries, t.buyer_id@);
    if i < 0 {
        Some(SettlementError::PortfolioNotFound)
    } else if !buy_fits_at(entries[i].portfolio, t.symbol@, t.quantity, t.price) {
        Some(SettlementError::Overflow)
    } else {
        None
    }
}

/// Why the seller's side cannot be written, if it cannot.
pub open spec fn sell_error(entries: Seq<StoredPortfolio>, t: MatchedTrade) -> Option<SettlementError> {
    let i = user_index(entries, t.seller_id@);
    if i < 0 {
        Some(SettlementError::PortfolioNotFound)
    } else if !sell_covered(entries[i].portfolio, t.symbol@, t.quantity) {
        Some(SettlementError::InsufficientHoldings)
    } else if !sell_fits_at(entries[i].portfolio, t.quantity, t.price) {
        Some(SettlementError::Overflow)
    } else {
        None
    }
}

/// `after` is `before` with the portfolio of `uid` rewritten and its
/// version advanced, every other entry as it was.
pub open spec fn one_rewritten(
    before: Seq<StoredPortfolio>,
    after: Seq<StoredPortfolio>,
    uid: Seq<char>,
) -> bool {
    let i = user_index(before, uid);
    &&& 0 <= i < before.len()
    &&& after.len() == before.len()
    &&& forall|j: int| 0 <= j < before.len() && j != i ==> #[trigger] after[j] == before[j]
    &&& after[i].user_id == before[i].user_id
    &&& after[i].version == next_version(before[i].version)
}

pub open spec fn bought_in(before: Seq<StoredPortfolio>, after: Seq<StoredPortfolio>, t: MatchedTrade) -> bool {
    let i = user_index(before, t.buyer_id@);
    &&& one_rewritten(before, after, t.buyer_id@)
    &&& is_after_buy(before[i].portfolio, after[i].portfolio, t.symbol, t.quantity, t.price)
}

pub open spec fn sold_in(before: Seq<StoredPortfolio>, after: Seq<StoredPortfolio>, t: MatchedTrade) -> bool {
    let i = user_index(before, t.seller_id@);
    &&& one_rewritten(before, after, t.seller_id@)
    &&& is_after_sell(before[i].portfolio, after[i].portfolio, t.symbol@, t.quantity, t.price)
}

/// The effect of settling `t` on processor state `s`, giving `n` and `r`: a
/// trade already settled changes nothing; any other is recorded, then the
/// buyer's side is written where it can be, then the seller's side where it
/// can be (on what the buyer's write left), and the result reports both.
pub open spec fn settled(s: SettlementProcessor, n: SettlementProcessor, t: MatchedTrade, r: Result<
    SettleOutcome,
    SideErrors,
>) -> bool {
    if already_settled(s.processed@, t) {
        r == Ok::<SettleOutcome, SideErrors>(SettleOutcome::AlreadySettled) && n == s
    } else {
        &&& n.processed@ == s.processed@.push(trade_key(t))
        &&& n.store.history@ == s.store.history@.push(t)
        &&& exists|mid: Seq<StoredPortfolio>|
            {
                &&& match buy_error(s.store.entries@, t) {
                    Some(_) => mid == s.store.entries@,
                    None => bought_in(s.store.entries@, mid, t),
                }
                &&& match sell_error(mid, t) {
                    Some(_) => n.store.entries@ == mid,
                    None => sold_in(mid, n.store.entries@, t),
                }
                &&& r == outcome_of(buy_error(s.store.entries@, t), sell_error(mid, t))
            }
    }
}

/// Writes the buyer's side of `trade`, reading afresh after each conflict.
fn write_buyer(store: &mut PortfolioStore, trade: &MatchedTrade) -> (r: Result<(), SettlementError>)
    requires
        old(store).wf(),
        trade.quantity > 0,
    ensures
        final(store).wf(),
        final(store).history@ == old(store).history@,
        match buy_error(old(store).entries@, *trade) {
            Some(e) => r == Err::<(), SettlementError>(e) && *final(store) == *old(store),
            None => r is Ok && bought_in(old(store).entries@, final(store).entries@, *trade),
        },
{
    // Held exclusively, the store cannot change between the read and the
    // write; the steps of `next_step` are what a shared store relies on.
    let mut attempts: u32 = 0;
    loop
        invariant
            attempts < MAX_ATTEMPTS,
            *store == *old(store),
            store.wf(),
            trade.quantity > 0,
        decreases MAX_ATTEMPTS - attempts,
    {
        attempts = attempts + 1;
        let (p, v) = match store.get(&trade.buyer_id) {
            Some(x) => x,
            None => {
                return Err(SettlementError::PortfolioNotFound);
            },
        };
        let q = match buy_fill(&p, &trade.symbol, trade.quantity, trade.price) {
            Ok(q) => q,
            Err(e) => {
                return Err(e);
            },
        };
        let ghost e0 = store.entries@;
        let ghost i = user_index(e0, trade.buyer_id@);
        let ghost pq = q;
        match store.compare_and_set(&trade.buyer_id, q, v) {
            Ok(()) => {
                proof {
                    assert(store.entries@[i].portfolio == pq);
                    assert forall|j: int| 0 <= j < e0.len() && j != i implies #[trigger] store.entries@[j]
                        == e0[j] by {}
                }
                return Ok(());
            },
            Err(StoreError::Conflict) => match next_step(attempts, WriteOutcome::Conflict) {
                RetryStep::Retry => {},
                _ => {
                    return Err(SettlementError::StorageConflict);
                },
            },
            Err(_) => {
                return Err(SettlementError::PortfolioNotFound);
            },
        }
    }
}

/// Writes the seller's side of `trade`, reading afresh after each conflict.
fn write_seller(store: &mut PortfolioStore, trade: &MatchedTrade) -> (r: Result<(), SettlementError>)
    requires
        old(store).wf(),
        trade.quantity > 0,
    ensures
        final(store).wf(),
        final(store).history@ == old(store).history@,
        match sell_error(old(store).entries@, *trade) {
            Some(e) => r == Err::<(), SettlementError>(e) && *final(store) == *old(store),
            None => r is Ok && sold_in(old(store).entries@, final(store).entries@, *trade),
        },
{
    // Held exclusively, the store cannot change between the read and the
    // write; the steps of `next_step` are what a shared store relies on.
    let mut attempts: u32 = 0;
    loop
        invariant
            attempts < MAX_ATTEMPTS,
            *store == *old(store),
            store.wf(),
            trade.quantity > 0,
        decreases MAX_ATTEMPTS - attempts,
    {
        attempts = attempts + 1;
        let (p, v) = match store.get(&trade.seller_id) {
            Some(x) => x,
            None => {
                return Err(SettlementError::PortfolioNotFound);
            },
        };
        let q = match sell_fill(&p, &trade.symbol, trade.quantity, trade.price) {
            Ok(q) => q,
            Err(e) => {
                return Err(e);
            },
        };
        let ghost e0 = store.entries@;
        let ghost i = user_index(e0, trade.seller_id@);
        let ghost pq = q;
        match store.compare_and_set(&trade.seller_id, q, v) {
            Ok(()) => {
                proof {
                    assert(store.entries@[i].portfolio == pq);
                    assert forall|j: int| 0 <= j < e0.len() && j != i implies #[trigger] store.entries@[j]
                        == e0[j] by {}
                }
                return Ok(());
            },
            Err(StoreError::Conflict) => match next_step(attempts, WriteOutcome::Conflict) {
                RetryStep::Retry => {},
                _ => {
                    return Err(SettlementError::StorageConflict);
                },
            },
            Err(_) => {
                return Err(SettlementError::PortfolioNotFound);
            },
        }
    }
}

impl SettlementProcessor {
    pub open spec fn wf(&self) -> bool {
        self.store.wf()
    }

    pub fn new(store: PortfolioStore) -> (r: SettlementProcessor)
        requires
            store.wf(),
        ensures
            r.wf(),
            r.store == store,
            r.processed@.len() == 0,
    {
        SettlementProcessor { store, processed: Vec::new() }
    }

    /// Whether the trade with these order ids has been settled.
    pub fn is_settled(&self, buy_order_id: u64, sell_order_id: u64) -> (r: bool)
        ensures
            r == (exists|i: int|
                0 <= i < self.processed@.len() && self.processed@[i] == (buy_order_id, sell_order_id)),
    {
        let mut i: usize = 0;
        while i < self.processed.len()
            invariant
                i <= self.processed@.len(),
                forall|k: int| 0 <= k < i ==> self.processed@[k] != (buy_order_id, sell_order_id),
            decreases self.processed@.len() - i,
        {
            let (b, s) = self.processed[i];
            if b == buy_order_id && s == sell_order_id {
                return true;
            }
            i = i + 1;
        }
        false
    }

    /// Settles one matched trade: records it, debits the buyer and credits
    /// the seller, each side on its own; does nothing for a trade already
    /// settled.
    pub fn apply(&mut self, trade: &MatchedTrade) -> (r: Result<SettleOutcome, SideErrors>)
        requires
            old(self).wf(),
            trade.quantity > 0,
        ensures
            final(self).wf(),
            settled(*old(self), *final(self), *trade, r),
    {
        if self.is_settled(trade.buy_order_id, trade.sell_order_id) {
            return Ok(SettleOutcome::AlreadySettled);
        }
        let ghost e0 = self.store.entries@;
        self.processed.push((trade.buy_order_id, trade.sell_order_id));
        self.store.append_trade_history(trade.copy());
        let buyer = match write_buyer(&mut self.store, trade) {
            Ok(()) => None,
            Err(e) => Some(e),
        };
        let ghost mid = self.store.entries@;
        let seller = match write_seller(&mut self.store, trade) {
            Ok(()) => None,
            Err(e) => Some(e),
        };
        proof {
            assert(buyer == buy_error(e0, *trade));
            assert(seller == sell_error(mid, *trade));
        }
        combine_sides(buyer, seller)
    }
}

/// Idempotence: applying the same trade a second time changes nothing and
/// reports it as already settled, so a trade changes portfolio state at most
/// once however often it is delivered.
pub proof fn lemma_settle_idempotent(
    s0: SettlementProcessor,
    s1: SettlementProcessor,
    s2: SettlementProcessor,
    t: MatchedTrade,
    r1: Result<SettleOutcome, SideErrors>,
    r2: Result<SettleOutcome, SideErrors>,
)
    requires
        settled(s0, s1, t, r1),
        settled(s1, s2, t, r2),
    ensures
        s2 == s1,
        r2 == Ok::<SettleOutcome, SideErrors>(SettleOutcome::AlreadySettled),
{
    if !already_settled(s0.processed@, t) {
        let n = s0.processed@.len() as int;
        assert(s1.processed@[n] == trade_key(t));
    }
}

proof fn lemma_user_index_kept(entries: Seq<StoredPortfolio>, uid: Seq<char>, e: StoredPortfolio)
    requires
        users_distinct(entries),
        has_user(entries, uid),
        e.user_id == entries[user_index(entries, uid)].user_id,
    ensures
        users_distinct(entries.update(user_index(entries, uid), e)),
        has_user(entries.update(user_index(entries, uid), e), uid),
        user_index(entries.update(user_index(entries, uid), e), uid) == user_index(entries, uid),
{
    let i = user_index(entries, uid);
    let n = entries.update(i, e);
    assert forall|a: int, b: int| 0 <= a < b < n.len() implies (#[trigger] n[a]).user_id@
        != (#[trigger] n[b]).user_id@ by {
        assert(entries[a].user_id@ != entries[b].user_id@);
    }
    assert(n[i].user_id@ == uid);
    let j = user_index(n, uid);
    if j != i {
        if j < i {
            assert(n[j].user_id@ != n[i].user_id@);
        } else {
            assert(n[i].user_id@ != n[j].user_id@);
        }
    }
}

/// No lost update. Two writers read the same version of a user's portfolio
/// and each computes a buy fill of `symbol` from it. Writer B writes first and
/// succeeds. Writer A's write, based on the version it read, is then refused
/// as a conflict. A reads again, recomputes its fill on B's result, and its
/// write succeeds. The stored portfolio then reflects both fills, in shares
/// and in cash.
pub proof fn lemma_no_lost_update(
    entries: Seq<StoredPortfolio>,
    uid: Seq<char>,
    symbol: String,
    qa: u32,
    pa: u32,
    qb: u32,
    pb: u32,
    stale_a: Portfolio,
    from_b: Portfolio,
    fresh_a: Portfolio,
)
    requires
        users_distinct(entries),
        has_user(entries, uid),
        ({
            let base = entries[user_index(entries, uid)].portfolio;
            &&& base.wf()
            &&& from_b.wf()
            &&& buy_fits_at(base, symbol@, qb, pb)
            &&& is_after_buy(base, from_b, symbol, qb, pb)
            &&& is_after_buy(base, stale_a, symbol, qa, pa)
            &&& buy_fits_at(from_b, symbol@, qa, pa)
            &&& is_after_buy(from_b, fresh_a, symbol, qa, pa)
        }),
    ensures
        ({
            let i = user_index(entries, uid);
            let base = entries[i].portfolio;
            let v0 = entries[i].version;
            let after_b = cas_outcome(entries, uid, from_b, v0);
            &&& after_b is Ok
            &&& cas_outcome(after_b->Ok_0, uid, stale_a, v0) == Err::<Seq<StoredPortfolio>, StoreError>(
                StoreError::Conflict,
            )
            &&& cas_outcome(after_b->Ok_0, uid, fresh_a, next_version(v0)) is Ok
            &&& {
                let last = cas_outcome(after_b->Ok_0, uid, fresh_a, next_version(v0))->Ok_0;
                &&& last[i].portfolio == fresh_a
                &&& shares_of(fresh_a.assets@, symbol@) == shares_of(base.assets@, symbol@) + qa + qb
                &&& fresh_a.total_money == base.total_money - qa * pa - qb * pb
            }
        }),
{
    let i = user_index(entries, uid);
    let base = entries[i].portfolio;
    let v0 = entries[i].version;
    let eb = StoredPortfolio { user_id: entries[i].user_id, portfolio: from_b, version: next_version(v0) };
    lemma_user_index_kept(entries, uid, eb);
    let e1 = entries.update(i, eb);
    assert(next_version(v0) != v0);
    let ea = StoredPortfolio { user_id: e1[i].user_id, portfolio: fresh_a, version: next_version(next_version(v0)) };
    lemma_user_index_kept(e1, uid, ea);
    lemma_buy_adds_shares(base, from_b, symbol, qb, pb);
    lemma_buy_adds_shares(from_b, fresh_a, symbol, qa, pa);
}

proof fn lemma_rewrite_keeps_index(
    before: Seq<StoredPortfolio>,
    after: Seq<StoredPortfolio>,
    uid: Seq<char>,
    other: Seq<char>,
)
    requires
        users_distinct(before),
        one_rewritten(before, after, uid),
    ensures
        users_distinct(after),
        has_user(after, other) == has_user(before, other),
        user_index(after, other) == user_index(before, other),
{
    let i = user_index(before, uid);
    assert forall|a: int, b: int| 0 <= a < b < after.len() implies (#[trigger] after[a]).user_id@
        != (#[trigger] after[b]).user_id@ by {
        assert(before[a].user_id@ != before[b].user_id@);
    }
    assert forall|k: int| 0 <= k < after.len() implies (#[trigger] after[k]).user_id == before[k].user_id by {}
    if has_user(before, other) {
        let j = user_index(before, other);
        assert(after[j].user_id@ == other);
        let k = user_index(after, other);
        if k != j {
            if k < j {
                assert(after[k].user_id@ != after[j].user_id@);
            } else {
                assert(after[j].user_id@ != after[k].user_id@);
            }
        }
    } else if has_user(after, other) {
        let k = choose|k: int| 0 <= k < after.len() && (#[trigger] after[k]).user_id@ == other;
        assert(before[k].user_id@ == other);
    }
}

/// Conservation through the processor: when a trade between two different
/// users settles fully, the buyer's cash falls and the seller's cash rises by
/// exactly its notional, and the shares of the symbol the two hold together are
/// unchanged.
pub proof fn lemma_apply_conserves(
    s: SettlementProcessor,
    n: SettlementProcessor,
    t: MatchedTrade,
    r: Result<SettleOutcome, SideErrors>,
)
    requires
        s.wf(),
        settled(s, n, t, r),
        r == Ok::<SettleOutcome, SideErrors>(SettleOutcome::Settled),
        t.buyer_id@ != t.seller_id@,
    ensures
        ({
            let e0 = s.store.entries@;
            let e1 = n.store.entries@;
            let ib = user_index(e0, t.buyer_id@);
            let is = user_index(e0, t.seller_id@);
            &&& 0 <= ib < e0.len() && 0 <= is < e0.len()
            &&& user_index(e1, t.buyer_id@) == ib && user_index(e1, t.seller_id@) == is
            &&& e1[ib].portfolio.total_money == e0[ib].portfolio.total_money - t.quantity * t.price
            &&& e1[is].portfolio.total_money == e0[is].portfolio.total_money + t.quantity * t.price
            &&& shares_of(e1[ib].portfolio.assets@, t.symbol@) + shares_of(e1[is].portfolio.assets@, t.symbol@)
                == shares_of(e0[ib].portfolio.assets@, t.symbol@) + shares_of(e0[is].portfolio.assets@, t.symbol@)
        }),
{
    let e0 = s.store.entries@;
    let e1 = n.store.entries@;
    if already_settled(s.processed@, t) {
        assert(false);
    }
    let mid = choose|mid: Seq<StoredPortfolio>|
        {
            &&& match buy_error(e0, t) {
                Some(_) => mid == e0,
                None => bought_in(e0, mid, t),
            }
            &&& match sell_error(mid, t) {
                Some(_) => e1 == mid,
                None => sold_in(mid, e1, t),
            }
            &&& r == outcome_of(buy_error(e0, t), sell_error(mid, t))
        };
    assert(buy_error(e0, t) is None && sell_error(mid, t) is None);
    let ib = user_index(e0, t.buyer_id@);
    let is0 = user_index(e0, t.seller_id@);
    lemma_rewrite_keeps_index(e0, mid, t.buyer_id@, t.seller_id@);
    lemma_rewrite_keeps_index(e0, mid, t.buyer_id@, t.buyer_id@);
    lemma_rewrite_keeps_index(mid, e1, t.seller_id@, t.buyer_id@);
    lemma_rewrite_keeps_index(mid, e1, t.seller_id@, t.seller_id@);
    assert(e0[ib].user_id@ == t.buyer_id@);
    assert(mid[is0].user_id@ == t.seller_id@);
    assert(ib != is0);
    assert(mid[is0] == e0[is0]);
    assert(e1[ib] == mid[ib]);
    assert(e0[ib].portfolio.wf());
    assert(mid[is0].portfolio.wf());
    lemma_buy_adds_shares(e0[ib].portfolio, mid[ib].portfolio, t.symbol, t.quantity, t.price);
    lemma_sell_removes_shares(mid[is0].portfolio, e1[is0].portfolio, t.symbol@, t.quantity, t.price);
}

} // verus!
