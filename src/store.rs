//! An in-memory portfolio store with per-portfolio versions.
//!
//! Every update is conditional on the version read with the portfolio
//! (compare-and-set): a write based on a stale read is refused, and the
//! writer must read again.
use vstd::prelude::*;
use crate::book::MatchedTrade;
use crate::portfolio::{copy_portfolio, Portfolio};

verus! {

pub struct StoredPortfolio {
    pub user_id: String,
    pub portfolio: Portfolio,
    pub version: u64,
}

pub struct PortfolioStore {
    pub entries: Vec<StoredPortfolio>,
    pub history: Vec<MatchedTrade>,
}

#[derive(Clone, Copy, Debug, PartialEq, Eq, Structural)]
pub enum StoreError {
    /// No portfolio is stored for the user.
    NotFound,
    /// The stored version is not the one the write was based on.
    Conflict,
    /// A portfolio is already stored for the user.
    AlreadyExists,
}

pub open spec fn has_user(entries: Seq<StoredPortfolio>, uid: Seq<char>) -> bool {
    exists|i: int| 0 <= i < entries.len() && (#[trigger] entries[i]).user_id@ == uid
}

/// Where the portfolio of `uid` stands, or -1.
pub open spec fn user_index(entries: Seq<StoredPortfolio>, uid: Seq<char>) -> int {
    if has_user(entries, uid) {
        choose|i: int| 0 <= i < entries.len() && (#[trigger] entries[i]).user_id@ == uid
    } else {
        -1
    }
}

pub open spec fn users_distinct(entries: Seq<StoredPortfolio>) -> bool {
    forall|i: int, j: int|
        0 <= i < j < entries.len() ==> (#[trigger] entries[i]).user_id@ != (#[trigger] entries[j]).user_id@
}

/// The version after a successful write.
pub open spec fn next_version(v: u64) -> u64 {
    if v == u64::MAX {
        0
    } else {
        (v + 1) as u64
    }
}

/// What a compare-and-set of `p` for `uid`, based on version `expected`,
/// does to `entries`.
pub open spec fn cas_outcome(entries: Seq<StoredPortfolio>, uid: Seq<char>, p: Portfolio, expected: u64) -> Result<
    Seq<StoredPortfolio>,
    StoreError,
> {
    let i = user_index(entries, uid);
    if i < 0 {
        Err(StoreError::NotFound)
    } else if entries[i].version != expected {
        Err(StoreError::Conflict)
    } else {
        Ok(entries.update(i, StoredPortfolio { user_id: entries[i].user_id, portfolio: p, version: next_version(expected) }))
    }
}

impl PortfolioStore {
    pub open spec fn wf(&self) -> bool {
        &&& users_distinct(self.entries@)
        &&& forall|i: int| 0 <= i < self.entries@.len() ==> (#[trigger] self.entries@[i]).portfolio.wf()
    }

    pub fn new() -> (r: PortfolioStore)
        ensures
            r.wf(),
            r.entries@.len() == 0,
            r.history@.len() == 0,
    {
        PortfolioStore { entries: Vec::new(), history: Vec::new() }
    }

    fn find(&self, user_id: &String) -> (r: Option<usize>)
        requires
            users_distinct(self.entries@),
        ensures
            r matches Some(i) ==> i < self.entries@.len() && user_index(self.entries@, user_id@) == i,
            r is None ==> !has_user(self.entries@, user_id@) && user_index(self.entries@, user_id@) == -1,
    {
        let mut i: usize = 0;
        while i < self.entries.len()
            invariant
                users_distinct(self.entries@),
                i <= self.entries@.len(),
                forall|k: int| 0 <= k < i ==> (#[trigger] self.entries@[k]).user_id@ != user_id@,
            decreases self.entries@.len() - i,
        {
            if self.entries[i].user_id.eq(user_id) {
                proof {
                    let e = self.entries@;
                    assert(has_user(e, user_id@));
                    let j = user_index(e, user_id@);
                    if j < i {
                        assert(e[j].user_id@ != e[i as int].user_id@);
                    } else if j > i {
                        assert(e[i as int].user_id@ != e[j].user_id@);
                    }
                }
                return Some(i);
            }
            i = i + 1;
        }
        None
    }

    /// Stores a new portfolio for `user_id` at version 0.
    pub fn insert(&mut self, user_id: String, portfolio: Portfolio) -> (r: Result<(), StoreError>)
        requires
            old(self).wf(),
            portfolio.wf(),
        ensures
            final(self).wf(),
            final(self).history@ == old(self).history@,
            r is Err <==> has_user(old(self).entries@, user_id@),
            r is Err ==> r == Err::<(), StoreError>(StoreError::AlreadyExists) && *final(self) == *old(self),
            r is Ok ==> final(self).entries@ == old(self).entries@.push(
                StoredPortfolio { user_id, portfolio, version: 0 },
            ),
    {
        if self.find(&user_id).is_some() {
            return Err(StoreError::AlreadyExists);
        }
        let ghost e0 = self.entries@;
        self.entries.push(StoredPortfolio { user_id, portfolio, version: 0 });
        proof {
            let e = self.entries@;
            assert forall|i: int, j: int| 0 <= i < j < e.len() implies (#[trigger] e[i]).user_id@
                != (#[trigger] e[j]).user_id@ by {
                if j < e.len() - 1 {
                    assert(e0[i].user_id@ != e0[j].user_id@);
                } else {
                    assert(e[i] == e0[i]);
                }
            }
            assert forall|i: int| 0 <= i < e.len() implies (#[trigger] e[i]).portfolio.wf() by {
                if i < e.len() - 1 {
                    assert(e[i] == e0[i]);
                }
            }
        }
        Ok(())
    }

    /// The stored portfolio of `user_id` with its version.
    pub fn get(&self, user_id: &String) -> (r: Option<(Portfolio, u64)>)
        requires
            self.wf(),
        ensures
            r is None <==> !has_user(self.entries@, user_id@),
            r matches Some((p, v)) ==> {
                let e = self.entries@[user_index(self.entries@, user_id@)];
                &&& p.portfolio_id == e.portfolio.portfolio_id
                &&& p.total_money == e.portfolio.total_money
                &&& p.assets@ == e.portfolio.assets@
                &&& v == e.version
                &&& p.wf()
            },
    {
        match self.find(user_id) {
            Some(i) => {
                let e = &self.entries[i];
                proof {
                    assert(self.entries@[i as int].portfolio.wf());
                }
                Some((copy_portfolio(&e.portfolio), e.version))
            },
            None => None,
        }
    }

    /// Writes `portfolio` for `user_id` only if its stored version is still
    /// `expected`; the version then advances.
    pub fn compare_and_set(&mut self, user_id: &String, portfolio: Portfolio, expected: u64) -> (r: Result<
        (),
        StoreError,
    >)
        requires
            old(self).wf(),
            portfolio.wf(),
        ensures
            final(self).wf(),
            final(self).history@ == old(self).history@,
            match cas_outcome(old(self).entries@, user_id@, portfolio, expected) {
                Ok(e) => r is Ok && final(self).entries@ == e,
                Err(x) => r == Err::<(), StoreError>(x) && *final(self) == *old(self),
            },
    {
        let i = match self.find(user_id) {
            Some(i) => i,
            None => {
                return Err(StoreError::NotFound);
            },
        };
        if self.entries[i].version != expected {
            return Err(StoreError::Conflict);
        }
        let version: u64 = if expected == u64::MAX {
            0
        } else {
            expected + 1
        };
        let ghost e0 = self.entries@;
        let uid = self.entries[i].user_id.clone();
        self.entries.set(i, StoredPortfolio { user_id: uid, portfolio, version });
        proof {
            let e = self.entries@;
            assert forall|a: int, b: int| 0 <= a < b < e.len() implies (#[trigger] e[a]).user_id@
                != (#[trigger] e[b]).user_id@ by {
                assert(e0[a].user_id@ != e0[b].user_id@);
            }
            assert forall|a: int| 0 <= a < e.len() implies (#[trigger] e[a]).portfolio.wf() by {
                if a != i {
                    assert(e[a] == e0[a]);
                }
            }
        }
        Ok(())
    }

    /// Appends a trade to the trade history.
    pub fn append_trade_history(&mut self, trade: MatchedTrade)
        ensures
            final(self).history@ == old(self).history@.push(trade),
            final(self).entries@ == old(self).entries@,
    {
        self.history.push(trade);
    }
}

} // verus!
