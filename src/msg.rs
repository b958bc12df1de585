//! Query answers about the unbonding ledger.

use vstd::prelude::*;
use crate::hub::Hub;
use crate::ledger::{UnbondClaim, UnbondHistory};

verus! {

/// Histories returned when a query names no limit.
pub const DEFAULT_LIMIT: u32 = 10;

/// Most histories one query returns.
pub const MAX_LIMIT: u32 = 30;

#[derive(Debug)]
pub struct UnbondBatchesResponse {
    pub unbond_batches: Vec<u64>,
}

#[derive(Debug)]
pub struct AllHistoryResponse {
    pub history: Vec<(u64, UnbondHistory)>,
}

/// The claims of `user`, in ledger order, as (batch id, amount).
pub open spec fn requests_of(s: Seq<UnbondClaim>, user: u64) -> Seq<(u64, u128)>
    decreases s.len(),
{
    if s.len() == 0 {
        Seq::empty()
    } else if s.last().user == user {
        requests_of(s.drop_last(), user).push((s.last().batch_id, s.last().amount))
    } else {
        requests_of(s.drop_last(), user)
    }
}

/// How many histories a query with `limit` returns at most.
pub open spec fn effective_limit(limit: Option<u32>) -> int {
    match limit {
        None => DEFAULT_LIMIT as int,
        Some(l) => if l > MAX_LIMIT {
            MAX_LIMIT as int
        } else {
            l as int
        },
    }
}

impl Hub {
    /// The requests of `user`: (batch id, amount) for each of its claims.
    pub fn unbond_requests(&self, user: u64) -> (r: Vec<(u64, u128)>)
        ensures
            r@ == requests_of(self.claims@, user),
    {
        let mut out: Vec<(u64, u128)> = Vec::new();
        let mut i: usize = 0;
        while i < self.claims.len()
            invariant
                i <= self.claims.len(),
                out@ == requests_of(self.claims@.subrange(0, i as int), user),
            decreases self.claims.len() - i,
        {
            proof {
                assert(self.claims@.subrange(0, i + 1).drop_last() == self.claims@.subrange(0, i as int));
            }
            let c = self.claims[i];
            if c.user == user {
                out.push((c.batch_id, c.amount));
            }
            i += 1;
        }
        assert(self.claims@.subrange(0, self.claims.len() as int) == self.claims@);
        out
    }

    /// The batches that `user` has requests in, one entry per claim.
    pub fn unbond_batches(&self, user: u64) -> (r: UnbondBatchesResponse)
        ensures
            r.unbond_batches@ == requests_of(self.claims@, user).map_values(|p: (u64, u128)| p.0),
    {
        let requests = self.unbond_requests(user);
        let mut ids: Vec<u64> = Vec::new();
        let mut i: usize = 0;
        while i < requests.len()
            invariant
                i <= requests.len(),
                ids@ == requests@.subrange(0, i as int).map_values(|p: (u64, u128)| p.0),
            decreases requests.len() - i,
        {
            ids.push(requests[i].0);
            i += 1;
            assert(ids@ =~= requests@.subrange(0, i as int).map_values(|p: (u64, u128)| p.0));
        }
        assert(requests@.subrange(0, requests.len() as int) == requests@);
        UnbondBatchesResponse { unbond_batches: ids }
    }

    /// Closed batches from id `start_from` (0 when absent) on, at most
    /// `limit` of them (10 when absent, never more than 30).
    pub fn all_history(&self, start_from: Option<u64>, limit: Option<u32>) -> (r: AllHistoryResponse)
        ensures
            ({
                let start = match start_from {
                    Some(s) => s as int,
                    None => 0,
                };
                let n = if start >= self.history.len() {
                    0
                } else if self.history.len() - start < effective_limit(limit) {
                    self.history.len() - start
                } else {
                    effective_limit(limit)
                };
                r.history@ == Seq::new(
                    n as nat,
                    |i: int| ((start + i) as u64, self.history@[start + i]),
                )
            }),
    {
        let start: u64 = match start_from {
            Some(s) => s,
            None => 0,
        };
        let lim: u32 = match limit {
            None => DEFAULT_LIMIT,
            Some(l) => if l > MAX_LIMIT {
                MAX_LIMIT
            } else {
                l
            },
        };
        let mut out: Vec<(u64, UnbondHistory)> = Vec::new();
        if start >= self.history.len() as u64 {
            assert(out@ =~= Seq::new(0, |i: int| ((start + i) as u64, self.history@[start + i])));
            return AllHistoryResponse { history: out };
        }
        let s = start as usize;
        let mut k: usize = 0;
        while k < lim as usize && s + k < self.history.len()
            invariant
                s == start,
                s < self.history.len(),
                k <= lim,
                s + k <= self.history.len(),
                out@ == Seq::new(k as nat, |i: int| ((start + i) as u64, self.history@[start + i])),
            decreases lim - k,
        {
            out.push(((s + k) as u64, self.history[s + k]));
            k += 1;
            assert(out@ =~= Seq::new(k as nat, |i: int| ((start + i) as u64, self.history@[start + i])));
        }
        AllHistoryResponse { history: out }
    }
}

} // verus!
