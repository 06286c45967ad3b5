//! Read-side queries over the registry: point lookups, aggregate counts and
//! the polling queries the orchestrator drives submission with. All of them
//! are side-effect-free.

use vstd::prelude::*;

use crate::registry::{
    in_namespace, ns_count, Attempt, LogicalTx, Registry, has_fingerprint, fingerprint_slot,
    lemma_fingerprint_slot_unique,
};
use crate::types::{FinalityStatus, OperationKind, SettlementRoute};

verus! {

/// Number of entries of `s` satisfying `pred`.
pub open spec fn count_where<T>(s: Seq<T>, pred: spec_fn(T) -> bool) -> nat
    decreases s.len(),
{
    if s.len() == 0 {
        0
    } else {
        count_where(s.drop_last(), pred) + if pred(s.last()) {
            1nat
        } else {
            0nat
        }
    }
}

/// An entry with no canonical attempt yet: still in flight.
pub open spec fn is_unconfirmed(t: LogicalTx) -> bool {
    t.confirmed_attempt is None
}

/// An in-flight entry on the given settlement route, whatever the account.
pub open spec fn is_inflight_on_route(t: LogicalTx, route: SettlementRoute) -> bool {
    t.confirmed_attempt is None && t.settlement_route == route
}

impl Registry {
    /// Number of logical transactions ever created.
    pub fn tx_count(&self) -> (n: usize)
        ensures
            n == self.txs@.len(),
    {
        self.txs.len()
    }

    /// Number of attempts ever recorded.
    pub fn attempt_count(&self) -> (n: usize)
        ensures
            n == self.attempts@.len(),
    {
        self.attempts.len()
    }

    /// The logical transaction with the given id, if it exists.
    pub fn tx(&self, logical_tx_id: usize) -> (r: Option<&LogicalTx>)
        ensures
            logical_tx_id < self.txs@.len() ==> r == Some(&self.txs@[logical_tx_id as int]),
            logical_tx_id >= self.txs@.len() ==> r is None,
    {
        if logical_tx_id < self.txs.len() {
            Some(&self.txs[logical_tx_id])
        } else {
            None
        }
    }

    /// The attempt with the given id, if it exists.
    pub fn attempt(&self, attempt_id: usize) -> (r: Option<&Attempt>)
        ensures
            attempt_id < self.attempts@.len() ==> r == Some(&self.attempts@[attempt_id as int]),
            attempt_id >= self.attempts@.len() ==> r is None,
    {
        if attempt_id < self.attempts.len() {
            Some(&self.attempts[attempt_id])
        } else {
            None
        }
    }

    /// The id of the attempt carrying the given fingerprint, if any.
    pub fn attempt_by_fingerprint(&self, fingerprint: u64) -> (r: Option<usize>)
        requires
            self.wf(),
        ensures
            r is Some <==> has_fingerprint(self.attempts@, fingerprint),
            r matches Some(j) ==> j == fingerprint_slot(self.attempts@, fingerprint)
                && j < self.attempts@.len() && self.attempts@[j as int].fingerprint == fingerprint,
    {
        let r = crate::registry::find_attempt_by_fingerprint(&self.attempts, fingerprint);
        proof {
            if r is Some {
                lemma_fingerprint_slot_unique(self.attempts@, r.unwrap() as int, fingerprint);
            }
        }
        r
    }

    /// The canonical attempt of the given entry: `None` when the entry does
    /// not exist or nothing has been confirmed for it.
    pub fn confirmed_attempt_ref(&self, logical_tx_id: usize) -> (r: Option<usize>)
        ensures
            logical_tx_id < self.txs@.len() ==> r == self.txs@[logical_tx_id as int].confirmed_attempt,
            logical_tx_id >= self.txs@.len() ==> r is None,
    {
        if logical_tx_id < self.txs.len() {
            self.txs[logical_tx_id].confirmed_attempt
        } else {
            None
        }
    }

    /// The fingerprint of the canonical attempt of the given entry, if any.
    pub fn confirmed_fingerprint(&self, logical_tx_id: usize) -> (r: Option<u64>)
        requires
            self.wf(),
        ensures
            logical_tx_id < self.txs@.len() ==> (match self.txs@[logical_tx_id as int].confirmed_attempt {
                Some(k) => r == Some(self.attempts@[k as int].fingerprint),
                None => r is None,
            }),
            logical_tx_id >= self.txs@.len() ==> r is None,
    {
        if logical_tx_id >= self.txs.len() {
            return None;
        }
        proof {
            assert(crate::registry::tx_link_ok(self.txs@, self.attempts@, logical_tx_id as int));
        }
        match self.txs[logical_tx_id].confirmed_attempt {
            Some(k) => Some(self.attempts[k].fingerprint),
            None => None,
        }
    }

    /// Number of in-flight entries, across every account and route.
    pub fn unconfirmed_count(&self) -> (n: usize)
        ensures
            n == count_where(self.txs@, |t: LogicalTx| is_unconfirmed(t)),
    {
        let end = self.txs.len();
        let mut count: usize = 0;
        let mut i: usize = 0;
        while i < end
            invariant
                end == self.txs@.len(),
                0 <= i <= end,
                count <= i,
                count == count_where(
                    self.txs@.take(i as int),
                    |t: LogicalTx| is_unconfirmed(t),
                ),
            decreases end - i,
        {
            proof {
                assert(self.txs@.take(i + 1).drop_last() =~= self.txs@.take(i as int));
                assert(self.txs@.take(i + 1).last() == self.txs@[i as int]);
            }
            if self.txs[i].confirmed_attempt.is_none() {
                count = count + 1;
            }
            i = i + 1;
        }
        proof {
            assert(self.txs@.take(end as int) =~= self.txs@);
        }
        count
    }

    /// Number of in-flight entries on the given route, across every account.
    /// A migration between routes must not start while this is non-zero for
    /// the old route.
    pub fn inflight_count(&self, route: SettlementRoute) -> (n: usize)
        ensures
            n == count_where(self.txs@, |t: LogicalTx| is_inflight_on_route(t, route)),
    {
        let end = self.txs.len();
        let mut count: usize = 0;
        let mut i: usize = 0;
        while i < end
            invariant
                end == self.txs@.len(),
                0 <= i <= end,
                count <= i,
                count == count_where(
                    self.txs@.take(i as int),
                    |t: LogicalTx| is_inflight_on_route(t, route),
                ),
            decreases end - i,
        {
            proof {
                assert(self.txs@.take(i + 1).drop_last() =~= self.txs@.take(i as int));
                assert(self.txs@.take(i + 1).last() == self.txs@[i as int]);
            }
            let t = &self.txs[i];
            if t.confirmed_attempt.is_none() && t.settlement_route == route {
                count = count + 1;
            }
            i = i + 1;
        }
        proof {
            assert(self.txs@.take(end as int) =~= self.txs@);
        }
        count
    }

    /// Number of terminally failed entries.
    pub fn failed_count(&self) -> (n: usize)
        ensures
            n == count_where(self.txs@, |t: LogicalTx| t.failed),
    {
        let end = self.txs.len();
        let mut count: usize = 0;
        let mut i: usize = 0;
        while i < end
            invariant
                end == self.txs@.len(),
                0 <= i <= end,
                count <= i,
                count == count_where(self.txs@.take(i as int), |t: LogicalTx| t.failed),
            decreases end - i,
        {
            proof {
                assert(self.txs@.take(i + 1).drop_last() =~= self.txs@.take(i as int));
                assert(self.txs@.take(i + 1).last() == self.txs@[i as int]);
            }
            if self.txs[i].failed {
                count = count + 1;
            }
            i = i + 1;
        }
        proof {
            assert(self.txs@.take(end as int) =~= self.txs@);
        }
        count
    }

    /// The highest nonce ever assigned in the namespace, `None` while the
    /// namespace is empty. Exposed so a nonce allocator can be bootstrapped
    /// after a restart without separate persisted state.
    pub fn highest_nonce(&self, account: u64, route: SettlementRoute) -> (r: Option<u64>)
        requires
            self.wf(),
        ensures
            ns_count(self.txs@, account, route) == 0 ==> r is None,
            ns_count(self.txs@, account, route) > 0 ==> r == Some(
                (ns_count(self.txs@, account, route) - 1) as u64,
            ),
    {
        let n = self.next_nonce(account, route);
        if n == 0 {
            None
        } else {
            Some(n - 1)
        }
    }

    /// The oldest entry (least id, hence earliest created) that has no
    /// canonical attempt yet, with the chain it is known to target. Gates
    /// cross-cutting operations on global finality progress.
    pub fn oldest_unfinalized_across_all_accounts(&self) -> (r: Option<(Option<u64>, usize)>)
        ensures
            r matches Some((chain, i)) ==> {
                &&& i < self.txs@.len()
                &&& self.txs@[i as int].confirmed_attempt is None
                &&& chain == self.txs@[i as int].chain_id
                &&& forall|p: int|
                    0 <= p < i ==> (#[trigger] self.txs@[p]).confirmed_attempt is Some
            },
            r is None ==> forall|p: int|
                0 <= p < self.txs@.len() ==> (#[trigger] self.txs@[p]).confirmed_attempt is Some,
    {
        let end = self.txs.len();
        let mut i: usize = 0;
        while i < end
            invariant
                end == self.txs@.len(),
                0 <= i <= end,
                forall|p: int| 0 <= p < i ==> (#[trigger] self.txs@[p]).confirmed_attempt is Some,
            decreases end - i,
        {
            let t = &self.txs[i];
            if t.confirmed_attempt.is_none() {
                return Some((t.chain_id, i));
            }
            i = i + 1;
        }
        None
    }

    /// The ids of the attempts recorded for the given entry, in creation
    /// order.
    pub fn attempts_of(&self, logical_tx_id: usize) -> (r: Vec<usize>)
        ensures
            forall|p: int|
                0 <= p < r@.len() ==> (#[trigger] r@[p]) < self.attempts@.len()
                    && self.attempts@[r@[p] as int].logical_tx_id == logical_tx_id,
            forall|j: int|
                0 <= j < self.attempts@.len() && (#[trigger] self.attempts@[j]).logical_tx_id
                    == logical_tx_id ==> r@.contains(j as usize),
            forall|p: int, q: int| 0 <= p < q < r@.len() ==> r@[p] < r@[q],
    {
        let end = self.attempts.len();
        let mut out: Vec<usize> = Vec::new();
        let mut j: usize = 0;
        while j < end
            invariant
                end == self.attempts@.len(),
                0 <= j <= end,
                forall|p: int|
                    0 <= p < out@.len() ==> (#[trigger] out@[p]) < j
                        && self.attempts@[out@[p] as int].logical_tx_id == logical_tx_id,
                forall|q: int|
                    0 <= q < j && (#[trigger] self.attempts@[q]).logical_tx_id == logical_tx_id
                        ==> out@.contains(q as usize),
                forall|p: int, q: int| 0 <= p < q < out@.len() ==> out@[p] < out@[q],
            decreases end - j,
        {
            let ghost out_before = out@;
            if self.attempts[j].logical_tx_id == logical_tx_id {
                out.push(j);
            }
            proof {
                assert forall|q: int|
                    0 <= q < j + 1 && (#[trigger] self.attempts@[q]).logical_tx_id
                        == logical_tx_id implies out@.contains(q as usize) by {
                    if q < j {
                        assert(out_before.contains(q as usize));
                        let w = choose|w: int|
                            0 <= w < out_before.len() && out_before[w] == q as usize;
                        assert(out@[w] == q as usize);
                    } else {
                        assert(out@[out@.len() - 1] == j as usize);
                    }
                }
            }
            j = j + 1;
        }
        out
    }
}

/// No attempt of entry `i` is finalized (an entry with no attempts counts).
pub open spec fn all_attempts_non_final(attempts: Seq<Attempt>, i: int) -> bool {
    forall|j: int|
        0 <= j < attempts.len() && (#[trigger] attempts[j]).logical_tx_id == i ==> !(
        attempts[j].status is Finalized)
}

/// The nonce of the highest-indexed namespace member whose attempts are all
/// non-finalized; under well-formedness this is the highest such nonce,
/// since nonces grow with creation order inside a namespace.
pub open spec fn frontier_nonce(
    txs: Seq<LogicalTx>,
    attempts: Seq<Attempt>,
    account: u64,
    route: SettlementRoute,
) -> Option<u64>
    decreases txs.len(),
{
    if txs.len() == 0 {
        None
    } else if in_namespace(txs.last(), account, route) && all_attempts_non_final(
        attempts,
        txs.len() - 1,
    ) {
        Some(txs.last().nonce)
    } else {
        frontier_nonce(txs.drop_last(), attempts, account, route)
    }
}

/// Whether `next_unconfirmed` surfaces entry `i`: an unconfirmed namespace
/// member at or below the frontier, so that an unconfirmed entry with a
/// lower nonce than a confirmed one (a hole) is surfaced first and nothing
/// beyond the in-flight frontier is handed out.
pub open spec fn surfaced(
    txs: Seq<LogicalTx>,
    attempts: Seq<Attempt>,
    i: int,
    account: u64,
    route: SettlementRoute,
) -> bool {
    &&& in_namespace(txs[i], account, route)
    &&& txs[i].confirmed_attempt is None
    &&& match frontier_nonce(txs, attempts, account, route) {
        Some(b) => txs[i].nonce <= b,
        None => false,
    }
}

/// The `surfaced` test as a predicate on indices.
pub open spec fn surfaced_pred(
    txs: Seq<LogicalTx>,
    attempts: Seq<Attempt>,
    account: u64,
    route: SettlementRoute,
) -> spec_fn(int) -> bool {
    |i: int| surfaced(txs, attempts, i, account, route)
}

/// The indices below `upto` satisfying `pred`, in ascending order.
pub open spec fn ids_where(pred: spec_fn(int) -> bool, upto: int) -> Seq<int>
    decreases upto,
{
    if upto <= 0 {
        Seq::empty()
    } else if pred(upto - 1) {
        ids_where(pred, upto - 1).push(upto - 1)
    } else {
        ids_where(pred, upto - 1)
    }
}

/// The first `limit` entries of `s`.
pub open spec fn capped(s: Seq<int>, limit: int) -> Seq<int> {
    if s.len() <= limit {
        s
    } else {
        s.take(limit)
    }
}

/// A sequence of ids as mathematical integers.
pub open spec fn ids_as_ints(s: Seq<usize>) -> Seq<int> {
    s.map_values(|x: usize| x as int)
}

/// `ids_where` lists ascending indices below `upto`, all satisfying the
/// predicate, and misses none that satisfies it.
pub proof fn lemma_ids_where_shape(pred: spec_fn(int) -> bool, upto: int)
    ensures
        forall|p: int|
            0 <= p < ids_where(pred, upto).len() ==> 0 <= #[trigger] ids_where(pred, upto)[p]
                < upto && pred(ids_where(pred, upto)[p]),
        forall|p: int, q: int|
            0 <= p < q < ids_where(pred, upto).len() ==> ids_where(pred, upto)[p] < ids_where(
                pred,
                upto,
            )[q],
        forall|i: int| 0 <= i < upto && #[trigger] pred(i) ==> ids_where(pred, upto).contains(i),
    decreases upto,
{
    if upto > 0 {
        lemma_ids_where_shape(pred, upto - 1);
        let prev = ids_where(pred, upto - 1);
        assert forall|i: int| 0 <= i < upto && #[trigger] pred(i) implies ids_where(
            pred,
            upto,
        ).contains(i) by {
            if i < upto - 1 {
                assert(prev.contains(i));
                let w = choose|w: int| 0 <= w < prev.len() && prev[w] == i;
                assert(ids_where(pred, upto)[w] == i);
            } else {
                assert(ids_where(pred, upto).last() == i);
            }
        }
    }
}

/// Checks whether no attempt of entry `i` is finalized.
fn attempts_all_non_final(attempts: &Vec<Attempt>, i: usize) -> (r: bool)
    ensures
        r == all_attempts_non_final(attempts@, i as int),
{
    let end = attempts.len();
    let mut j: usize = 0;
    while j < end
        invariant
            end == attempts@.len(),
            0 <= j <= end,
            forall|q: int|
                0 <= q < j && (#[trigger] attempts@[q]).logical_tx_id == i ==> !(
                attempts@[q].status is Finalized),
        decreases end - j,
    {
        let a = &attempts[j];
        if a.logical_tx_id == i && a.status == FinalityStatus::Finalized {
            assert(!all_attempts_non_final(attempts@, i as int));
            return false;
        }
        j = j + 1;
    }
    true
}

impl Registry {
    /// The frontier of the namespace: the nonce of its newest entry whose
    /// attempts are all non-finalized, `None` when every entry has a
    /// finalized attempt or the namespace is empty.
    pub fn frontier(&self, account: u64, route: SettlementRoute) -> (r: Option<u64>)
        ensures
            r == frontier_nonce(self.txs@, self.attempts@, account, route),
    {
        let mut i = self.txs.len();
        proof {
            assert(self.txs@.take(self.txs@.len() as int) =~= self.txs@);
        }
        while i > 0
            invariant
                i <= self.txs@.len(),
                frontier_nonce(self.txs@, self.attempts@, account, route) == frontier_nonce(
                    self.txs@.take(i as int),
                    self.attempts@,
                    account,
                    route,
                ),
            decreases i,
        {
            let idx = i - 1;
            proof {
                assert(self.txs@.take(i as int).drop_last() =~= self.txs@.take(idx as int));
                assert(self.txs@.take(i as int).last() == self.txs@[idx as int]);
                assert(self.txs@.take(i as int).len() - 1 == idx);
            }
            let t = &self.txs[idx];
            if t.signing_account == account && t.settlement_route == route {
                if attempts_all_non_final(&self.attempts, idx) {
                    return Some(t.nonce);
                }
            }
            i = idx;
        }
        None
    }

    /// The in-flight entries of the namespace that the orchestrator should
    /// act on next: unconfirmed entries at or below the frontier, in nonce
    /// order, at most `limit` of them. An unconfirmed entry sitting below an
    /// already confirmed one is surfaced first; entries beyond the highest
    /// all-non-finalized nonce are held back.
    pub fn next_unconfirmed(&self, account: u64, route: SettlementRoute, limit: usize) -> (r: Vec<
        usize,
    >)
        requires
            self.wf(),
        ensures
            ids_as_ints(r@) == capped(
                ids_where(
                    surfaced_pred(self.txs@, self.attempts@, account, route),
                    self.txs@.len() as int,
                ),
                limit as int,
            ),
            r@.len() <= limit,
            forall|p: int|
                0 <= p < r@.len() ==> (#[trigger] r@[p]) < self.txs@.len() && surfaced(
                    self.txs@,
                    self.attempts@,
                    r@[p] as int,
                    account,
                    route,
                ),
            forall|p: int, q: int| 0 <= p < q < r@.len() ==> r@[p] < r@[q],
    {
        let bound_opt = self.frontier(account, route);
        let n = self.txs.len();
        let mut out: Vec<usize> = Vec::new();
        let mut i: usize = 0;
        let ghost pred = surfaced_pred(self.txs@, self.attempts@, account, route);
        while i < n
            invariant
                n == self.txs@.len(),
                0 <= i <= n,
                out@.len() <= limit,
                bound_opt == frontier_nonce(self.txs@, self.attempts@, account, route),
                pred == surfaced_pred(self.txs@, self.attempts@, account, route),
                ids_as_ints(out@) == capped(ids_where(pred, i as int), limit as int),
            decreases n - i,
        {
            let t = &self.txs[i];
            let below_bound = match bound_opt {
                Some(b) => t.nonce <= b,
                None => false,
            };
            let take_it = t.signing_account == account && t.settlement_route == route
                && t.confirmed_attempt.is_none() && below_bound;
            proof {
                assert(pred(i as int) == surfaced(
                    self.txs@,
                    self.attempts@,
                    i as int,
                    account,
                    route,
                ));
                assert(take_it == pred(i as int));
            }
            let ghost out_before = out@;
            let ghost listed_before = ids_where(pred, i as int);
            if take_it && out.len() < limit {
                out.push(i);
            }
            proof {
                let listed_now = ids_where(pred, i + 1 as int);
                if pred(i as int) {
                    assert(listed_now == listed_before.push(i as int));
                    if out_before.len() < limit {
                        assert(ids_as_ints(out_before).len() == out_before.len());
                        assert(capped(listed_before, limit as int) == ids_as_ints(out_before));
                        assert(listed_before.len() == out_before.len());
                        assert(ids_as_ints(out@) =~= ids_as_ints(out_before).push(i as int));
                        assert(capped(listed_now, limit as int) == listed_now);
                    } else {
                        assert(listed_before.len() >= limit);
                        assert(capped(listed_now, limit as int) =~= capped(
                            listed_before,
                            limit as int,
                        ));
                    }
                } else {
                    assert(listed_now == listed_before);
                }
            }
            i = i + 1;
        }
        proof {
            let listed = ids_where(pred, n as int);
            lemma_ids_where_shape(pred, n as int);
            assert forall|p: int| 0 <= p < out@.len() implies (#[trigger] out@[p]) < self.txs@.len()
                && surfaced(self.txs@, self.attempts@, out@[p] as int, account, route) by {
                assert(ids_as_ints(out@)[p] == out@[p] as int);
                assert(capped(listed, limit as int)[p] == listed[p]);
                assert(pred(listed[p]));
            }
            assert forall|p: int, q: int| 0 <= p < q < out@.len() implies out@[p] < out@[q] by {
                assert(ids_as_ints(out@)[p] == out@[p] as int);
                assert(ids_as_ints(out@)[q] == out@[q] as int);
                assert(capped(listed, limit as int)[p] == listed[p]);
                assert(capped(listed, limit as int)[q] == listed[q]);
            }
        }
        out
    }
}

/// Entry `i` has an attempt that was broadcast successfully and seen in a
/// block.
pub open spec fn tx_has_sent_attempt(attempts: Seq<Attempt>, i: int) -> bool {
    exists|j: int|
        0 <= j < attempts.len() && (#[trigger] attempts[j]).logical_tx_id == i
            && attempts[j].observed_at_block is Some && attempts[j].submitted_successfully
}

/// The highest-indexed namespace member with a successfully sent attempt.
pub open spec fn sent_frontier(
    txs: Seq<LogicalTx>,
    attempts: Seq<Attempt>,
    account: u64,
    route: SettlementRoute,
) -> Option<int>
    decreases txs.len(),
{
    if txs.len() == 0 {
        None
    } else if in_namespace(txs.last(), account, route) && tx_has_sent_attempt(
        attempts,
        txs.len() - 1,
    ) {
        Some(txs.len() - 1)
    } else {
        sent_frontier(txs.drop_last(), attempts, account, route)
    }
}

/// Whether `new_txs` lists entry `i`: a namespace member created after the
/// last one that was successfully sent, i.e. one still awaiting its first
/// broadcast.
pub open spec fn is_new_tx(
    txs: Seq<LogicalTx>,
    attempts: Seq<Attempt>,
    i: int,
    account: u64,
    route: SettlementRoute,
) -> bool {
    &&& in_namespace(txs[i], account, route)
    &&& match sent_frontier(txs, attempts, account, route) {
        Some(f) => i > f,
        None => true,
    }
}

/// The `is_new_tx` test as a predicate on indices.
pub open spec fn new_tx_pred(
    txs: Seq<LogicalTx>,
    attempts: Seq<Attempt>,
    account: u64,
    route: SettlementRoute,
) -> spec_fn(int) -> bool {
    |i: int| is_new_tx(txs, attempts, i, account, route)
}

/// Whether `unfinalized_attempts` lists attempt `j`: a non-finalized attempt,
/// optionally restricted to attempts of entries known to sit on `chain`.
pub open spec fn is_unfinalized_attempt(
    txs: Seq<LogicalTx>,
    attempts: Seq<Attempt>,
    j: int,
    chain: Option<u64>,
) -> bool {
    &&& !(attempts[j].status is Finalized)
    &&& match chain {
        Some(c) => txs[attempts[j].logical_tx_id as int].chain_id == Some(c),
        None => true,
    }
}

/// The `is_unfinalized_attempt` test as a predicate on indices.
pub open spec fn unfinalized_pred(
    txs: Seq<LogicalTx>,
    attempts: Seq<Attempt>,
    chain: Option<u64>,
) -> spec_fn(int) -> bool {
    |j: int| is_unfinalized_attempt(txs, attempts, j, chain)
}

/// Checks whether entry `i` has a successfully sent attempt.
fn tx_has_sent_attempt_exec(attempts: &Vec<Attempt>, i: usize) -> (r: bool)
    ensures
        r == tx_has_sent_attempt(attempts@, i as int),
{
    let end = attempts.len();
    let mut j: usize = 0;
    while j < end
        invariant
            end == attempts@.len(),
            0 <= j <= end,
            forall|q: int|
                0 <= q < j ==> !((#[trigger] attempts@[q]).logical_tx_id == i
                    && attempts@[q].observed_at_block is Some
                    && attempts@[q].submitted_successfully),
        decreases end - j,
    {
        let a = &attempts[j];
        if a.logical_tx_id == i && a.observed_at_block.is_some() && a.submitted_successfully {
            return true;
        }
        j = j + 1;
    }
    false
}

impl Registry {
    /// The highest-indexed entry of the namespace with a successfully sent
    /// attempt, if any.
    fn sent_frontier_exec(&self, account: u64, route: SettlementRoute) -> (r: Option<usize>)
        ensures
            match r {
                Some(f) => sent_frontier(self.txs@, self.attempts@, account, route) == Some(
                    f as int,
                ),
                None => sent_frontier(self.txs@, self.attempts@, account, route) is None,
            },
    {
        let mut i = self.txs.len();
        proof {
            assert(self.txs@.take(self.txs@.len() as int) =~= self.txs@);
        }
        while i > 0
            invariant
                i <= self.txs@.len(),
                sent_frontier(self.txs@, self.attempts@, account, route) == sent_frontier(
                    self.txs@.take(i as int),
                    self.attempts@,
                    account,
                    route,
                ),
            decreases i,
        {
            let idx = i - 1;
            proof {
                assert(self.txs@.take(i as int).drop_last() =~= self.txs@.take(idx as int));
                assert(self.txs@.take(i as int).last() == self.txs@[idx as int]);
                assert(self.txs@.take(i as int).len() - 1 == idx);
            }
            let t = &self.txs[idx];
            if t.signing_account == account && t.settlement_route == route {
                if tx_has_sent_attempt_exec(&self.attempts, idx) {
                    return Some(idx);
                }
            }
            i = idx;
        }
        None
    }

    /// The entries of the namespace created after the last successfully sent
    /// one: those still awaiting their first broadcast, in creation order,
    /// at most `limit` of them.
    pub fn new_txs(&self, account: u64, route: SettlementRoute, limit: usize) -> (r: Vec<usize>)
        ensures
            ids_as_ints(r@) == capped(
                ids_where(
                    new_tx_pred(self.txs@, self.attempts@, account, route),
                    self.txs@.len() as int,
                ),
                limit as int,
            ),
            r@.len() <= limit,
    {
        let n = self.txs.len();
        let bound = self.sent_frontier_exec(account, route);
        let mut out: Vec<usize> = Vec::new();
        let mut p: usize = 0;
        let ghost pred = new_tx_pred(self.txs@, self.attempts@, account, route);
        while p < n
            invariant
                n == self.txs@.len(),
                0 <= p <= n,
                out@.len() <= limit,
                pred == new_tx_pred(self.txs@, self.attempts@, account, route),
                ({
                    let whole = sent_frontier(self.txs@, self.attempts@, account, route);
                    match bound {
                        Some(f) => whole == Some(f as int),
                        None => whole is None,
                    }
                }),
                ids_as_ints(out@) == capped(ids_where(pred, p as int), limit as int),
            decreases n - p,
        {
            let t = &self.txs[p];
            let past_bound = match bound {
                Some(f) => p > f,
                None => true,
            };
            let take_it = t.signing_account == account && t.settlement_route == route
                && past_bound;
            proof {
                assert(pred(p as int) == is_new_tx(
                    self.txs@,
                    self.attempts@,
                    p as int,
                    account,
                    route,
                ));
                assert(take_it == pred(p as int));
            }
            let ghost out_before = out@;
            let ghost listed_before = ids_where(pred, p as int);
            if take_it && out.len() < limit {
                out.push(p);
            }
            proof {
                let listed_now = ids_where(pred, p + 1 as int);
                if pred(p as int) {
                    assert(listed_now == listed_before.push(p as int));
                    if out_before.len() < limit {
                        assert(ids_as_ints(out_before).len() == out_before.len());
                        assert(capped(listed_before, limit as int) == ids_as_ints(out_before));
                        assert(listed_before.len() == out_before.len());
                        assert(ids_as_ints(out@) =~= ids_as_ints(out_before).push(p as int));
                        assert(capped(listed_now, limit as int) == listed_now);
                    } else {
                        assert(listed_before.len() >= limit);
                        assert(capped(listed_now, limit as int) =~= capped(
                            listed_before,
                            limit as int,
                        ));
                    }
                } else {
                    assert(listed_now == listed_before);
                }
            }
            p = p + 1;
        }
        out
    }

    /// The attempts not yet finalized, oldest first, at most `limit` of
    /// them; with `chain` given, only attempts of entries known to sit on
    /// that chain.
    pub fn unfinalized_attempts(&self, limit: usize, chain: Option<u64>) -> (r: Vec<usize>)
        requires
            self.wf(),
        ensures
            ids_as_ints(r@) == capped(
                ids_where(
                    unfinalized_pred(self.txs@, self.attempts@, chain),
                    self.attempts@.len() as int,
                ),
                limit as int,
            ),
            r@.len() <= limit,
    {
        let m = self.attempts.len();
        let mut out: Vec<usize> = Vec::new();
        let mut j: usize = 0;
        let ghost pred = unfinalized_pred(self.txs@, self.attempts@, chain);
        while j < m
            invariant
                self.wf(),
                m == self.attempts@.len(),
                0 <= j <= m,
                out@.len() <= limit,
                pred == unfinalized_pred(self.txs@, self.attempts@, chain),
                ids_as_ints(out@) == capped(ids_where(pred, j as int), limit as int),
            decreases m - j,
        {
            let a = &self.attempts[j];
            let chain_ok = match chain {
                Some(c) => {
                    let t = &self.txs[a.logical_tx_id];
                    match t.chain_id {
                        Some(tc) => tc == c,
                        None => false,
                    }
                },
                None => true,
            };
            let take_it = !(a.status == FinalityStatus::Finalized) && chain_ok;
            proof {
                assert(pred(j as int) == is_unfinalized_attempt(
                    self.txs@,
                    self.attempts@,
                    j as int,
                    chain,
                ));
                assert(take_it == pred(j as int));
            }
            let ghost out_before = out@;
            let ghost listed_before = ids_where(pred, j as int);
            if take_it && out.len() < limit {
                out.push(j);
            }
            proof {
                let listed_now = ids_where(pred, j + 1 as int);
                if pred(j as int) {
                    assert(listed_now == listed_before.push(j as int));
                    if out_before.len() < limit {
                        assert(ids_as_ints(out_before).len() == out_before.len());
                        assert(capped(listed_before, limit as int) == ids_as_ints(out_before));
                        assert(listed_before.len() == out_before.len());
                        assert(ids_as_ints(out@) =~= ids_as_ints(out_before).push(j as int));
                        assert(capped(listed_now, limit as int) == listed_now);
                    } else {
                        assert(listed_before.len() >= limit);
                        assert(capped(listed_now, limit as int) =~= capped(
                            listed_before,
                            limit as int,
                        ));
                    }
                } else {
                    assert(listed_now == listed_before);
                }
            }
            j = j + 1;
        }
        out
    }

    /// The newest entry carrying the given operation kind — restricted, when
    /// `confirmed_only` is set, to entries with a canonical attempt. Asking
    /// once with and once without the restriction, per kind, reports how far
    /// recording and confirmation have each progressed.
    pub fn latest_of_kind(&self, kind: OperationKind, confirmed_only: bool) -> (r: Option<usize>)
        ensures
            match r {
                Some(i) => {
                    &&& i < self.txs@.len()
                    &&& self.txs@[i as int].kind == kind
                    &&& confirmed_only ==> self.txs@[i as int].confirmed_attempt is Some
                    &&& forall|p: int|
                        i < p < self.txs@.len() ==> !((#[trigger] self.txs@[p]).kind == kind && (
                        confirmed_only ==> self.txs@[p].confirmed_attempt is Some))
                },
                None => forall|p: int|
                    0 <= p < self.txs@.len() ==> !((#[trigger] self.txs@[p]).kind == kind && (
                    confirmed_only ==> self.txs@[p].confirmed_attempt is Some)),
            },
    {
        let mut i = self.txs.len();
        while i > 0
            invariant
                i <= self.txs@.len(),
                forall|p: int|
                    i <= p < self.txs@.len() ==> !((#[trigger] self.txs@[p]).kind == kind && (
                    confirmed_only ==> self.txs@[p].confirmed_attempt is Some)),
            decreases i,
        {
            let idx = i - 1;
            let t = &self.txs[idx];
            if t.kind == kind && (!confirmed_only || t.confirmed_attempt.is_some()) {
                return Some(idx);
            }
            i = idx;
        }
        None
    }

    /// The lowest block height at which any attempt of the entry was seen
    /// included, `None` if none was.
    pub fn first_observed_block(&self, logical_tx_id: usize) -> (r: Option<u64>)
        ensures
            match r {
                Some(b) => {
                    &&& exists|j: int|
                        0 <= j < self.attempts@.len() && (#[trigger] self.attempts@[j]).logical_tx_id
                            == logical_tx_id && self.attempts@[j].observed_at_block == Some(b)
                    &&& forall|j: int|
                        0 <= j < self.attempts@.len() && (#[trigger] self.attempts@[j]).logical_tx_id
                            == logical_tx_id ==> (match self.attempts@[j].observed_at_block {
                            Some(v) => b <= v,
                            None => true,
                        })
                },
                None => forall|j: int|
                    0 <= j < self.attempts@.len() && (#[trigger] self.attempts@[j]).logical_tx_id
                        == logical_tx_id ==> self.attempts@[j].observed_at_block is None,
            },
    {
        let end = self.attempts.len();
        let mut best: Option<u64> = None;
        let mut j: usize = 0;
        while j < end
            invariant
                end == self.attempts@.len(),
                0 <= j <= end,
                match best {
                    Some(b) => {
                        &&& exists|q: int|
                            0 <= q < j && (#[trigger] self.attempts@[q]).logical_tx_id
                                == logical_tx_id && self.attempts@[q].observed_at_block == Some(b)
                        &&& forall|q: int|
                            0 <= q < j && (#[trigger] self.attempts@[q]).logical_tx_id
                                == logical_tx_id ==> (match self.attempts@[q].observed_at_block {
                                Some(v) => b <= v,
                                None => true,
                            })
                    },
                    None => forall|q: int|
                        0 <= q < j && (#[trigger] self.attempts@[q]).logical_tx_id == logical_tx_id
                            ==> self.attempts@[q].observed_at_block is None,
                },
            decreases end - j,
        {
            let a = &self.attempts[j];
            if a.logical_tx_id == logical_tx_id {
                match a.observed_at_block {
                    Some(v) => {
                        best = match best {
                            Some(b) => if v < b {
                                Some(v)
                            } else {
                                Some(b)
                            },
                            None => Some(v),
                        };
                    },
                    None => (),
                }
            }
            j = j + 1;
        }
        best
    }

    /// The highest block height at which any attempt of the entry was seen
    /// included, `None` if none was.
    pub fn last_observed_block(&self, logical_tx_id: usize) -> (r: Option<u64>)
        ensures
            match r {
                Some(b) => {
                    &&& exists|j: int|
                        0 <= j < self.attempts@.len() && (#[trigger] self.attempts@[j]).logical_tx_id
                            == logical_tx_id && self.attempts@[j].observed_at_block == Some(b)
                    &&& forall|j: int|
                        0 <= j < self.attempts@.len() && (#[trigger] self.attempts@[j]).logical_tx_id
                            == logical_tx_id ==> (match self.attempts@[j].observed_at_block {
                            Some(v) => v <= b,
                            None => true,
                        })
                },
                None => forall|j: int|
                    0 <= j < self.attempts@.len() && (#[trigger] self.attempts@[j]).logical_tx_id
                        == logical_tx_id ==> self.attempts@[j].observed_at_block is None,
            },
    {
        let end = self.attempts.len();
        let mut best: Option<u64> = None;
        let mut j: usize = 0;
        while j < end
            invariant
                end == self.attempts@.len(),
                0 <= j <= end,
                match best {
                    Some(b) => {
                        &&& exists|q: int|
                            0 <= q < j && (#[trigger] self.attempts@[q]).logical_tx_id
                                == logical_tx_id && self.attempts@[q].observed_at_block == Some(b)
                        &&& forall|q: int|
                            0 <= q < j && (#[trigger] self.attempts@[q]).logical_tx_id
                                == logical_tx_id ==> (match self.attempts@[q].observed_at_block {
                                Some(v) => v <= b,
                                None => true,
                            })
                    },
                    None => forall|q: int|
                        0 <= q < j && (#[trigger] self.attempts@[q]).logical_tx_id == logical_tx_id
                            ==> self.attempts@[q].observed_at_block is None,
                },
            decreases end - j,
        {
            let a = &self.attempts[j];
            if a.logical_tx_id == logical_tx_id {
                match a.observed_at_block {
                    Some(v) => {
                        best = match best {
                            Some(b) => if v > b {
                                Some(v)
                            } else {
                                Some(b)
                            },
                            None => Some(v),
                        };
                    },
                    None => (),
                }
            }
            j = j + 1;
        }
        best
    }

    /// The newest attempt of the entry whose broadcast succeeded, `None` if
    /// none did.
    pub fn last_broadcast_attempt(&self, logical_tx_id: usize) -> (r: Option<usize>)
        ensures
            match r {
                Some(k) => {
                    &&& k < self.attempts@.len()
                    &&& self.attempts@[k as int].logical_tx_id == logical_tx_id
                    &&& self.attempts@[k as int].submitted_successfully
                    &&& forall|j: int|
                        k < j < self.attempts@.len() ==> !((
                        #[trigger] self.attempts@[j]).logical_tx_id == logical_tx_id
                            && self.attempts@[j].submitted_successfully)
                },
                None => forall|j: int|
                    0 <= j < self.attempts@.len() ==> !((
                    #[trigger] self.attempts@[j]).logical_tx_id == logical_tx_id
                        && self.attempts@[j].submitted_successfully),
            },
    {
        let mut j = self.attempts.len();
        while j > 0
            invariant
                j <= self.attempts@.len(),
                forall|q: int|
                    j <= q < self.attempts@.len() ==> !((
                    #[trigger] self.attempts@[q]).logical_tx_id == logical_tx_id
                        && self.attempts@[q].submitted_successfully),
            decreases j,
        {
            let idx = j - 1;
            let a = &self.attempts[idx];
            if a.logical_tx_id == logical_tx_id && a.submitted_successfully {
                return Some(idx);
            }
            j = idx;
        }
        None
    }
}

} // verus!
