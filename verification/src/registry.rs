//! The settlement transaction registry: logical transactions, their signed
//! attempts, nonce allocation, the finality machine and the reorg unwind.

use vstd::prelude::*;

use crate::types::{FeeParameters, FinalityStatus, OperationKind, SettlementRoute, TrackerError};
use crate::types::fee_parameters_eq;

verus! {

/// One logical settlement operation the node intends to land on-chain,
/// independent of how many times it is resubmitted.
pub struct LogicalTx {
    /// Index of this entry in the registry; assigned on creation, immutable.
    pub id: usize,
    pub kind: OperationKind,
    /// Opaque encoded transaction body; the registry never interprets it.
    pub payload: Vec<u8>,
    /// Assigned exactly once at creation and permanently fixed; a fee bump
    /// reuses it, a post-reorg resubmission creates a new entry instead.
    pub nonce: u64,
    pub signing_account: u64,
    pub settlement_route: SettlementRoute,
    /// Set once the operation is known to have landed on a specific chain.
    pub chain_id: Option<u64>,
    /// The one attempt treated as canonical, if any.
    pub confirmed_attempt: Option<usize>,
    /// Terminal-failure flag, monotonic false-to-true.
    pub failed: bool,
}

/// One signed submission of a logical transaction: one nonce, one fee
/// profile, one signature.
pub struct Attempt {
    /// Index of this attempt in the registry; assigned on creation.
    pub id: usize,
    /// Back-reference to the owning logical transaction.
    pub logical_tx_id: usize,
    pub fee: FeeParameters,
    pub signed_payload: Vec<u8>,
    /// Content-addressed hash of the signed payload; unique across attempts.
    pub fingerprint: u64,
    /// Last block height at which this attempt was seen included; cleared on
    /// reorg, tracked independently of finality.
    pub observed_at_block: Option<u64>,
    /// Whether broadcast is believed to have succeeded; distinct from
    /// on-chain confirmation.
    pub submitted_successfully: bool,
    pub status: FinalityStatus,
    /// Logical timestamp recorded on confirmation, cleared on reorg.
    pub confirmed_at: Option<u64>,
    /// Gas spent, recorded on confirmation, cleared on reorg.
    pub gas_used: Option<u64>,
}

/// Whether a logical transaction belongs to the nonce namespace of the given
/// signing account and settlement route.
pub open spec fn in_namespace(t: LogicalTx, account: u64, route: SettlementRoute) -> bool {
    t.signing_account == account && t.settlement_route == route
}

/// Number of members of the given namespace in `txs`.
pub open spec fn ns_count(txs: Seq<LogicalTx>, account: u64, route: SettlementRoute) -> nat
    decreases txs.len(),
{
    if txs.len() == 0 {
        0
    } else {
        ns_count(txs.drop_last(), account, route) + if in_namespace(
            txs.last(),
            account,
            route,
        ) {
            1nat
        } else {
            0nat
        }
    }
}

/// The nonce discipline: every entry's nonce equals the number of earlier
/// members of its own namespace, so each namespace's nonces read 0, 1, 2, ...
/// in creation order.
pub open spec fn nonces_disciplined(txs: Seq<LogicalTx>) -> bool {
    forall|i: int|
        0 <= i < txs.len() ==> (#[trigger] txs[i]).nonce == ns_count(
            txs.take(i),
            txs[i].signing_account,
            txs[i].settlement_route,
        )
}

/// A confirmed-attempt link, if set, points at an existing attempt of the
/// same logical transaction whose status is not pending.
pub open spec fn tx_link_ok(txs: Seq<LogicalTx>, attempts: Seq<Attempt>, i: int) -> bool {
    txs[i].confirmed_attempt matches Some(k) ==> {
        &&& k < attempts.len()
        &&& attempts[k as int].logical_tx_id == i
        &&& attempts[k as int].status is Finalized
    }
}

/// Confirmation data is present exactly on finalized attempts, and a
/// finalized attempt has necessarily been broadcast.
pub open spec fn attempt_state_ok(a: Attempt) -> bool {
    &&& a.status is Pending ==> a.confirmed_at is None && a.gas_used is None
    &&& a.status is Finalized ==> a.confirmed_at is Some && a.gas_used is Some
        && a.submitted_successfully
}

/// The registry owning the record of logical transactions and attempts.
pub struct Registry {
    pub txs: Vec<LogicalTx>,
    pub attempts: Vec<Attempt>,
}

impl Registry {
    /// Well-formedness: established by `new`, preserved by every operation.
    pub open spec fn wf(self) -> bool {
        &&& forall|i: int|
            0 <= i < self.txs@.len() ==> (#[trigger] self.txs@[i]).id == i
        &&& forall|j: int|
            0 <= j < self.attempts@.len() ==> (#[trigger] self.attempts@[j]).id == j
        &&& forall|j: int|
            0 <= j < self.attempts@.len() ==> (#[trigger] self.attempts@[j]).logical_tx_id
                < self.txs@.len()
        &&& forall|i: int|
            0 <= i < self.txs@.len() ==> #[trigger] tx_link_ok(self.txs@, self.attempts@, i)
        &&& nonces_disciplined(self.txs@)
        &&& fingerprints_unique(self.attempts@)
        &&& forall|j: int|
            0 <= j < self.attempts@.len() ==> attempt_state_ok(#[trigger] self.attempts@[j])
        &&& forall|j: int|
            0 <= j < self.attempts@.len() && (#[trigger] self.attempts@[j]).status is Finalized
                ==> self.txs@[self.attempts@[j].logical_tx_id as int].confirmed_attempt is Some
    }

    /// An empty registry.
    pub fn new() -> (r: Registry)
        ensures
            r.wf(),
            r.txs@.len() == 0,
            r.attempts@.len() == 0,
    {
        Registry { txs: Vec::new(), attempts: Vec::new() }
    }

    /// Returns the next unused nonce for the namespace: the number of entries
    /// the namespace already holds, which under the nonce discipline is one
    /// past the highest nonce ever assigned there (0 if none exist).
    ///
    /// Derived on demand from the persisted record, so restart recovery needs
    /// no separate allocator state.
    pub fn next_nonce(&self, account: u64, route: SettlementRoute) -> (n: u64)
        requires
            self.wf(),
        ensures
            n == ns_count(self.txs@, account, route),
    {
        let end = self.txs.len();
        let mut count: u64 = 0;
        let mut i: usize = 0;
        while i < end
            invariant
                end == self.txs@.len(),
                0 <= i <= end,
                count == ns_count(self.txs@.take(i as int), account, route),
                count <= i,
            decreases end - i,
        {
            let t = &self.txs[i];
            proof {
                assert(self.txs@.take(i + 1).drop_last() =~= self.txs@.take(i as int));
                assert(self.txs@.take(i + 1).last() == self.txs@[i as int]);
            }
            if t.signing_account == account && t.settlement_route == route {
                count = count + 1;
            }
            i = i + 1;
        }
        proof {
            assert(self.txs@.take(end as int) =~= self.txs@);
        }
        count
    }

    /// Creates a new logical transaction: allocates the next nonce of the
    /// namespace and appends an entry with no attempts, no confirmation and
    /// `failed == false`. Returns the id of the new entry.
    ///
    /// Allocation against this in-memory record always succeeds; durability
    /// failures belong to the external store boundary.
    pub fn create_logical_tx(
        &mut self,
        kind: OperationKind,
        payload: Vec<u8>,
        account: u64,
        route: SettlementRoute,
    ) -> (id: usize)
        requires
            old(self).wf(),
        ensures
            final(self).wf(),
            id == old(self).txs@.len(),
            final(self).attempts@ == old(self).attempts@,
            ({
                let entry = (LogicalTx {
                    id,
                    kind,
                    payload,
                    nonce: ns_count(old(self).txs@, account, route) as u64,
                    signing_account: account,
                    settlement_route: route,
                    chain_id: None,
                    confirmed_attempt: None,
                    failed: false,
                });
                final(self).txs@ == old(self).txs@.push(entry)
            }),
    {
        let id = self.txs.len();
        let nonce = self.next_nonce(account, route);
        let entry = LogicalTx {
            id,
            kind,
            payload,
            nonce,
            signing_account: account,
            settlement_route: route,
            chain_id: None,
            confirmed_attempt: None,
            failed: false,
        };
        self.txs.push(entry);
        proof {
            let txs0 = old(self).txs@;
            let txs1 = self.txs@;
            assert forall|i: int| 0 <= i < txs1.len() implies (#[trigger] txs1[i]).nonce
                == ns_count(txs1.take(i), txs1[i].signing_account, txs1[i].settlement_route) by {
                if i < txs0.len() {
                    assert(txs1.take(i) =~= txs0.take(i));
                    assert(txs1[i] == txs0[i]);
                } else {
                    assert(txs1.take(i) =~= txs0);
                }
            }
            assert forall|i: int| 0 <= i < txs1.len() implies #[trigger] tx_link_ok(
                txs1,
                self.attempts@,
                i,
            ) by {
                if i < txs0.len() {
                    assert(tx_link_ok(txs0, self.attempts@, i));
                    assert(txs1[i] == txs0[i]);
                }
            }
        }
        id
    }
}

/// Whether some attempt carries the given fingerprint.
pub open spec fn has_fingerprint(attempts: Seq<Attempt>, fp: u64) -> bool {
    exists|j: int| 0 <= j < attempts.len() && (#[trigger] attempts[j]).fingerprint == fp
}

/// The index of the attempt carrying the given fingerprint; meaningful only
/// when `has_fingerprint` holds (under well-formedness it is then unique).
pub open spec fn fingerprint_slot(attempts: Seq<Attempt>, fp: u64) -> int {
    choose|j: int| 0 <= j < attempts.len() && (#[trigger] attempts[j]).fingerprint == fp
}

/// No two attempts share a fingerprint.
pub open spec fn fingerprints_unique(attempts: Seq<Attempt>) -> bool {
    forall|j: int, k: int|
        0 <= j < k < attempts.len() ==> (#[trigger] attempts[j]).fingerprint != (
        #[trigger] attempts[k]).fingerprint
}

/// Under unique fingerprints, any index carrying `fp` is the slot of `fp`.
pub proof fn lemma_fingerprint_slot_unique(attempts: Seq<Attempt>, j: int, fp: u64)
    requires
        fingerprints_unique(attempts),
        0 <= j < attempts.len(),
        attempts[j].fingerprint == fp,
    ensures
        has_fingerprint(attempts, fp),
        fingerprint_slot(attempts, fp) == j,
{
    assert(has_fingerprint(attempts, fp));
    let s = fingerprint_slot(attempts, fp);
    assert(0 <= s < attempts.len() && attempts[s].fingerprint == fp);
    if s < j {
        assert(attempts[s].fingerprint != attempts[j].fingerprint);
    } else if j < s {
        assert(attempts[j].fingerprint != attempts[s].fingerprint);
    }
}

/// The attempt a fresh `record_attempt` call establishes: pending, not yet
/// broadcast, with no confirmation data.
pub open spec fn fresh_attempt(
    id: usize,
    logical_tx_id: usize,
    fee: FeeParameters,
    signed_payload: Vec<u8>,
    fingerprint: u64,
    observed_at_block: Option<u64>,
) -> Attempt {
    Attempt {
        id,
        logical_tx_id,
        fee,
        signed_payload,
        fingerprint,
        observed_at_block,
        submitted_successfully: false,
        status: FinalityStatus::Pending,
        confirmed_at: None,
        gas_used: None,
    }
}

/// What `record_attempt` does to the attempt record: the new record and the
/// outcome, as a function of the prior record and the arguments.
pub open spec fn record_effect(
    tx_total: int,
    attempts: Seq<Attempt>,
    logical_tx_id: usize,
    fee: FeeParameters,
    signed_payload: Vec<u8>,
    fingerprint: u64,
    observed_at_block: Option<u64>,
) -> (Seq<Attempt>, Result<int, TrackerError>) {
    if !(logical_tx_id < tx_total) {
        (attempts, Err(TrackerError::NotFound))
    } else if has_fingerprint(attempts, fingerprint) {
        let j = fingerprint_slot(attempts, fingerprint);
        if attempts[j].logical_tx_id == logical_tx_id && attempts[j].fee == fee {
            (
                attempts.update(j, Attempt { observed_at_block, ..attempts[j] }),
                Ok(j),
            )
        } else {
            (attempts, Err(TrackerError::DuplicateAttempt))
        }
    } else {
        (
            attempts.push(
                fresh_attempt(
                    attempts.len() as usize,
                    logical_tx_id,
                    fee,
                    signed_payload,
                    fingerprint,
                    observed_at_block,
                ),
            ),
            Ok(attempts.len() as int),
        )
    }
}

/// Finds the attempt carrying the given fingerprint, if any.
pub(crate) fn find_attempt_by_fingerprint(attempts: &Vec<Attempt>, fingerprint: u64) -> (r: Option<
    usize,
>)
    ensures
        match r {
            Some(j) => j < attempts@.len() && attempts@[j as int].fingerprint == fingerprint,
            None => !has_fingerprint(attempts@, fingerprint),
        },
{
    let end = attempts.len();
    let mut i: usize = 0;
    while i < end
        invariant
            end == attempts@.len(),
            0 <= i <= end,
            forall|j: int| 0 <= j < i ==> (#[trigger] attempts@[j]).fingerprint != fingerprint,
        decreases end - i,
    {
        if attempts[i].fingerprint == fingerprint {
            return Some(i);
        }
        i = i + 1;
    }
    None
}

/// A mutable handle on one element of a record.
fn slot_at_mut<T>(v: &mut Vec<T>, i: usize) -> (element: &mut T)
    requires
        i < old(v).len(),
    ensures
        *element == old(v)@[i as int],
        final(v)@ == old(v)@.update(i as int, *final(element)),
{
    &mut v[i]
}

impl Registry {
    /// Records one signed submission of a logical transaction, idempotently
    /// on the fingerprint of the signed bytes.
    ///
    /// A duplicate fingerprint with the same owner and fee profile only
    /// updates `observed_at_block` (the attempt was seen again in a later
    /// block) and returns the existing attempt id; a duplicate with divergent
    /// data is surfaced as `DuplicateAttempt`. A fresh fingerprint appends a
    /// pending, not-yet-broadcast attempt.
    pub fn record_attempt(
        &mut self,
        logical_tx_id: usize,
        fee: FeeParameters,
        signed_payload: Vec<u8>,
        fingerprint: u64,
        observed_at_block: Option<u64>,
    ) -> (r: Result<usize, TrackerError>)
        requires
            old(self).wf(),
        ensures
            final(self).wf(),
            final(self).txs@ == old(self).txs@,
            ({
                let (new_attempts, outcome) = record_effect(
                    old(self).txs@.len() as int,
                    old(self).attempts@,
                    logical_tx_id,
                    fee,
                    signed_payload,
                    fingerprint,
                    observed_at_block,
                );
                &&& final(self).attempts@ == new_attempts
                &&& match r {
                    Ok(k) => outcome == Ok::<int, TrackerError>(k as int),
                    Err(e) => outcome == Err::<int, TrackerError>(e),
                }
            }),
    {
        if logical_tx_id >= self.txs.len() {
            return Err(TrackerError::NotFound);
        }
        match find_attempt_by_fingerprint(&self.attempts, fingerprint) {
            Some(j) => {
                proof {
                    lemma_fingerprint_slot_unique(self.attempts@, j as int, fingerprint);
                }
                let matches_existing = {
                    let a = &self.attempts[j];
                    a.logical_tx_id == logical_tx_id && fee_parameters_eq(&a.fee, &fee)
                };
                if matches_existing {
                    let slot = slot_at_mut(&mut self.attempts, j);
                    slot.observed_at_block = observed_at_block;
                    proof {
                        self.lemma_wf_after_observation_update(*old(self), j as int);
                    }
                    Ok(j)
                } else {
                    Err(TrackerError::DuplicateAttempt)
                }
            },
            None => {
                let id = self.attempts.len();
                let entry = Attempt {
                    id,
                    logical_tx_id,
                    fee,
                    signed_payload,
                    fingerprint,
                    observed_at_block,
                    submitted_successfully: false,
                    status: FinalityStatus::Pending,
                    confirmed_at: None,
                    gas_used: None,
                };
                self.attempts.push(entry);
                proof {
                    let att0 = old(self).attempts@;
                    let att1 = self.attempts@;
                    assert forall|p: int, q: int| 0 <= p < q < att1.len() implies (
                    #[trigger] att1[p]).fingerprint != (#[trigger] att1[q]).fingerprint by {
                        if q < att0.len() {
                            assert(att0[p].fingerprint != att0[q].fingerprint);
                        } else {
                            assert(att1[p] == att0[p]);
                            assert(!has_fingerprint(att0, fingerprint));
                        }
                    }
                    assert forall|i: int| 0 <= i < self.txs@.len() implies #[trigger] tx_link_ok(
                        self.txs@,
                        att1,
                        i,
                    ) by {
                        assert(tx_link_ok(self.txs@, att0, i));
                        if self.txs@[i].confirmed_attempt is Some {
                            let k = self.txs@[i].confirmed_attempt.unwrap() as int;
                            assert(att1[k] == att0[k]);
                        }
                    }
                }
                Ok(id)
            },
        }
    }

    /// Helper proof: updating only the inclusion observation of one attempt
    /// keeps the registry well-formed.
    proof fn lemma_wf_after_observation_update(self, prior: Registry, j: int)
        requires
            prior.wf(),
            0 <= j < prior.attempts@.len(),
            self.txs@ == prior.txs@,
            self.attempts@.len() == prior.attempts@.len(),
            forall|q: int|
                0 <= q < prior.attempts@.len() && q != j ==> self.attempts@[q]
                    == prior.attempts@[q],
            self.attempts@[j] == (Attempt {
                observed_at_block: self.attempts@[j].observed_at_block,
                ..prior.attempts@[j]
            }),
        ensures
            self.wf(),
    {
        assert forall|i: int| 0 <= i < self.txs@.len() implies #[trigger] tx_link_ok(
            self.txs@,
            self.attempts@,
            i,
        ) by {
            assert(tx_link_ok(prior.txs@, prior.attempts@, i));
        }
    }
}

/// The fields `on_finalized` writes on the attempt it confirms.
pub open spec fn finalized_attempt(a: Attempt, gas_used: u64, now: u64) -> Attempt {
    Attempt {
        status: FinalityStatus::Finalized,
        submitted_successfully: true,
        confirmed_at: Some(now),
        gas_used: Some(gas_used),
        ..a
    }
}

/// The canonical-attempt link `on_finalized` establishes: set when the entry
/// has none yet (the first attempt to finalize becomes canonical), kept
/// otherwise.
pub open spec fn confirmed_tx(t: LogicalTx, k: usize) -> LogicalTx {
    if t.confirmed_attempt is None {
        LogicalTx { confirmed_attempt: Some(k), ..t }
    } else {
        t
    }
}

impl Registry {
    /// Marks one attempt as accepted into the network's transaction pool.
    /// Broadcast success is distinct from on-chain confirmation.
    pub fn mark_broadcast_ok(&mut self, attempt_id: usize) -> (r: Result<(), TrackerError>)
        requires
            old(self).wf(),
        ensures
            final(self).wf(),
            final(self).txs@ == old(self).txs@,
            attempt_id < old(self).attempts@.len() ==> r is Ok && final(self).attempts@ == old(
                self,
            ).attempts@.update(
                attempt_id as int,
                (Attempt { submitted_successfully: true, ..old(self).attempts@[attempt_id as int] }),
            ),
            attempt_id >= old(self).attempts@.len() ==> r == Err::<(), TrackerError>(
                TrackerError::NotFound,
            ) && final(self).attempts@ == old(self).attempts@,
    {
        if attempt_id >= self.attempts.len() {
            return Err(TrackerError::NotFound);
        }
        let slot = slot_at_mut(&mut self.attempts, attempt_id);
        slot.submitted_successfully = true;
        proof {
            assert forall|i: int| 0 <= i < self.txs@.len() implies #[trigger] tx_link_ok(
                self.txs@,
                self.attempts@,
                i,
            ) by {
                assert(tx_link_ok(old(self).txs@, old(self).attempts@, i));
            }
        }
        Ok(())
    }

    /// Sets the terminal-failure flag of a logical transaction. History is
    /// kept: neither the entry nor its attempts are deleted.
    pub fn mark_failed(&mut self, logical_tx_id: usize) -> (r: Result<(), TrackerError>)
        requires
            old(self).wf(),
        ensures
            final(self).wf(),
            final(self).attempts@ == old(self).attempts@,
            logical_tx_id < old(self).txs@.len() ==> r is Ok && final(self).txs@ == old(
                self,
            ).txs@.update(
                logical_tx_id as int,
                (LogicalTx { failed: true, ..old(self).txs@[logical_tx_id as int] }),
            ),
            logical_tx_id >= old(self).txs@.len() ==> r == Err::<(), TrackerError>(
                TrackerError::NotFound,
            ) && final(self).txs@ == old(self).txs@,
    {
        if logical_tx_id >= self.txs.len() {
            return Err(TrackerError::NotFound);
        }
        let slot = slot_at_mut(&mut self.txs, logical_tx_id);
        slot.failed = true;
        proof {
            self.lemma_wf_after_tx_annotation(*old(self), logical_tx_id as int);
        }
        Ok(())
    }

    /// Records on which settlement chain a logical transaction landed.
    pub fn set_chain_id(&mut self, logical_tx_id: usize, chain_id: u64) -> (r: Result<
        (),
        TrackerError,
    >)
        requires
            old(self).wf(),
        ensures
            final(self).wf(),
            final(self).attempts@ == old(self).attempts@,
            logical_tx_id < old(self).txs@.len() ==> r is Ok && final(self).txs@ == old(
                self,
            ).txs@.update(
                logical_tx_id as int,
                (LogicalTx {
                    chain_id: Some(chain_id),
                    ..old(self).txs@[logical_tx_id as int]
                }),
            ),
            logical_tx_id >= old(self).txs@.len() ==> r == Err::<(), TrackerError>(
                TrackerError::NotFound,
            ) && final(self).txs@ == old(self).txs@,
    {
        if logical_tx_id >= self.txs.len() {
            return Err(TrackerError::NotFound);
        }
        let slot = slot_at_mut(&mut self.txs, logical_tx_id);
        slot.chain_id = Some(chain_id);
        proof {
            self.lemma_wf_after_tx_annotation(*old(self), logical_tx_id as int);
        }
        Ok(())
    }

    /// Helper proof: changing only the failure flag or chain id of one entry
    /// keeps the registry well-formed.
    proof fn lemma_wf_after_tx_annotation(self, prior: Registry, i: int)
        requires
            prior.wf(),
            0 <= i < prior.txs@.len(),
            self.attempts@ == prior.attempts@,
            self.txs@.len() == prior.txs@.len(),
            forall|p: int| 0 <= p < prior.txs@.len() && p != i ==> self.txs@[p] == prior.txs@[p],
            self.txs@[i] == (LogicalTx {
                failed: self.txs@[i].failed,
                chain_id: self.txs@[i].chain_id,
                ..prior.txs@[i]
            }),
        ensures
            self.wf(),
    {
        assert forall|p: int| 0 <= p < self.txs@.len() implies #[trigger] tx_link_ok(
            self.txs@,
            self.attempts@,
            p,
        ) by {
            assert(tx_link_ok(prior.txs@, prior.attempts@, p));
        }
        assert forall|p: int| 0 <= p < self.txs@.len() implies (#[trigger] self.txs@[p]).nonce
            == ns_count(self.txs@.take(p), self.txs@[p].signing_account, self.txs@[p].settlement_route) by {
            assert(prior.txs@[p].nonce == ns_count(
                prior.txs@.take(p),
                prior.txs@[p].signing_account,
                prior.txs@[p].settlement_route,
            ));
            lemma_ns_count_pointwise(
                self.txs@.take(p),
                prior.txs@.take(p),
                self.txs@[p].signing_account,
                self.txs@[p].settlement_route,
            );
        }
        assert forall|j: int|
            0 <= j < self.attempts@.len() && (#[trigger] self.attempts@[j]).status is Finalized
                implies self.txs@[self.attempts@[j].logical_tx_id as int].confirmed_attempt
                is Some by {
            assert(prior.attempts@[j].status is Finalized);
            assert(prior.txs@[prior.attempts@[j].logical_tx_id as int].confirmed_attempt is Some);
        }
    }

    /// Reacts to the observation that an attempt was seen included at the
    /// given block height. Unknown fingerprints are tolerated: the record may
    /// already have been pruned. Returns whether the attempt was found.
    pub fn on_block_included(&mut self, fingerprint: u64, block: u64) -> (found: bool)
        requires
            old(self).wf(),
        ensures
            final(self).wf(),
            final(self).txs@ == old(self).txs@,
            found == has_fingerprint(old(self).attempts@, fingerprint),
            found ==> ({
                let j = fingerprint_slot(old(self).attempts@, fingerprint);
                final(self).attempts@ == old(self).attempts@.update(
                    j,
                    (Attempt { observed_at_block: Some(block), ..old(self).attempts@[j] }),
                )
            }),
            !found ==> final(self).attempts@ == old(self).attempts@,
    {
        match find_attempt_by_fingerprint(&self.attempts, fingerprint) {
            Some(j) => {
                proof {
                    lemma_fingerprint_slot_unique(self.attempts@, j as int, fingerprint);
                }
                let slot = slot_at_mut(&mut self.attempts, j);
                slot.observed_at_block = Some(block);
                proof {
                    self.lemma_wf_after_observation_update(*old(self), j as int);
                }
                true
            },
            None => false,
        }
    }

    /// Reacts to the observation that a previously included attempt is no
    /// longer part of the canonical history (excluded by a fork), clearing
    /// its inclusion observation. Returns whether the attempt was found.
    pub fn on_block_excluded(&mut self, fingerprint: u64) -> (found: bool)
        requires
            old(self).wf(),
        ensures
            final(self).wf(),
            final(self).txs@ == old(self).txs@,
            found == has_fingerprint(old(self).attempts@, fingerprint),
            found ==> ({
                let j = fingerprint_slot(old(self).attempts@, fingerprint);
                final(self).attempts@ == old(self).attempts@.update(
                    j,
                    (Attempt { observed_at_block: None, ..old(self).attempts@[j] }),
                )
            }),
            !found ==> final(self).attempts@ == old(self).attempts@,
    {
        match find_attempt_by_fingerprint(&self.attempts, fingerprint) {
            Some(j) => {
                proof {
                    lemma_fingerprint_slot_unique(self.attempts@, j as int, fingerprint);
                }
                let slot = slot_at_mut(&mut self.attempts, j);
                slot.observed_at_block = None;
                proof {
                    self.lemma_wf_after_observation_update(*old(self), j as int);
                }
                true
            },
            None => false,
        }
    }

    /// Reacts to a finality observation for the attempt carrying the given
    /// fingerprint: the attempt becomes finalized, its confirmation data
    /// (`gas_used`, and `now` as the confirmation stamp handed in by the
    /// observer) is recorded, broadcast success is implied, and the owning
    /// entry's canonical link is established if it has none yet.
    ///
    /// Returns the id of the confirmed attempt, or `NotFound` if and only if
    /// no attempt carries the fingerprint.
    pub fn on_finalized(&mut self, fingerprint: u64, gas_used: u64, now: u64) -> (r: Result<
        usize,
        TrackerError,
    >)
        requires
            old(self).wf(),
        ensures
            final(self).wf(),
            match r {
                Ok(k) => {
                    &&& k < old(self).attempts@.len()
                    &&& old(self).attempts@[k as int].fingerprint == fingerprint
                    &&& final(self).attempts@ == old(self).attempts@.update(
                        k as int,
                        finalized_attempt(old(self).attempts@[k as int], gas_used, now),
                    )
                    &&& ({
                        let i = old(self).attempts@[k as int].logical_tx_id as int;
                        final(self).txs@ == old(self).txs@.update(
                            i,
                            confirmed_tx(old(self).txs@[i], k),
                        )
                    })
                },
                Err(e) => {
                    &&& e == TrackerError::NotFound
                    &&& !has_fingerprint(old(self).attempts@, fingerprint)
                    &&& final(self).txs@ == old(self).txs@
                    &&& final(self).attempts@ == old(self).attempts@
                },
            },
    {
        let j = match find_attempt_by_fingerprint(&self.attempts, fingerprint) {
            Some(j) => j,
            None => {
                return Err(TrackerError::NotFound);
            },
        };
        let owner = self.attempts[j].logical_tx_id;
        let slot = slot_at_mut(&mut self.attempts, j);
        slot.status = FinalityStatus::Finalized;
        slot.submitted_successfully = true;
        slot.confirmed_at = Some(now);
        slot.gas_used = Some(gas_used);
        let owner_slot = slot_at_mut(&mut self.txs, owner);
        if owner_slot.confirmed_attempt.is_none() {
            owner_slot.confirmed_attempt = Some(j);
        }
        proof {
            let txs0 = old(self).txs@;
            let att0 = old(self).attempts@;
            let txs1 = self.txs@;
            let att1 = self.attempts@;
            let oi = owner as int;
            assert(txs1 =~= txs0.update(oi, confirmed_tx(txs0[oi], j)));
            assert forall|p: int| 0 <= p < txs1.len() implies #[trigger] tx_link_ok(
                txs1,
                att1,
                p,
            ) by {
                assert(tx_link_ok(txs0, att0, p));
                if txs1[p].confirmed_attempt is Some {
                    let k = txs1[p].confirmed_attempt.unwrap() as int;
                    if p == oi && txs0[p].confirmed_attempt is None {
                        assert(k == j);
                    } else {
                        assert(txs0[p].confirmed_attempt == txs1[p].confirmed_attempt);
                        if k != j {
                            assert(att1[k] == att0[k]);
                        }
                    }
                }
            }
            assert forall|p: int| 0 <= p < txs1.len() implies (#[trigger] txs1[p]).nonce
                == ns_count(txs1.take(p), txs1[p].signing_account, txs1[p].settlement_route) by {
                assert(txs0[p].nonce == ns_count(
                    txs0.take(p),
                    txs0[p].signing_account,
                    txs0[p].settlement_route,
                ));
                lemma_ns_count_pointwise(
                    txs1.take(p),
                    txs0.take(p),
                    txs1[p].signing_account,
                    txs1[p].settlement_route,
                );
            }
            assert forall|q: int|
                0 <= q < att1.len() && (#[trigger] att1[q]).status is Finalized implies txs1[att1[q].logical_tx_id as int].confirmed_attempt is Some by {
                if q != j as int {
                    assert(att0[q].status is Finalized);
                    assert(txs0[att0[q].logical_tx_id as int].confirmed_attempt is Some);
                }
            }
        }
        Ok(j)
    }
}

/// Whether a reorg signal for the namespace starting at `from_nonce` affects
/// the given entry.
pub open spec fn reorg_affected(
    t: LogicalTx,
    account: u64,
    route: SettlementRoute,
    from_nonce: u64,
) -> bool {
    in_namespace(t, account, route) && t.nonce >= from_nonce
}

/// What the reorg unwind does to one logical transaction: an affected entry
/// loses its canonical-attempt link, everything else is kept.
pub open spec fn unwound_tx(
    t: LogicalTx,
    account: u64,
    route: SettlementRoute,
    from_nonce: u64,
) -> LogicalTx {
    if reorg_affected(t, account, route, from_nonce) {
        LogicalTx { confirmed_attempt: None, ..t }
    } else {
        t
    }
}

/// What the reorg unwind does to one attempt, given its owning entry: a
/// finalized attempt of an affected entry reverts to pending, loses its
/// inclusion observation and confirmation data, and must re-earn broadcast
/// success (the canonical history no longer contains it).
pub open spec fn unwound_attempt(
    a: Attempt,
    owner: LogicalTx,
    account: u64,
    route: SettlementRoute,
    from_nonce: u64,
) -> Attempt {
    if reorg_affected(owner, account, route, from_nonce) && a.status is Finalized {
        Attempt {
            status: FinalityStatus::Pending,
            observed_at_block: None,
            confirmed_at: None,
            gas_used: None,
            submitted_successfully: false,
            ..a
        }
    } else {
        a
    }
}

impl Registry {
    /// Reacts to reorg evidence: for every entry of the namespace with nonce
    /// at or above `from_nonce`, clears the canonical-attempt link and
    /// reverts the entry's finalized attempts to pending, clearing their
    /// inclusion observation, confirmation data and broadcast-success flag.
    ///
    /// The links are cleared before any attempt is reverted, so no reader
    /// ever sees a canonical link pointing at a pending attempt. The unwind
    /// keeps the record of every attempt, and calling it again with the same
    /// or an earlier `from_nonce` is harmless.
    pub fn unfinalize_from(&mut self, account: u64, route: SettlementRoute, from_nonce: u64)
        requires
            old(self).wf(),
        ensures
            final(self).wf(),
            final(self).txs@.len() == old(self).txs@.len(),
            final(self).attempts@.len() == old(self).attempts@.len(),
            forall|i: int|
                0 <= i < old(self).txs@.len() ==> final(self).txs@[i] == unwound_tx(
                    #[trigger] old(self).txs@[i],
                    account,
                    route,
                    from_nonce,
                ),
            forall|j: int|
                0 <= j < old(self).attempts@.len() ==> final(self).attempts@[j] == unwound_attempt(
                    #[trigger] old(self).attempts@[j],
                    old(self).txs@[old(self).attempts@[j].logical_tx_id as int],
                    account,
                    route,
                    from_nonce,
                ),
    {
        let n = self.txs.len();
        let mut i: usize = 0;
        while i < n
            invariant
                old(self).wf(),
                n == old(self).txs@.len(),
                self.txs@.len() == n,
                0 <= i <= n,
                self.attempts@ == old(self).attempts@,
                forall|p: int|
                    0 <= p < i ==> self.txs@[p] == unwound_tx(
                        #[trigger] old(self).txs@[p],
                        account,
                        route,
                        from_nonce,
                    ),
                forall|p: int| i <= p < n ==> self.txs@[p] == old(self).txs@[p],
            decreases n - i,
        {
            let affected = {
                let t = &self.txs[i];
                t.signing_account == account && t.settlement_route == route && t.nonce
                    >= from_nonce
            };
            if affected {
                let slot = slot_at_mut(&mut self.txs, i);
                slot.confirmed_attempt = None;
            }
            i = i + 1;
        }
        let m = self.attempts.len();
        let mut j: usize = 0;
        while j < m
            invariant
                old(self).wf(),
                m == old(self).attempts@.len(),
                self.attempts@.len() == m,
                0 <= j <= m,
                self.txs@.len() == old(self).txs@.len(),
                forall|p: int|
                    0 <= p < self.txs@.len() ==> self.txs@[p] == unwound_tx(
                        #[trigger] old(self).txs@[p],
                        account,
                        route,
                        from_nonce,
                    ),
                forall|q: int|
                    0 <= q < j ==> self.attempts@[q] == unwound_attempt(
                        #[trigger] old(self).attempts@[q],
                        old(self).txs@[old(self).attempts@[q].logical_tx_id as int],
                        account,
                        route,
                        from_nonce,
                    ),
                forall|q: int| j <= q < m ==> self.attempts@[q] == old(self).attempts@[q],
            decreases m - j,
        {
            let owner = self.attempts[j].logical_tx_id;
            proof {
                assert(old(self).attempts@[j as int].logical_tx_id < old(self).txs@.len());
            }
            let affected = {
                let t = &self.txs[owner];
                t.signing_account == account && t.settlement_route == route && t.nonce
                    >= from_nonce
            };
            let is_final = {
                let a = &self.attempts[j];
                a.status == FinalityStatus::Finalized
            };
            if affected && is_final {
                let slot = slot_at_mut(&mut self.attempts, j);
                slot.status = FinalityStatus::Pending;
                slot.observed_at_block = None;
                slot.confirmed_at = None;
                slot.gas_used = None;
                slot.submitted_successfully = false;
            }
            j = j + 1;
        }
        proof {
            let txs0 = old(self).txs@;
            let att0 = old(self).attempts@;
            let txs1 = self.txs@;
            let att1 = self.attempts@;
            assert forall|p: int| 0 <= p < txs1.len() implies (#[trigger] txs1[p]).id == p by {
                assert(txs1[p] == unwound_tx(txs0[p], account, route, from_nonce));
            }
            assert forall|q: int| 0 <= q < att1.len() implies (#[trigger] att1[q]).id == q by {
                assert(att1[q] == unwound_attempt(
                    att0[q],
                    txs0[att0[q].logical_tx_id as int],
                    account,
                    route,
                    from_nonce,
                ));
            }
            assert forall|q: int| 0 <= q < att1.len() implies (
            #[trigger] att1[q]).logical_tx_id < txs1.len() by {
                assert(att1[q] == unwound_attempt(
                    att0[q],
                    txs0[att0[q].logical_tx_id as int],
                    account,
                    route,
                    from_nonce,
                ));
            }
            assert forall|p: int, q: int| 0 <= p < q < att1.len() implies (
            #[trigger] att1[p]).fingerprint != (#[trigger] att1[q]).fingerprint by {
                assert(att1[p] == unwound_attempt(
                    att0[p],
                    txs0[att0[p].logical_tx_id as int],
                    account,
                    route,
                    from_nonce,
                ));
                assert(att1[q] == unwound_attempt(
                    att0[q],
                    txs0[att0[q].logical_tx_id as int],
                    account,
                    route,
                    from_nonce,
                ));
                assert(att0[p].fingerprint != att0[q].fingerprint);
            }
            assert forall|q: int| 0 <= q < att1.len() implies attempt_state_ok(
                #[trigger] att1[q],
            ) by {
                assert(att1[q] == unwound_attempt(
                    att0[q],
                    txs0[att0[q].logical_tx_id as int],
                    account,
                    route,
                    from_nonce,
                ));
                assert(attempt_state_ok(att0[q]));
            }
            assert forall|p: int| 0 <= p < txs1.len() implies #[trigger] tx_link_ok(
                txs1,
                att1,
                p,
            ) by {
                assert(tx_link_ok(txs0, att0, p));
                if txs1[p].confirmed_attempt is Some {
                    let k = txs1[p].confirmed_attempt.unwrap() as int;
                    assert(!reorg_affected(txs0[p], account, route, from_nonce));
                    assert(txs1[p] == txs0[p]);
                    assert(att0[k].logical_tx_id == p);
                    assert(att1[k] == unwound_attempt(
                        att0[k],
                        txs0[p],
                        account,
                        route,
                        from_nonce,
                    ));
                    assert(att1[k] == att0[k]);
                }
            }
            assert forall|p: int| 0 <= p < txs1.len() implies (#[trigger] txs1[p]).nonce
                == ns_count(txs1.take(p), txs1[p].signing_account, txs1[p].settlement_route) by {
                assert(txs0[p].nonce == ns_count(
                    txs0.take(p),
                    txs0[p].signing_account,
                    txs0[p].settlement_route,
                ));
                assert(txs1[p].nonce == txs0[p].nonce);
                assert(txs1[p].signing_account == txs0[p].signing_account);
                assert(txs1[p].settlement_route == txs0[p].settlement_route);
                lemma_ns_count_pointwise(
                    txs1.take(p),
                    txs0.take(p),
                    txs1[p].signing_account,
                    txs1[p].settlement_route,
                );
            }
            assert forall|q: int|
                0 <= q < att1.len() && (#[trigger] att1[q]).status is Finalized implies txs1[att1[q].logical_tx_id as int].confirmed_attempt is Some by {
                let oi = att0[q].logical_tx_id as int;
                assert(att1[q] == unwound_attempt(att0[q], txs0[oi], account, route, from_nonce));
                assert(att0[q].status is Finalized);
                assert(!reorg_affected(txs0[oi], account, route, from_nonce));
                assert(txs0[oi].confirmed_attempt is Some);
                assert(txs1[oi] == txs0[oi]);
            }
        }
    }
}

/// Two sequences whose entries agree on namespace membership hold the same
/// number of namespace members.
pub proof fn lemma_ns_count_pointwise(
    s1: Seq<LogicalTx>,
    s2: Seq<LogicalTx>,
    account: u64,
    route: SettlementRoute,
)
    requires
        s1.len() == s2.len(),
        forall|i: int|
            0 <= i < s1.len() ==> in_namespace(#[trigger] s1[i], account, route) == in_namespace(
                #[trigger] s2[i],
                account,
                route,
            ),
    ensures
        ns_count(s1, account, route) == ns_count(s2, account, route),
    decreases s1.len(),
{
    if s1.len() > 0 {
        assert(in_namespace(s1.last(), account, route) == in_namespace(s2.last(), account, route));
        assert forall|i: int| 0 <= i < s1.drop_last().len() implies in_namespace(
            #[trigger] s1.drop_last()[i],
            account,
            route,
        ) == in_namespace(#[trigger] s2.drop_last()[i], account, route) by {
            assert(s1.drop_last()[i] == s1[i]);
            assert(s2.drop_last()[i] == s2[i]);
            assert(in_namespace(s1[i], account, route) == in_namespace(s2[i], account, route));
        }
        lemma_ns_count_pointwise(s1.drop_last(), s2.drop_last(), account, route);
    }
}

} // verus!
