//! Laws of the registry: the general properties the lifecycle tracker
//! guarantees, stated over the same spec functions its contracts use.

use vstd::prelude::*;

use crate::registry::{
    attempt_state_ok, fingerprints_unique, fingerprint_slot, finalized_attempt, confirmed_tx,
    has_fingerprint, in_namespace, lemma_fingerprint_slot_unique, ns_count, nonces_disciplined,
    record_effect, tx_link_ok, unwound_attempt, unwound_tx, Attempt, LogicalTx, Registry,
};
use crate::queries::{all_attempts_non_final, surfaced};
use crate::types::{FeeParameters, SettlementRoute};

verus! {

/// A namespace never holds more members than the record holds entries.
pub proof fn lemma_ns_count_le_len(txs: Seq<LogicalTx>, account: u64, route: SettlementRoute)
    ensures
        ns_count(txs, account, route) <= txs.len(),
    decreases txs.len(),
{
    if txs.len() > 0 {
        lemma_ns_count_le_len(txs.drop_last(), account, route);
    }
}

/// Namespace membership counts grow monotonically along prefixes.
pub proof fn lemma_ns_count_prefix_monotone(
    txs: Seq<LogicalTx>,
    account: u64,
    route: SettlementRoute,
    i: int,
    j: int,
)
    requires
        0 <= i <= j <= txs.len(),
    ensures
        ns_count(txs.take(i), account, route) <= ns_count(txs.take(j), account, route),
    decreases j - i,
{
    if i < j {
        lemma_ns_count_prefix_monotone(txs, account, route, i, j - 1);
        assert(txs.take(j).drop_last() =~= txs.take(j - 1));
    }
}

/// Appending an entry of another namespace leaves a namespace's member count
/// unchanged: nonce allocation in one namespace can never be disturbed by
/// creation activity in another.
pub proof fn lemma_ns_count_other_namespace(
    txs: Seq<LogicalTx>,
    t: LogicalTx,
    account: u64,
    route: SettlementRoute,
)
    requires
        !in_namespace(t, account, route),
    ensures
        ns_count(txs.push(t), account, route) == ns_count(txs, account, route),
{
    assert(txs.push(t).drop_last() =~= txs);
}

/// Appending a member of the namespace raises its member count by one.
pub proof fn lemma_ns_count_member(
    txs: Seq<LogicalTx>,
    t: LogicalTx,
    account: u64,
    route: SettlementRoute,
)
    requires
        in_namespace(t, account, route),
    ensures
        ns_count(txs.push(t), account, route) == ns_count(txs, account, route) + 1,
{
    assert(txs.push(t).drop_last() =~= txs);
}

/// Within one namespace, nonces grow strictly with creation order: later
/// entries carry strictly larger nonces, so no nonce is ever assigned twice.
pub proof fn lemma_nonces_strictly_increasing(
    txs: Seq<LogicalTx>,
    account: u64,
    route: SettlementRoute,
    i: int,
    j: int,
)
    requires
        nonces_disciplined(txs),
        0 <= i < j < txs.len(),
        in_namespace(txs[i], account, route),
        in_namespace(txs[j], account, route),
    ensures
        txs[i].nonce < txs[j].nonce,
{
    assert(txs[i].nonce == ns_count(txs.take(i), account, route));
    assert(txs[j].nonce == ns_count(txs.take(j), account, route));
    assert(txs.take(i + 1).drop_last() =~= txs.take(i));
    assert(txs.take(i + 1).last() == txs[i]);
    assert(ns_count(txs.take(i + 1), account, route) == ns_count(txs.take(i), account, route) + 1);
    lemma_ns_count_prefix_monotone(txs, account, route, i + 1, j);
}

/// Within one namespace, nonces are gap-free: every value below the member
/// count is carried by some member. Together with
/// `lemma_nonces_strictly_increasing` and the allocation contract of
/// `create_logical_tx`, the nonces handed out in one namespace are exactly
/// 0, 1, 2, ... in call order.
pub proof fn lemma_nonces_gap_free(
    txs: Seq<LogicalTx>,
    account: u64,
    route: SettlementRoute,
    n: nat,
)
    requires
        nonces_disciplined(txs),
        n < ns_count(txs, account, route),
    ensures
        exists|i: int|
            0 <= i < txs.len() && in_namespace(#[trigger] txs[i], account, route) && txs[i].nonce
                == n,
    decreases txs.len(),
{
    lemma_ns_count_le_len(txs, account, route);
    let len = txs.len() as int;
    let head = txs.drop_last();
    assert(txs.take(len - 1) =~= head);
    assert forall|i: int| 0 <= i < head.len() implies (#[trigger] head[i]).nonce == ns_count(
        head.take(i),
        head[i].signing_account,
        head[i].settlement_route,
    ) by {
        assert(head.take(i) =~= txs.take(i));
        assert(head[i] == txs[i]);
        assert(txs[i].nonce == ns_count(txs.take(i), txs[i].signing_account, txs[i].settlement_route));
    }
    if in_namespace(txs.last(), account, route) {
        assert(txs.last() == txs[len - 1]);
        assert(txs[len - 1].nonce == ns_count(txs.take(len - 1), account, route));
        assert(ns_count(txs, account, route) == ns_count(head, account, route) + 1);
        if n == ns_count(head, account, route) {
            assert(txs[len - 1].nonce == n);
        } else {
            lemma_nonces_gap_free(head, account, route, n);
            let i = choose|i: int|
                0 <= i < head.len() && in_namespace(#[trigger] head[i], account, route)
                    && head[i].nonce == n;
            assert(txs[i] == head[i]);
            assert(in_namespace(txs[i], account, route) && txs[i].nonce == n);
        }
    } else {
        assert(ns_count(txs, account, route) == ns_count(head, account, route));
        lemma_nonces_gap_free(head, account, route, n);
        let i = choose|i: int|
            0 <= i < head.len() && in_namespace(#[trigger] head[i], account, route) && head[i].nonce
                == n;
        assert(txs[i] == head[i]);
        assert(in_namespace(txs[i], account, route) && txs[i].nonce == n);
    }
}

/// Recording the same attempt twice is the same as recording it once: with
/// identical fingerprint and fee parameters the second application returns
/// the same attempt id and leaves the record exactly as the first left it.
pub proof fn lemma_record_attempt_idempotent(
    tx_total: int,
    attempts: Seq<Attempt>,
    logical_tx_id: usize,
    fee: FeeParameters,
    signed_payload: Vec<u8>,
    fingerprint: u64,
    observed_at_block: Option<u64>,
)
    requires
        fingerprints_unique(attempts),
    ensures
        ({
            let (a1, r1) = record_effect(
                tx_total,
                attempts,
                logical_tx_id,
                fee,
                signed_payload,
                fingerprint,
                observed_at_block,
            );
            let (a2, r2) = record_effect(
                tx_total,
                a1,
                logical_tx_id,
                fee,
                signed_payload,
                fingerprint,
                observed_at_block,
            );
            a2 == a1 && r2 == r1
        }),
{
    let (a1, r1) = record_effect(
        tx_total,
        attempts,
        logical_tx_id,
        fee,
        signed_payload,
        fingerprint,
        observed_at_block,
    );
    if !(logical_tx_id < tx_total) {
        assert(a1 == attempts);
    } else if has_fingerprint(attempts, fingerprint) {
        let j = fingerprint_slot(attempts, fingerprint);
        assert(0 <= j < attempts.len() && attempts[j].fingerprint == fingerprint);
        if attempts[j].logical_tx_id == logical_tx_id && attempts[j].fee == fee {
            assert forall|p: int, q: int| 0 <= p < q < a1.len() implies (
            #[trigger] a1[p]).fingerprint != (#[trigger] a1[q]).fingerprint by {
                assert(attempts[p].fingerprint != attempts[q].fingerprint);
            }
            lemma_fingerprint_slot_unique(a1, j, fingerprint);
            let (a2, r2) = record_effect(
                tx_total,
                a1,
                logical_tx_id,
                fee,
                signed_payload,
                fingerprint,
                observed_at_block,
            );
            assert(a2 =~= a1);
        } else {
            assert(a1 == attempts);
        }
    } else {
        let j = attempts.len() as int;
        assert(a1[j].fingerprint == fingerprint);
        assert forall|p: int, q: int| 0 <= p < q < a1.len() implies (
        #[trigger] a1[p]).fingerprint != (#[trigger] a1[q]).fingerprint by {
            if q < j {
                assert(attempts[p].fingerprint != attempts[q].fingerprint);
            } else {
                assert(a1[p] == attempts[p]);
                assert(!has_fingerprint(attempts, fingerprint));
            }
        }
        lemma_fingerprint_slot_unique(a1, j, fingerprint);
        let (a2, r2) = record_effect(
            tx_total,
            a1,
            logical_tx_id,
            fee,
            signed_payload,
            fingerprint,
            observed_at_block,
        );
        assert(a2 =~= a1);
    }
}

/// After any sequence of valid operations, no entry's canonical link points
/// at a pending attempt: every operation preserves well-formedness, and a
/// well-formed registry has no such stale link.
pub proof fn lemma_no_stale_confirmed_link(reg: Registry, i: int)
    requires
        reg.wf(),
        0 <= i < reg.txs@.len(),
    ensures
        reg.txs@[i].confirmed_attempt matches Some(k) ==> {
            &&& k < reg.attempts@.len()
            &&& reg.attempts@[k as int].logical_tx_id == i
            &&& !(reg.attempts@[k as int].status is Pending)
        },
{
    assert(tx_link_ok(reg.txs@, reg.attempts@, i));
}

/// Reorg round trip: unwinding a confirmed entry and then observing finality
/// again for the same attempt restores the entry exactly, and restores the
/// attempt exactly but for its inclusion observation, which awaits a fresh
/// sighting.
pub proof fn lemma_reorg_round_trip(
    t: LogicalTx,
    a: Attempt,
    account: u64,
    route: SettlementRoute,
    from_nonce: u64,
    gas_used: u64,
    now: u64,
)
    requires
        in_namespace(t, account, route),
        t.nonce >= from_nonce,
        t.confirmed_attempt == Some(a.id),
        a.status is Finalized,
        a.gas_used == Some(gas_used),
        a.confirmed_at == Some(now),
        a.submitted_successfully,
    ensures
        ({
            let t1 = unwound_tx(t, account, route, from_nonce);
            let a1 = unwound_attempt(a, t, account, route, from_nonce);
            &&& t1.confirmed_attempt is None
            &&& a1.status is Pending
            &&& confirmed_tx(t1, a.id) == t
            &&& finalized_attempt(a1, gas_used, now) == (Attempt { observed_at_block: None, ..a })
        }),
{
}

/// Reorg round trip at the registry level: starting from a well-formed
/// registry in which attempt `k` is the canonical attempt of entry `i`,
/// unwinding the entry's namespace and then observing finality again for the
/// same attempt, with the confirmation data the registry held, brings the
/// entry back exactly and the attempt back exactly but for its inclusion
/// observation. The first two relations below are what `unfinalize_from`
/// ensures, the last two what `on_finalized` ensures when it confirms `k`.
pub proof fn lemma_reorg_round_trip_registry(
    reg: Registry,
    unwound: Registry,
    reconfirmed: Registry,
    account: u64,
    route: SettlementRoute,
    from_nonce: u64,
    i: int,
    k: int,
)
    requires
        reg.wf(),
        0 <= i < reg.txs@.len(),
        0 <= k < reg.attempts@.len(),
        reg.txs@[i].confirmed_attempt == Some(k as usize),
        reg.attempts@[k].logical_tx_id == i,
        in_namespace(reg.txs@[i], account, route),
        reg.txs@[i].nonce >= from_nonce,
        unwound.txs@.len() == reg.txs@.len(),
        unwound.attempts@.len() == reg.attempts@.len(),
        forall|p: int|
            0 <= p < reg.txs@.len() ==> unwound.txs@[p] == unwound_tx(
                #[trigger] reg.txs@[p],
                account,
                route,
                from_nonce,
            ),
        forall|q: int|
            0 <= q < reg.attempts@.len() ==> unwound.attempts@[q] == unwound_attempt(
                #[trigger] reg.attempts@[q],
                reg.txs@[reg.attempts@[q].logical_tx_id as int],
                account,
                route,
                from_nonce,
            ),
        reconfirmed.attempts@ == unwound.attempts@.update(
            k,
            finalized_attempt(
                unwound.attempts@[k],
                reg.attempts@[k].gas_used.unwrap(),
                reg.attempts@[k].confirmed_at.unwrap(),
            ),
        ),
        reconfirmed.txs@ == unwound.txs@.update(i, confirmed_tx(unwound.txs@[i], k as usize)),
    ensures
        reconfirmed.txs@[i] == reg.txs@[i],
        reconfirmed.attempts@[k] == (Attempt { observed_at_block: None, ..reg.attempts@[k] }),
{
    assert(tx_link_ok(reg.txs@, reg.attempts@, i));
    assert(attempt_state_ok(reg.attempts@[k]));
    assert(reg.attempts@[k].id == k);
    lemma_reorg_round_trip(
        reg.txs@[i],
        reg.attempts@[k],
        account,
        route,
        from_nonce,
        reg.attempts@[k].gas_used.unwrap(),
        reg.attempts@[k].confirmed_at.unwrap(),
    );
}

/// The reorg unwind is idempotent, also under a revised (earlier) starting
/// nonce: unwinding what is already unwound only unwinds what the revised
/// signal asks for.
pub proof fn lemma_unwind_idempotent(
    t: LogicalTx,
    a: Attempt,
    account: u64,
    route: SettlementRoute,
    first_from: u64,
    revised_from: u64,
)
    requires
        revised_from <= first_from,
    ensures
        unwound_tx(unwound_tx(t, account, route, first_from), account, route, revised_from)
            == unwound_tx(t, account, route, revised_from),
        unwound_attempt(
            unwound_attempt(a, t, account, route, first_from),
            unwound_tx(t, account, route, first_from),
            account,
            route,
            revised_from,
        ) == unwound_attempt(a, t, account, route, revised_from),
{
}

/// Outside hole states, `next_unconfirmed` never surfaces an entry whose
/// nonce lies below that of a namespace member that already has a finalized
/// attempt. In a hole state — an unconfirmed entry sitting below a confirmed
/// one — the hole is deliberately surfaced first, so the hypothesis that
/// every member below the finalized one is confirmed is what rules such
/// states out.
pub proof fn lemma_surfaced_not_below_finalized(
    reg: Registry,
    account: u64,
    route: SettlementRoute,
    i: int,
    f: int,
)
    requires
        reg.wf(),
        0 <= i < reg.txs@.len(),
        0 <= f < reg.txs@.len(),
        surfaced(reg.txs@, reg.attempts@, i, account, route),
        in_namespace(reg.txs@[f], account, route),
        !all_attempts_non_final(reg.attempts@, f),
        forall|p: int|
            0 <= p < reg.txs@.len() && in_namespace(#[trigger] reg.txs@[p], account, route)
                && reg.txs@[p].nonce < reg.txs@[f].nonce ==> reg.txs@[p].confirmed_attempt is Some,
    ensures
        reg.txs@[i].nonce >= reg.txs@[f].nonce,
{
    assert(in_namespace(reg.txs@[i], account, route));
    assert(reg.txs@[i].confirmed_attempt is None);
}

} // verus!
