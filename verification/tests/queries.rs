//! Read-side queries: polling sets, frontiers, counts and point lookups.

use settlement_tracker::registry::Registry;
use settlement_tracker::types::{FeeParameters, OperationKind, SettlementRoute};

fn fee(base: u64, priority: u64) -> FeeParameters {
    FeeParameters {
        base_fee_per_gas: base,
        priority_fee_per_gas: priority,
        blob_base_fee_per_gas: Some(base / 2),
        max_gas_per_pubdata: Some(1000),
    }
}

const X: u64 = 1;
const DIRECT: SettlementRoute = SettlementRoute::Direct;
const GATEWAY: SettlementRoute = SettlementRoute::Gateway;

#[test]
fn next_unconfirmed_returns_pending_entries_in_order() {
    let mut reg = Registry::new();
    let a = reg.create_logical_tx(OperationKind::Commit, vec![], X, DIRECT);
    let b = reg.create_logical_tx(OperationKind::ProveOnchain, vec![], X, DIRECT);
    let c = reg.create_logical_tx(OperationKind::Execute, vec![], X, DIRECT);
    assert_eq!(reg.next_unconfirmed(X, DIRECT, 10), vec![a, b, c]);
    assert_eq!(reg.next_unconfirmed(X, DIRECT, 2), vec![a, b]);
    assert_eq!(reg.next_unconfirmed(X, DIRECT, 0), Vec::<usize>::new());
}

#[test]
fn next_unconfirmed_surfaces_hole_first() {
    let mut reg = Registry::new();
    let a = reg.create_logical_tx(OperationKind::Commit, vec![], X, DIRECT);
    let b = reg.create_logical_tx(OperationKind::ProveOnchain, vec![], X, DIRECT);
    reg.record_attempt(a, fee(10, 1), vec![0], 0xa, None).unwrap();
    reg.record_attempt(b, fee(10, 1), vec![1], 0xb, None).unwrap();
    // The later entry confirms first, leaving a hole at the lower nonce.
    reg.on_finalized(0xb, 1, 1).unwrap();
    assert_eq!(reg.next_unconfirmed(X, DIRECT, 10), vec![a]);
}

#[test]
fn next_unconfirmed_holds_back_beyond_frontier() {
    let mut reg = Registry::new();
    let a = reg.create_logical_tx(OperationKind::Commit, vec![], X, DIRECT);
    reg.record_attempt(a, fee(10, 1), vec![0], 0xa, None).unwrap();
    reg.on_finalized(0xa, 1, 1).unwrap();
    // Every member has a finalized attempt: nothing is in flight.
    assert_eq!(reg.next_unconfirmed(X, DIRECT, 10), Vec::<usize>::new());
    // A fresh entry re-opens the frontier.
    let b = reg.create_logical_tx(OperationKind::Execute, vec![], X, DIRECT);
    assert_eq!(reg.next_unconfirmed(X, DIRECT, 10), vec![b]);
}

#[test]
fn next_unconfirmed_is_namespace_local() {
    let mut reg = Registry::new();
    let d = reg.create_logical_tx(OperationKind::Commit, vec![], X, DIRECT);
    let g = reg.create_logical_tx(OperationKind::Commit, vec![], X, GATEWAY);
    assert_eq!(reg.next_unconfirmed(X, DIRECT, 10), vec![d]);
    assert_eq!(reg.next_unconfirmed(X, GATEWAY, 10), vec![g]);
}

#[test]
fn new_txs_lists_entries_after_last_sent() {
    let mut reg = Registry::new();
    let a = reg.create_logical_tx(OperationKind::Commit, vec![], X, DIRECT);
    let b = reg.create_logical_tx(OperationKind::ProveOnchain, vec![], X, DIRECT);
    let c = reg.create_logical_tx(OperationKind::Execute, vec![], X, DIRECT);
    // Nothing sent yet: everything is new.
    assert_eq!(reg.new_txs(X, DIRECT, 10), vec![a, b, c]);
    // Send the first entry: seen in a block and broadcast ok.
    let a1 = reg
        .record_attempt(a, fee(10, 1), vec![0], 0xa, Some(100))
        .unwrap();
    reg.mark_broadcast_ok(a1).unwrap();
    assert_eq!(reg.new_txs(X, DIRECT, 10), vec![b, c]);
    assert_eq!(reg.new_txs(X, DIRECT, 1), vec![b]);
}

#[test]
fn counts_follow_confirmations() {
    let mut reg = Registry::new();
    let a = reg.create_logical_tx(OperationKind::Commit, vec![], X, DIRECT);
    let _b = reg.create_logical_tx(OperationKind::Commit, vec![], X, GATEWAY);
    assert_eq!(reg.unconfirmed_count(), 2);
    assert_eq!(reg.inflight_count(DIRECT), 1);
    assert_eq!(reg.inflight_count(GATEWAY), 1);

    reg.record_attempt(a, fee(10, 1), vec![0], 0xa, None).unwrap();
    reg.on_finalized(0xa, 1, 1).unwrap();
    assert_eq!(reg.unconfirmed_count(), 1);
    assert_eq!(reg.inflight_count(DIRECT), 0);
    assert_eq!(reg.inflight_count(GATEWAY), 1);
    assert_eq!(reg.failed_count(), 0);
}

#[test]
fn oldest_unfinalized_reports_chain_of_first_open_entry() {
    let mut reg = Registry::new();
    assert_eq!(reg.oldest_unfinalized_across_all_accounts(), None);
    let a = reg.create_logical_tx(OperationKind::Commit, vec![], X, DIRECT);
    let b = reg.create_logical_tx(OperationKind::Commit, vec![], X, GATEWAY);
    reg.set_chain_id(b, 505).unwrap();
    assert_eq!(
        reg.oldest_unfinalized_across_all_accounts(),
        Some((None, a))
    );
    reg.record_attempt(a, fee(10, 1), vec![0], 0xa, None).unwrap();
    reg.on_finalized(0xa, 1, 1).unwrap();
    assert_eq!(
        reg.oldest_unfinalized_across_all_accounts(),
        Some((Some(505), b))
    );
}

#[test]
fn observed_block_extremes() {
    let mut reg = Registry::new();
    let a = reg.create_logical_tx(OperationKind::Commit, vec![], X, DIRECT);
    assert_eq!(reg.first_observed_block(a), None);
    reg.record_attempt(a, fee(10, 1), vec![0], 0xa, Some(70)).unwrap();
    reg.record_attempt(a, fee(20, 2), vec![1], 0xb, Some(30)).unwrap();
    reg.record_attempt(a, fee(30, 3), vec![2], 0xc, None).unwrap();
    assert_eq!(reg.first_observed_block(a), Some(30));
    assert_eq!(reg.last_observed_block(a), Some(70));
}

#[test]
fn last_broadcast_attempt_picks_newest_sent() {
    let mut reg = Registry::new();
    let a = reg.create_logical_tx(OperationKind::Commit, vec![], X, DIRECT);
    let a1 = reg.record_attempt(a, fee(10, 1), vec![0], 0xa, None).unwrap();
    let a2 = reg.record_attempt(a, fee(20, 2), vec![1], 0xb, None).unwrap();
    assert_eq!(reg.last_broadcast_attempt(a), None);
    reg.mark_broadcast_ok(a1).unwrap();
    assert_eq!(reg.last_broadcast_attempt(a), Some(a1));
    reg.mark_broadcast_ok(a2).unwrap();
    assert_eq!(reg.last_broadcast_attempt(a), Some(a2));
}

#[test]
fn unfinalized_attempts_respect_chain_filter() {
    let mut reg = Registry::new();
    let a = reg.create_logical_tx(OperationKind::Commit, vec![], X, DIRECT);
    let b = reg.create_logical_tx(OperationKind::Commit, vec![], X, DIRECT);
    reg.set_chain_id(a, 1).unwrap();
    reg.set_chain_id(b, 2).unwrap();
    let a1 = reg.record_attempt(a, fee(10, 1), vec![0], 0xa, None).unwrap();
    let b1 = reg.record_attempt(b, fee(10, 1), vec![1], 0xb, None).unwrap();
    assert_eq!(reg.unfinalized_attempts(10, None), vec![a1, b1]);
    assert_eq!(reg.unfinalized_attempts(10, Some(1)), vec![a1]);
    assert_eq!(reg.unfinalized_attempts(10, Some(2)), vec![b1]);
    reg.on_finalized(0xa, 1, 1).unwrap();
    assert_eq!(reg.unfinalized_attempts(10, None), vec![b1]);
}

#[test]
fn latest_of_kind_tracks_recording_and_confirmation() {
    let mut reg = Registry::new();
    assert_eq!(reg.latest_of_kind(OperationKind::Commit, false), None);
    let c0 = reg.create_logical_tx(OperationKind::Commit, vec![], X, DIRECT);
    let p0 = reg.create_logical_tx(OperationKind::ProveOnchain, vec![], X, DIRECT);
    let c1 = reg.create_logical_tx(OperationKind::Commit, vec![], X, DIRECT);
    assert_eq!(reg.latest_of_kind(OperationKind::Commit, false), Some(c1));
    assert_eq!(reg.latest_of_kind(OperationKind::ProveOnchain, false), Some(p0));
    assert_eq!(reg.latest_of_kind(OperationKind::Execute, false), None);
    assert_eq!(reg.latest_of_kind(OperationKind::Commit, true), None);
    reg.record_attempt(c0, fee(10, 1), vec![9], 0xf0, None).unwrap();
    reg.on_finalized(0xf0, 1, 1).unwrap();
    assert_eq!(reg.latest_of_kind(OperationKind::Commit, true), Some(c0));
    assert_eq!(reg.latest_of_kind(OperationKind::Commit, false), Some(c1));
}

#[test]
fn point_lookups() {
    let mut reg = Registry::new();
    let a = reg.create_logical_tx(OperationKind::Commit, vec![5, 6], X, DIRECT);
    let a1 = reg.record_attempt(a, fee(10, 1), vec![0], 0xa, None).unwrap();
    let a2 = reg.record_attempt(a, fee(20, 2), vec![1], 0xb, None).unwrap();
    assert_eq!(reg.attempt_by_fingerprint(0xb), Some(a2));
    assert_eq!(reg.attempt_by_fingerprint(0xdead), None);
    assert_eq!(reg.attempts_of(a), vec![a1, a2]);
    assert_eq!(reg.confirmed_fingerprint(a), None);
    reg.on_finalized(0xb, 1, 1).unwrap();
    assert_eq!(reg.confirmed_fingerprint(a), Some(0xb));
    assert!(reg.tx(99).is_none());
    assert!(reg.attempt(99).is_none());
    assert_eq!(reg.tx(a).unwrap().payload, vec![5, 6]);
}
