//! Lifecycle scenarios: confirmation, reorg rollback and fee bumps.

use settlement_tracker::registry::Registry;
use settlement_tracker::types::{
    FeeParameters, FinalityStatus, OperationKind, SettlementRoute, TrackerError,
};

fn fee(base: u64, priority: u64) -> FeeParameters {
    FeeParameters {
        base_fee_per_gas: base,
        priority_fee_per_gas: priority,
        blob_base_fee_per_gas: None,
        max_gas_per_pubdata: None,
    }
}

const ACCOUNT: u64 = 7;

#[test]
fn confirm_after_broadcast_and_inclusion() {
    let mut reg = Registry::new();
    let a = reg.create_logical_tx(
        OperationKind::Commit,
        vec![1, 2, 3],
        ACCOUNT,
        SettlementRoute::Direct,
    );
    assert_eq!(a, 0);
    assert_eq!(reg.tx(a).unwrap().nonce, 0);

    let a1 = reg
        .record_attempt(a, fee(10, 1), vec![0xaa], 0x1111, None)
        .unwrap();
    reg.mark_broadcast_ok(a1).unwrap();
    assert!(reg.on_block_included(0x1111, 100));
    assert_eq!(reg.attempt(a1).unwrap().observed_at_block, Some(100));

    let confirmed = reg.on_finalized(0x1111, 21000, 555).unwrap();
    assert_eq!(confirmed, a1);
    assert_eq!(reg.confirmed_attempt_ref(a), Some(a1));
    assert_eq!(reg.attempt(a1).unwrap().status, FinalityStatus::Finalized);
    assert_eq!(reg.attempt(a1).unwrap().gas_used, Some(21000));
    assert_eq!(reg.attempt(a1).unwrap().confirmed_at, Some(555));
    assert!(reg.attempt(a1).unwrap().submitted_successfully);
}

#[test]
fn reorg_reverts_confirmation() {
    let mut reg = Registry::new();
    let a = reg.create_logical_tx(
        OperationKind::Commit,
        vec![1, 2, 3],
        ACCOUNT,
        SettlementRoute::Direct,
    );
    let a1 = reg
        .record_attempt(a, fee(10, 1), vec![0xaa], 0x1111, None)
        .unwrap();
    reg.mark_broadcast_ok(a1).unwrap();
    assert!(reg.on_block_included(0x1111, 100));
    reg.on_finalized(0x1111, 21000, 555).unwrap();

    reg.unfinalize_from(ACCOUNT, SettlementRoute::Direct, 0);
    assert_eq!(reg.confirmed_attempt_ref(a), None);
    let att = reg.attempt(a1).unwrap();
    assert_eq!(att.status, FinalityStatus::Pending);
    assert_eq!(att.observed_at_block, None);
    assert_eq!(att.confirmed_at, None);
    assert_eq!(att.gas_used, None);
    assert!(!att.submitted_successfully);
}

#[test]
fn reconfirm_after_reorg_restores_state() {
    let mut reg = Registry::new();
    let a = reg.create_logical_tx(
        OperationKind::ProveOnchain,
        vec![9],
        ACCOUNT,
        SettlementRoute::Direct,
    );
    let a1 = reg
        .record_attempt(a, fee(10, 1), vec![0xaa], 0x1111, Some(90))
        .unwrap();
    reg.on_finalized(0x1111, 21000, 555).unwrap();
    reg.unfinalize_from(ACCOUNT, SettlementRoute::Direct, 0);
    // Observing finality again for the same fingerprint restores the exact
    // prior confirmed state; only the inclusion observation stays cleared.
    let again = reg.on_finalized(0x1111, 21000, 555).unwrap();
    assert_eq!(again, a1);
    assert_eq!(reg.confirmed_attempt_ref(a), Some(a1));
    let att = reg.attempt(a1).unwrap();
    assert_eq!(att.status, FinalityStatus::Finalized);
    assert_eq!(att.gas_used, Some(21000));
    assert_eq!(att.confirmed_at, Some(555));
    assert_eq!(att.observed_at_block, None);
}

#[test]
fn repeated_reorg_is_idempotent() {
    let mut reg = Registry::new();
    let a = reg.create_logical_tx(
        OperationKind::Execute,
        vec![4],
        ACCOUNT,
        SettlementRoute::Direct,
    );
    let a1 = reg
        .record_attempt(a, fee(10, 1), vec![0xaa], 0x1111, Some(5))
        .unwrap();
    reg.on_finalized(0x1111, 100, 1).unwrap();
    reg.unfinalize_from(ACCOUNT, SettlementRoute::Direct, 0);
    let snapshot = (
        reg.confirmed_attempt_ref(a),
        reg.attempt(a1).unwrap().status,
        reg.attempt(a1).unwrap().observed_at_block,
    );
    reg.unfinalize_from(ACCOUNT, SettlementRoute::Direct, 0);
    assert_eq!(
        snapshot,
        (
            reg.confirmed_attempt_ref(a),
            reg.attempt(a1).unwrap().status,
            reg.attempt(a1).unwrap().observed_at_block,
        )
    );
}

#[test]
fn fee_bump_keeps_both_attempts() {
    let mut reg = Registry::new();
    let a = reg.create_logical_tx(
        OperationKind::Commit,
        vec![1],
        ACCOUNT,
        SettlementRoute::Direct,
    );
    let a1 = reg
        .record_attempt(a, fee(10, 1), vec![0xaa], 0x1111, None)
        .unwrap();
    // Fee bump: same entry, higher fees, new signature and fingerprint.
    let a2 = reg
        .record_attempt(a, fee(20, 2), vec![0xbb], 0x2222, None)
        .unwrap();
    assert_ne!(a1, a2);
    assert_eq!(reg.attempt(a1).unwrap().logical_tx_id, a);
    assert_eq!(reg.attempt(a2).unwrap().logical_tx_id, a);

    reg.on_finalized(0x2222, 30000, 700).unwrap();
    assert_eq!(reg.confirmed_attempt_ref(a), Some(a2));
    // The losing attempt stays recorded, pending and non-canonical.
    assert_eq!(reg.attempt(a1).unwrap().status, FinalityStatus::Pending);
}

#[test]
fn record_attempt_is_idempotent_on_fingerprint() {
    let mut reg = Registry::new();
    let a = reg.create_logical_tx(
        OperationKind::Commit,
        vec![1],
        ACCOUNT,
        SettlementRoute::Direct,
    );
    let first = reg
        .record_attempt(a, fee(10, 1), vec![0xaa], 0x1111, Some(50))
        .unwrap();
    let second = reg
        .record_attempt(a, fee(10, 1), vec![0xaa], 0x1111, Some(60))
        .unwrap();
    assert_eq!(first, second);
    assert_eq!(reg.attempt_count(), 1);
    // The duplicate only refreshed the inclusion observation.
    assert_eq!(reg.attempt(first).unwrap().observed_at_block, Some(60));
}

#[test]
fn duplicate_fingerprint_with_divergent_fees_is_rejected() {
    let mut reg = Registry::new();
    let a = reg.create_logical_tx(
        OperationKind::Commit,
        vec![1],
        ACCOUNT,
        SettlementRoute::Direct,
    );
    reg.record_attempt(a, fee(10, 1), vec![0xaa], 0x1111, None)
        .unwrap();
    let r = reg.record_attempt(a, fee(99, 9), vec![0xaa], 0x1111, None);
    assert_eq!(r, Err(TrackerError::DuplicateAttempt));
    assert_eq!(reg.attempt_count(), 1);
}

#[test]
fn operations_on_unknown_ids_report_not_found() {
    let mut reg = Registry::new();
    assert_eq!(
        reg.record_attempt(0, fee(1, 1), vec![], 0x1, None),
        Err(TrackerError::NotFound)
    );
    assert_eq!(reg.mark_broadcast_ok(0), Err(TrackerError::NotFound));
    assert_eq!(reg.mark_failed(3), Err(TrackerError::NotFound));
    assert_eq!(reg.set_chain_id(3, 1), Err(TrackerError::NotFound));
    assert_eq!(reg.on_finalized(0x1, 0, 0), Err(TrackerError::NotFound));
    assert!(!reg.on_block_included(0x1, 10));
    assert!(!reg.on_block_excluded(0x1));
}

fn assert_no_stale_links(reg: &Registry) {
    for i in 0..reg.tx_count() {
        if let Some(k) = reg.confirmed_attempt_ref(i) {
            let att = reg.attempt(k).unwrap();
            assert_eq!(att.status, FinalityStatus::Finalized);
            assert_eq!(att.logical_tx_id, i);
        }
    }
}

#[test]
fn no_confirmed_link_ever_points_at_pending() {
    let mut reg = Registry::new();
    assert_no_stale_links(&reg);
    let a = reg.create_logical_tx(OperationKind::Commit, vec![1], ACCOUNT, SettlementRoute::Direct);
    let b = reg.create_logical_tx(OperationKind::Execute, vec![2], ACCOUNT, SettlementRoute::Direct);
    let g = reg.create_logical_tx(OperationKind::Commit, vec![3], ACCOUNT, SettlementRoute::Gateway);
    assert_no_stale_links(&reg);
    reg.record_attempt(a, fee(10, 1), vec![0xaa], 0xa1, None).unwrap();
    reg.record_attempt(a, fee(20, 2), vec![0xab], 0xa2, None).unwrap();
    reg.record_attempt(b, fee(10, 1), vec![0xba], 0xb1, Some(10)).unwrap();
    reg.record_attempt(g, fee(10, 1), vec![0xca], 0xc1, None).unwrap();
    assert_no_stale_links(&reg);
    reg.on_finalized(0xa2, 100, 1).unwrap();
    reg.on_finalized(0xb1, 200, 2).unwrap();
    assert_no_stale_links(&reg);
    reg.unfinalize_from(ACCOUNT, SettlementRoute::Direct, 1);
    assert_no_stale_links(&reg);
    reg.on_finalized(0xb1, 200, 3).unwrap();
    reg.mark_failed(g).unwrap();
    assert_no_stale_links(&reg);
    reg.unfinalize_from(ACCOUNT, SettlementRoute::Direct, 0);
    reg.unfinalize_from(ACCOUNT, SettlementRoute::Gateway, 0);
    assert_no_stale_links(&reg);
    reg.on_finalized(0xa1, 50, 4).unwrap();
    assert_no_stale_links(&reg);
    assert_eq!(reg.confirmed_attempt_ref(a), Some(0));
}

#[test]
fn mark_failed_keeps_history() {
    let mut reg = Registry::new();
    let a = reg.create_logical_tx(
        OperationKind::Commit,
        vec![1],
        ACCOUNT,
        SettlementRoute::Direct,
    );
    let a1 = reg
        .record_attempt(a, fee(10, 1), vec![0xaa], 0x1111, None)
        .unwrap();
    reg.mark_failed(a).unwrap();
    assert!(reg.tx(a).unwrap().failed);
    assert_eq!(reg.tx_count(), 1);
    assert_eq!(reg.attempt_count(), 1);
    assert_eq!(reg.attempt(a1).unwrap().logical_tx_id, a);
    assert_eq!(reg.failed_count(), 1);
}

#[test]
fn chain_id_is_recorded() {
    let mut reg = Registry::new();
    let a = reg.create_logical_tx(
        OperationKind::Precommit,
        vec![1],
        ACCOUNT,
        SettlementRoute::Gateway,
    );
    assert_eq!(reg.tx(a).unwrap().chain_id, None);
    reg.set_chain_id(a, 324).unwrap();
    assert_eq!(reg.tx(a).unwrap().chain_id, Some(324));
}

#[test]
fn block_exclusion_clears_observation() {
    let mut reg = Registry::new();
    let a = reg.create_logical_tx(
        OperationKind::Commit,
        vec![1],
        ACCOUNT,
        SettlementRoute::Direct,
    );
    let a1 = reg
        .record_attempt(a, fee(10, 1), vec![0xaa], 0x1111, None)
        .unwrap();
    assert!(reg.on_block_included(0x1111, 42));
    assert_eq!(reg.attempt(a1).unwrap().observed_at_block, Some(42));
    assert!(reg.on_block_excluded(0x1111));
    assert_eq!(reg.attempt(a1).unwrap().observed_at_block, None);
}
