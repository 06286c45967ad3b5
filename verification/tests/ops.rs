//! Operator-facing helpers: role parsing and token-registration decisions.

use settlement_tracker::ops::{
    token_needs_registration, AutoscalerType, GatewayRegisterL2TokensArgs,
};

#[test]
fn parses_known_roles() {
    assert_eq!(AutoscalerType::parse("scaler"), Some(AutoscalerType::Scaler));
    assert_eq!(AutoscalerType::parse("agent"), Some(AutoscalerType::Agent));
}

#[test]
fn rejects_unknown_roles() {
    assert_eq!(AutoscalerType::parse(""), None);
    assert_eq!(AutoscalerType::parse("Scaler"), None);
    assert_eq!(AutoscalerType::parse("agents"), None);
    assert_eq!(AutoscalerType::parse("watcher"), None);
}

#[test]
fn unregistered_token_with_known_origin_needs_registration() {
    let unset_asset_id = [0u8; 32];
    let mut origin = [0u8; 20];
    origin[19] = 1;
    assert!(token_needs_registration(&unset_asset_id, &origin));
}

#[test]
fn registered_or_originless_tokens_are_skipped() {
    let mut set_asset_id = [0u8; 32];
    set_asset_id[0] = 7;
    let mut origin = [0u8; 20];
    origin[19] = 1;
    // Already registered: asset id present.
    assert!(!token_needs_registration(&set_asset_id, &origin));
    // No origin-chain address known: nothing to register.
    let zero_origin = [0u8; 20];
    let unset_asset_id = [0u8; 32];
    assert!(!token_needs_registration(&unset_asset_id, &zero_origin));
}

#[test]
fn argument_bundle_carries_plain_values() {
    let args = GatewayRegisterL2TokensArgs {
        chain_id: 271,
        l2_rpc_url: String::from("http://localhost:3050"),
        private_key: String::from("test-key"),
        l2_tokens_indexing_block_range: Some(50000),
    };
    let copy = args.clone();
    assert_eq!(copy.chain_id, 271);
    assert_eq!(copy.l2_rpc_url, "http://localhost:3050");
    assert_eq!(copy.l2_tokens_indexing_block_range, Some(50000));
}
