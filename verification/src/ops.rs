//! Operator-facing helpers: the worker-role selector of the autoscaling
//! binary, the argument bundle of the token-registration command, and the
//! decision of which tokens that command must register.

use vstd::prelude::*;
use vstd::string::StringSliceAdditionalSpecFns;

verus! {

/// Which component of the prover autoscaler a process runs.
#[derive(Clone, Copy, Debug, PartialEq, Eq, Hash, Structural)]
pub enum AutoscalerType {
    Scaler,
    Agent,
}

/// The UTF-8 bytes of "scaler", the word selecting the scaler role.
pub open spec fn scaler_name() -> Seq<u8> {
    seq![115u8, 99u8, 97u8, 108u8, 101u8, 114u8]
}

/// The UTF-8 bytes of "agent", the word selecting the agent role.
pub open spec fn agent_name() -> Seq<u8> {
    seq![97u8, 103u8, 101u8, 110u8, 116u8]
}

/// Compares two byte strings.
fn bytes_match(s: &[u8], t: &[u8]) -> (r: bool)
    ensures
        r == (s@ == t@),
{
    if s.len() != t.len() {
        return false;
    }
    let end = s.len();
    let mut i: usize = 0;
    while i < end
        invariant
            end == s@.len(),
            s@.len() == t@.len(),
            0 <= i <= end,
            forall|q: int| 0 <= q < i ==> s@[q] == t@[q],
        decreases end - i,
    {
        if s[i] != t[i] {
            return false;
        }
        i = i + 1;
    }
    proof {
        assert(s@ =~= t@);
    }
    true
}

impl AutoscalerType {
    /// Parses a role selector: exactly "scaler" or "agent", anything else is
    /// rejected.
    pub fn parse(s: &str) -> (r: Option<AutoscalerType>)
        ensures
            s.spec_bytes() == scaler_name() ==> r == Some(AutoscalerType::Scaler),
            s.spec_bytes() == agent_name() ==> r == Some(AutoscalerType::Agent),
            s.spec_bytes() != scaler_name() && s.spec_bytes() != agent_name() ==> r is None,
    {
        let b = s.as_bytes();
        let scaler_word: [u8; 6] = [115, 99, 97, 108, 101, 114];
        let agent_word: [u8; 5] = [97, 103, 101, 110, 116];
        proof {
            assert(scaler_word@ =~= scaler_name());
            assert(agent_word@ =~= agent_name());
        }
        if bytes_match(b, scaler_word.as_slice()) {
            Some(AutoscalerType::Scaler)
        } else if bytes_match(b, agent_word.as_slice()) {
            Some(AutoscalerType::Agent)
        } else {
            None
        }
    }
}

/// Arguments of the command registering legacy bridged tokens on the
/// gateway's native token vault.
#[derive(Clone, Debug)]
pub struct GatewayRegisterL2TokensArgs {
    pub chain_id: u64,
    pub l2_rpc_url: String,
    pub private_key: String,
    pub l2_tokens_indexing_block_range: Option<u64>,
}

/// Every byte is zero.
pub open spec fn all_zero(s: Seq<u8>) -> bool {
    forall|i: int| 0 <= i < s.len() ==> s[i] == 0
}

/// Checks whether every byte of a slice is zero.
fn bytes_all_zero(s: &[u8]) -> (r: bool)
    ensures
        r == all_zero(s@),
{
    let end = s.len();
    let mut i: usize = 0;
    while i < end
        invariant
            end == s@.len(),
            0 <= i <= end,
            forall|q: int| 0 <= q < i ==> s@[q] == 0,
        decreases end - i,
    {
        if s[i] != 0 {
            return false;
        }
        i = i + 1;
    }
    true
}

/// Decides whether a legacy bridged token still needs registration: its
/// asset id in the native token vault is unset (all zeroes) while the legacy
/// bridge does know an origin-chain address for it (not the zero address).
pub fn token_needs_registration(current_asset_id: &[u8; 32], l1_token_address: &[u8; 20]) -> (r:
    bool)
    ensures
        r == (all_zero(current_asset_id@) && !all_zero(l1_token_address@)),
{
    bytes_all_zero(current_asset_id) && !bytes_all_zero(l1_token_address)
}

} // verus!
