//! The bridge from a desktop directive to the state runner.

use vstd::prelude::*;
use crate::kernel::Directive;

verus! {

/// What the runner reports for a directive.
pub struct BridgeResult {
    pub state_delta: String,
    pub proof_hash: String,
}

/// Resolves a directive: the delta names the directive, the proof hash is
/// the runner's fixed marker.
pub fn run_mamba(directive: &Directive) -> (r: Result<BridgeResult, String>)
    ensures
        r matches Ok(b) && b.state_delta@ == directive.id@ + " resolved"@ && b.proof_hash@ == "0x928cafe"@,
{
    let mut state_delta = directive.id.clone();
    state_delta.append(" resolved");
    Ok(BridgeResult { state_delta, proof_hash: String::from_str("0x928cafe") })
}

} // verus!
