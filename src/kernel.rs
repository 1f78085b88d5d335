//! The desktop shell's command path: a typed command becomes a directive,
//! is checked against the zero-entropy rule, and is handed to the runner.

use vstd::prelude::*;
use vstd::string::StringSliceAdditionalSpecFns;
use crate::bridge::{run_mamba, BridgeResult};
use crate::router::{occurs, occurs_in};

verus! {

/// A directive of the desktop shell: no free-form chat, only these fields.
pub struct Directive {
    pub id: String,
    pub command: String,
    pub target_nodes: Vec<String>,
    pub signature: String,
}

/// Settings of the shell.
pub struct KernelConfig {
    /// When set, unsigned directives are refused.
    pub enforce_zero_entropy: bool,
}

impl Default for KernelConfig {
    fn default() -> (r: KernelConfig)
        ensures
            !r.enforce_zero_entropy,
    {
        KernelConfig { enforce_zero_entropy: false }
    }
}

/// The directive for a typed command: a local id, the coordinator and the
/// vitality and wealth agents as targets, and the local signature marker.
pub fn parse_intent(command: String) -> (d: Directive)
    ensures
        d.id@ == "directive-local"@,
        d.command@ == command@,
        d.target_nodes@.len() == 3,
        d.target_nodes@[0]@ == "LEX-MON"@,
        d.target_nodes@[1]@ == "LEX-VIT"@,
        d.target_nodes@[2]@ == "LEX-WTH"@,
        d.signature@ == "srp://local/mock-signature"@,
{
    Directive {
        id: String::from_str("directive-local"),
        command,
        target_nodes: vec![String::from_str("LEX-MON"), String::from_str("LEX-VIT"), String::from_str("LEX-WTH")],
        signature: String::from_str("srp://local/mock-signature"),
    }
}

/// Whether a signature text is present and carries an `srp://` reference.
pub open spec fn signature_marked(signature: Seq<char>) -> bool {
    signature.len() > 0 && occurs(vstd::utf8::encode_utf8(signature), "srp://".spec_bytes())
}

/// Whether a signature text is present and carries an `srp://` reference.
pub fn verify_signature(signature: &str) -> (r: bool)
    ensures
        r == signature_marked(signature@),
{
    !signature.is_empty() && occurs_in(signature.as_bytes(), "srp://".as_bytes())
}

/// Whether the first bytes of `text` are `prefix`.
pub fn starts_with_bytes(text: &[u8], prefix: &[u8]) -> (r: bool)
    ensures
        r == (prefix@.len() <= text@.len() && text@.subrange(0, prefix@.len() as int) == prefix@),
{
    if prefix.len() > text.len() {
        return false;
    }
    let mut i: usize = 0;
    while i < prefix.len()
        invariant
            prefix@.len() <= text@.len(),
            i <= prefix@.len(),
            text@.subrange(0, i as int) == prefix@.subrange(0, i as int),
        decreases prefix@.len() - i,
    {
        if text[i] != prefix[i] {
            assert(text@.subrange(0, prefix@.len() as int)[i as int] != prefix@[i as int]);
            return false;
        }
        assert(text@.subrange(0, i + 1) =~= prefix@.subrange(0, i + 1));
        i = i + 1;
    }
    assert(prefix@.subrange(0, prefix@.len() as int) =~= prefix@);
    true
}

/// Whether a directive text comes from the operator's own `srp://alexis/`
/// namespace and says more than the namespace.
pub fn verify_srp_signature(directive: &str) -> (r: bool)
    ensures
        r == (occurs_prefix(directive.spec_bytes(), "srp://alexis/".spec_bytes()) && directive.spec_bytes().len() > 15),
{
    let b = directive.as_bytes();
    starts_with_bytes(b, "srp://alexis/".as_bytes()) && b.len() > 15
}

pub open spec fn occurs_prefix(text: Seq<u8>, prefix: Seq<u8>) -> bool {
    prefix.len() <= text.len() && text.subrange(0, prefix.len() as int) == prefix
}

/// The shell's answer to a typed command: refused when the zero-entropy rule
/// is on and the directive is unsigned, otherwise the runner's report.
pub fn execute_vector(command: String, config: &KernelConfig) -> (r: String)
    ensures
        ({
            let signed = signature_marked("srp://local/mock-signature"@);
            &&& (config.enforce_zero_entropy && !signed) ==> r@ == "ERROR: UNVERIFIED DIRECTIVE. ENTROPY DETECTED."@
            &&& (!config.enforce_zero_entropy || signed) ==> r@ == "STATE UPDATED: "@ + "directive-local"@
                + " resolved"@ + ". PROOF: "@ + "0x928cafe"@
        }),
{
    let directive = parse_intent(command);
    if config.enforce_zero_entropy && !verify_signature(directive.signature.as_str()) {
        return String::from_str("ERROR: UNVERIFIED DIRECTIVE. ENTROPY DETECTED.");
    }
    match run_mamba(&directive) {
        Ok(BridgeResult { state_delta, proof_hash }) => {
            let mut out = String::from_str("STATE UPDATED: ");
            out.append(state_delta.as_str());
            out.append(". PROOF: ");
            out.append(proof_hash.as_str());
            out
        },
        Err(e) => {
            let mut out = String::from_str("ERROR: ");
            out.append(e.as_str());
            out
        },
    }
}

} // verus!
