use lex_lattice::bridge::run_mamba;
use lex_lattice::kernel::{execute_vector, parse_intent, verify_signature, verify_srp_signature, KernelConfig};

#[test]
fn intent_becomes_a_local_directive() {
    let d = parse_intent("pivot now".to_string());
    assert_eq!(d.id, "directive-local");
    assert_eq!(d.command, "pivot now");
    assert_eq!(d.target_nodes, vec!["LEX-MON".to_string(), "LEX-VIT".to_string(), "LEX-WTH".to_string()]);
    assert_eq!(d.signature, "srp://local/mock-signature");
}

#[test]
fn signature_markers() {
    assert!(verify_signature("srp://local/mock-signature"));
    assert!(!verify_signature(""));
    assert!(!verify_signature("unsigned"));
    assert!(verify_srp_signature("srp://alexis/sigma"));
    assert!(!verify_srp_signature("srp://alexis/"));
    assert!(!verify_srp_signature("srp://other/sigma-long"));
}

#[test]
fn runner_reports_the_directive() {
    let r = run_mamba(&parse_intent("x".to_string())).ok().unwrap();
    assert_eq!(r.state_delta, "directive-local resolved");
    assert_eq!(r.proof_hash, "0x928cafe");
}

#[test]
fn vector_execution() {
    let strict = KernelConfig { enforce_zero_entropy: true };
    assert_eq!(execute_vector("go".to_string(), &strict), "STATE UPDATED: directive-local resolved. PROOF: 0x928cafe");
    assert_eq!(
        execute_vector("go".to_string(), &KernelConfig::default()),
        "STATE UPDATED: directive-local resolved. PROOF: 0x928cafe"
    );
}
