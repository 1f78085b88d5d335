use lex_lattice::protocol::{BarkDirective, BarkResponse, DirectiveKind, ProtocolError, ResponseStatus, TargetNode};
use lex_lattice::signing::public_key_of;

const SECRET: [u8; 32] = [7u8; 32];
const OTHER_SECRET: [u8; 32] = [9u8; 32];

fn all_nodes() -> Vec<TargetNode> {
    vec![
        TargetNode::LexVit,
        TargetNode::LexWth,
        TargetNode::LexMon,
        TargetNode::LexEnt,
        TargetNode::LexKno,
        TargetNode::LexOrd,
        TargetNode::LexKin,
        TargetNode::LexGrw,
        TargetNode::LexSan,
        TargetNode::LexLei,
        TargetNode::LexOut,
        TargetNode::LexLeg,
    ]
}

#[test]
fn test_directive_creation() {
    let directive = BarkDirective::new(
        "operator_test".to_string(),
        TargetNode::LexVit,
        DirectiveKind::ANALYZE,
        "{\"data\":\"test\"}".to_string(),
    );
    assert_eq!(directive.target_agent, TargetNode::LexVit);
    assert_eq!(directive.kind, DirectiveKind::ANALYZE);
    assert!(directive.signature.is_none());
}

#[test]
fn test_response_creation() {
    let response = BarkResponse::success(42, TargetNode::LexVit, "{\"result\":\"success\"}".to_string());
    assert_eq!(response.status, ResponseStatus::Success);
    assert_eq!(response.source_node, TargetNode::LexVit);
}

#[test]
fn test_bark_protocol_communication() {
    let directive = BarkDirective::new(
        "test_operator".to_string(),
        TargetNode::LexVit,
        DirectiveKind::ANALYZE,
        "{\"test_query\":\"bioload assessment\",\"timestamp\":\"2024-01-01T00:00:00Z\"}".to_string(),
    );
    assert_eq!(directive.target_agent, TargetNode::LexVit);
    assert_eq!(directive.kind, DirectiveKind::ANALYZE);
    assert_eq!(directive.caller_sigil, "test_operator");

    let directive_bytes = directive.to_bytes();
    let parsed_directive = BarkDirective::from_bytes(&directive_bytes).unwrap();
    assert_eq!(directive.request_id, parsed_directive.request_id);
    assert_eq!(directive.target_agent, parsed_directive.target_agent);

    let response = BarkResponse::success(
        directive.request_id,
        TargetNode::LexVit,
        "{\"bioload_percentage\":72.0,\"status\":\"Acceptable\",\"processing_time_ms\":127}".to_string(),
    );
    assert_eq!(response.request_id, directive.request_id);
    assert_eq!(response.source_node, TargetNode::LexVit);
    assert_eq!(response.status, ResponseStatus::Success);

    for &node in &all_nodes() {
        let test_directive = BarkDirective::new(
            "test_sigil".to_string(),
            node,
            DirectiveKind::ANALYZE,
            "{\"test\":\"data\"}".to_string(),
        );
        assert_eq!(test_directive.target_agent, node);
        assert!(test_directive.request_id != 0);
    }
}

#[test]
fn test_directive_kinds() {
    let directive_kinds = vec![
        DirectiveKind::ANALYZE,
        DirectiveKind::GENERATE,
        DirectiveKind::VERIFY,
        DirectiveKind::EXECUTE_PLAN,
        DirectiveKind::VALIDATE_OUTPUT,
    ];
    for &kind in &directive_kinds {
        let directive = BarkDirective::new(
            "test_operator".to_string(),
            TargetNode::LexMon,
            kind,
            "{\"test\":\"payload\"}".to_string(),
        );
        assert_eq!(directive.kind, kind);
    }
}

#[test]
fn test_chrono_integration() {
    let directive = BarkDirective::new(
        "timestamp_test".to_string(),
        TargetNode::LexMon,
        DirectiveKind::ANALYZE,
        "{}".to_string(),
    );
    let time_diff = chrono::Utc::now().timestamp_millis() - directive.timestamp;
    assert!(time_diff >= 0);
    assert!(time_diff < 1000);
}

#[test]
fn kind_codes_round_trip_and_unknown_kind_is_refused() {
    for code in 0u8..5 {
        let kind = DirectiveKind::from_code(code).unwrap();
        assert_eq!(kind.as_code(), code);
    }
    assert_eq!(DirectiveKind::from_code(5), Err(ProtocolError::UnsupportedDirectiveKind));
    assert_eq!(DirectiveKind::from_code(255), Err(ProtocolError::UnsupportedDirectiveKind));
}

#[test]
fn failure_response_carries_quoted_error() {
    let r = BarkResponse::failure(5, TargetNode::LexWth, "bad \"input\"".to_string());
    assert_eq!(r.status, ResponseStatus::Failure);
    assert_eq!(r.request_id, 5);
    assert_eq!(r.payload, "{\"error\":\"bad \\\"input\\\"\"}");
    assert_eq!(r.signature, "[signed_failure]");
}

fn sample() -> BarkDirective {
    BarkDirective {
        request_id: 0x1234_5678_9abc_def0_1234_5678_9abc_def0,
        caller_sigil: "srp://alexis/sigma".to_string(),
        target_agent: TargetNode::LexWth,
        kind: DirectiveKind::ANALYZE,
        payload: "{\"query\":\"runway\"}".to_string(),
        governance_vector: Some("gv".to_string()),
        timestamp: 1_700_000_000_000,
        signature: None,
    }
}

#[test]
fn signed_directive_verifies_with_its_key() {
    let mut d = sample();
    d.sign(&SECRET);
    let sig = d.signature.clone().unwrap();
    assert_eq!(sig.len(), 128);
    assert!(sig.chars().all(|c| c.is_ascii_hexdigit() && !c.is_ascii_uppercase()));
    assert!(d.verify_signature(&public_key_of(&SECRET)));
    assert!(!d.verify_signature(&public_key_of(&OTHER_SECRET)));
}

#[test]
fn new_signed_verifies() {
    let d = BarkDirective::new_signed(
        "caller".to_string(),
        TargetNode::LexKno,
        DirectiveKind::VERIFY,
        "{}".to_string(),
        &SECRET,
    );
    assert!(d.verify_signature(&public_key_of(&SECRET)));
}

#[test]
fn signing_is_deterministic() {
    let mut a = sample();
    let mut b = sample();
    a.sign(&SECRET);
    b.sign(&SECRET);
    assert_eq!(a.signature, b.signature);
}

#[test]
fn any_changed_field_breaks_the_signature() {
    let mut d = sample();
    d.sign(&SECRET);
    let public = public_key_of(&SECRET);
    let mut changes: Vec<BarkDirective> = Vec::new();
    let mut c = d.clone();
    c.request_id += 1;
    changes.push(c);
    let mut c = d.clone();
    c.caller_sigil.push('x');
    changes.push(c);
    let mut c = d.clone();
    c.target_agent = TargetNode::LexVit;
    changes.push(c);
    let mut c = d.clone();
    c.kind = DirectiveKind::GENERATE;
    changes.push(c);
    let mut c = d.clone();
    c.payload = "{\"query\":\"runway!\"}".to_string();
    changes.push(c);
    let mut c = d.clone();
    c.governance_vector = None;
    changes.push(c);
    let mut c = d.clone();
    c.timestamp += 1;
    changes.push(c);
    for changed in &changes {
        assert!(!changed.verify_signature(&public));
        assert_ne!(changed.canonical_message(), d.canonical_message());
    }
}

#[test]
fn missing_or_malformed_signature_is_rejected() {
    let public = public_key_of(&SECRET);
    let mut d = sample();
    assert!(!d.verify_signature(&public));
    d.signature = Some("zz".to_string());
    assert!(!d.verify_signature(&public));
    d.signature = Some("abc".to_string());
    assert!(!d.verify_signature(&public));
    d.signature = Some("00".repeat(63));
    assert!(!d.verify_signature(&public));
    d.signature = Some("00".repeat(64));
    assert!(!d.verify_signature(&public));
}

#[test]
fn upper_case_hex_signature_is_accepted() {
    let mut d = sample();
    d.sign(&SECRET);
    d.signature = Some(d.signature.clone().unwrap().to_uppercase());
    assert!(d.verify_signature(&public_key_of(&SECRET)));
}

#[test]
fn canonical_message_layout() {
    let d = BarkDirective {
        request_id: 1,
        caller_sigil: "ab".to_string(),
        target_agent: TargetNode::LexMon,
        kind: DirectiveKind::VERIFY,
        payload: "{}".to_string(),
        governance_vector: None,
        timestamp: 0,
        signature: Some("ff".to_string()),
    };
    let mut expected: Vec<u8> = vec![1];
    expected.extend(vec![0u8; 15]);
    expected.extend(vec![2, 0, 0, 0, 0, 0, 0, 0, b'a', b'b']);
    expected.extend(vec![2, 2]);
    expected.extend(vec![1, 2, 0, 0, 0, 0, 0, 0, 0, b'{', b'}']);
    expected.push(0);
    expected.extend(vec![0, 0, 0, 0, 0, 0, 0, 0x80]);
    assert_eq!(d.canonical_message(), expected);
}

#[test]
fn directive_bytes_round_trip() {
    let mut d = sample();
    assert_eq!(BarkDirective::from_bytes(&d.to_bytes()).unwrap().canonical_message(), d.canonical_message());
    d.sign(&SECRET);
    let back = BarkDirective::from_bytes(&d.to_bytes()).unwrap();
    assert_eq!(back.signature, d.signature);
    assert_eq!(back.payload, d.payload);
    assert_eq!(back.governance_vector, d.governance_vector);
    assert_eq!(back.timestamp, d.timestamp);
    assert!(back.verify_signature(&public_key_of(&SECRET)));
}

#[test]
fn malformed_directive_bytes_are_refused() {
    let bytes = sample().to_bytes();
    assert_eq!(BarkDirective::from_bytes(&bytes[..bytes.len() - 1]).err(), Some(ProtocolError::SerializationFault));
    let mut longer = bytes.clone();
    longer.push(0);
    assert_eq!(BarkDirective::from_bytes(&longer).err(), Some(ProtocolError::SerializationFault));
    // the kind byte follows the id (16 bytes), the sigil (8 + 18 bytes) and the target byte
    let mut unknown_kind = bytes.clone();
    unknown_kind[16 + 8 + 18 + 1] = 9;
    assert_eq!(BarkDirective::from_bytes(&unknown_kind).err(), Some(ProtocolError::UnsupportedDirectiveKind));
    let mut unknown_target = bytes.clone();
    unknown_target[16 + 8 + 18] = 13;
    assert_eq!(BarkDirective::from_bytes(&unknown_target).err(), Some(ProtocolError::SerializationFault));
    assert_eq!(BarkDirective::from_bytes(&[]).err(), Some(ProtocolError::SerializationFault));
}

#[test]
fn failure_payload_escapes_control_characters() {
    let r = BarkResponse::failure(1, TargetNode::LexMon, "a\nb\u{1}\\".to_string());
    assert_eq!(r.payload, "{\"error\":\"a\\nb\\u0001\\\\\"}");
}

#[test]
fn payload_key_order_and_spacing_do_not_matter() {
    let mut a = sample();
    a.payload = "{\"a\":1,\"b\":[true,null]}".to_string();
    let mut b = sample();
    b.payload = "{ \"b\": [true, null],  \"a\": 1 }".to_string();
    assert_eq!(a.canonical_message(), b.canonical_message());
    a.sign(&SECRET);
    b.signature = a.signature.clone();
    assert!(b.verify_signature(&public_key_of(&SECRET)));
}

#[test]
fn non_json_payload_is_signed_as_written() {
    let mut a = sample();
    a.payload = "plain text".to_string();
    let mut b = sample();
    b.payload = "\"plain text\"".to_string();
    assert_ne!(a.canonical_message(), b.canonical_message());
    a.sign(&SECRET);
    assert!(a.verify_signature(&public_key_of(&SECRET)));
}
