use lex_lattice::aggregator::{ActiveDirectives, CollectAction, CollectEvent, Collection};
use lex_lattice::council::{admit_directive, initialize_node_registry, rejection, CouncilConfig};
use lex_lattice::protocol::{BarkDirective, BarkResponse, DirectiveKind, ProtocolError, ResponseStatus, TargetNode};
use lex_lattice::router::{determine_analysis_targets, occurs_in, route};
use lex_lattice::signing::public_key_of;
use lex_lattice::synthesis::{
    generate_council_decision, is_above, is_below, parse_decimal, parse_number, read_factor, synthesize_analysis_response, Decimal,
    Factor, RiskLevel, Verdict,
};

fn table() -> Vec<(&'static str, TargetNode)> {
    vec![
        ("runway", TargetNode::LexWth),
        ("financial", TargetNode::LexWth),
        ("wealth", TargetNode::LexWth),
        ("bioload", TargetNode::LexVit),
        ("vital", TargetNode::LexVit),
        ("health", TargetNode::LexVit),
        ("stress", TargetNode::LexVit),
        ("sleep", TargetNode::LexVit),
        ("pivot", TargetNode::LexEnt),
        ("strategy", TargetNode::LexEnt),
        ("enterprise", TargetNode::LexEnt),
        ("knowledge", TargetNode::LexKno),
        ("information", TargetNode::LexKno),
        ("data", TargetNode::LexKno),
        ("create", TargetNode::LexCrt),
        ("generate", TargetNode::LexCrt),
        ("output", TargetNode::LexCrt),
        ("plan", TargetNode::LexOrd),
        ("schedule", TargetNode::LexOrd),
        ("logistics", TargetNode::LexOrd),
        ("social", TargetNode::LexKin),
        ("relationship", TargetNode::LexKin),
        ("kinship", TargetNode::LexKin),
        ("learn", TargetNode::LexGrw),
        ("growth", TargetNode::LexGrw),
        ("capability", TargetNode::LexGrw),
        ("environment", TargetNode::LexSan),
        ("sanctuary", TargetNode::LexSan),
        ("infrastructure", TargetNode::LexSan),
        ("leisure", TargetNode::LexLei),
        ("recovery", TargetNode::LexLei),
        ("restoration", TargetNode::LexLei),
        ("communication", TargetNode::LexOut),
        ("influence", TargetNode::LexOut),
        ("outreach", TargetNode::LexOut),
        ("legacy", TargetNode::LexLeg),
        ("history", TargetNode::LexLeg),
        ("meta", TargetNode::LexLeg),
    ]
}

fn directive(target: TargetNode, kind: DirectiveKind, payload: &str) -> BarkDirective {
    BarkDirective {
        request_id: 99,
        caller_sigil: "srp://alexis/sigma".to_string(),
        target_agent: target,
        kind,
        payload: payload.to_string(),
        governance_vector: None,
        timestamp: 0,
        signature: None,
    }
}

#[test]
fn every_keyword_routes_to_its_agent_alone() {
    for (word, agent) in table() {
        assert_eq!(determine_analysis_targets(word), vec![agent], "{}", word);
        let d = directive(TargetNode::LexMon, DirectiveKind::ANALYZE, &format!("{{\"q\":\"{}\"}}", word.to_uppercase()));
        assert_eq!(route(&d), vec![agent], "{}", word);
    }
}

#[test]
fn no_keyword_routes_to_the_default_agent() {
    assert_eq!(determine_analysis_targets("{\"q\":\"hello\"}"), vec![TargetNode::LexKno]);
    assert_eq!(determine_analysis_targets(""), vec![TargetNode::LexKno]);
}

#[test]
fn several_keywords_fan_out_in_table_order() {
    assert_eq!(
        determine_analysis_targets("sleep and runway, then a plan"),
        vec![TargetNode::LexWth, TargetNode::LexVit, TargetNode::LexOrd]
    );
}

#[test]
fn routing_by_kind_keeps_an_explicit_target() {
    let d = directive(TargetNode::LexVit, DirectiveKind::EXECUTE_PLAN, "{}");
    assert_eq!(route(&d), vec![TargetNode::LexOrd, TargetNode::LexVit]);
    let d = directive(TargetNode::LexMon, DirectiveKind::EXECUTE_PLAN, "{}");
    assert_eq!(route(&d), vec![TargetNode::LexOrd]);
    let d = directive(TargetNode::LexKno, DirectiveKind::VALIDATE_OUTPUT, "{}");
    assert_eq!(route(&d), vec![TargetNode::LexKno, TargetNode::LexCrt]);
    let d = directive(TargetNode::LexSan, DirectiveKind::GENERATE, "{\"runway\":1}");
    assert_eq!(route(&d), vec![TargetNode::LexSan]);
    let d = directive(TargetNode::LexVit, DirectiveKind::ANALYZE, "{\"q\":\"runway\"}");
    assert_eq!(route(&d), vec![TargetNode::LexWth, TargetNode::LexVit]);
}

#[test]
fn substring_search() {
    assert!(occurs_in(b"abcabd", b"abd"));
    assert!(occurs_in(b"abc", b""));
    assert!(!occurs_in(b"ab", b"abc"));
    assert!(!occurs_in(b"aXbc", b"abc"));
}

fn response(id: u128, node: TargetNode, status: ResponseStatus, payload: &str) -> BarkResponse {
    BarkResponse {
        request_id: id,
        source_node: node,
        status,
        payload: payload.to_string(),
        signature: "[signed_success]".to_string(),
        timestamp: 0,
    }
}

#[test]
fn collection_keeps_exactly_the_responders() {
    let targets = vec![TargetNode::LexWth, TargetNode::LexVit, TargetNode::LexKno];
    let mut c = Collection::new(7, targets).unwrap();
    assert_eq!(c.on_event(CollectEvent::Arrived(response(7, TargetNode::LexVit, ResponseStatus::Success, "{}"))), CollectAction::KeepWaiting);
    // another request's reply, a stranger, and a repeat are dropped
    assert!(!c.offer(response(8, TargetNode::LexWth, ResponseStatus::Success, "{}")));
    assert!(!c.offer(response(7, TargetNode::LexLeg, ResponseStatus::Success, "{}")));
    assert!(!c.offer(response(7, TargetNode::LexVit, ResponseStatus::Success, "{}")));
    assert_eq!(c.on_event(CollectEvent::Arrived(response(7, TargetNode::LexWth, ResponseStatus::Failure, "{}"))), CollectAction::KeepWaiting);
    assert_eq!(c.on_event(CollectEvent::DeadlineElapsed), CollectAction::Finish);
    // late arrival after the deadline is ignored
    assert_eq!(c.on_event(CollectEvent::Arrived(response(7, TargetNode::LexKno, ResponseStatus::Success, "{}"))), CollectAction::Finish);
    assert_eq!(c.responses.len(), 2);
    assert_eq!(c.missing_targets(), vec![TargetNode::LexKno]);
    assert!(!c.is_complete());
}

#[test]
fn collection_finishes_when_all_answer() {
    let mut c = Collection::new(1, vec![TargetNode::LexOrd]).unwrap();
    assert_eq!(c.on_event(CollectEvent::Arrived(response(1, TargetNode::LexOrd, ResponseStatus::Success, "{}"))), CollectAction::Finish);
    assert!(c.is_complete());
    assert!(c.missing_targets().is_empty());
}

#[test]
fn empty_target_set_is_refused() {
    assert!(matches!(Collection::new(1, vec![]), Err(ProtocolError::NoTargetsRouted)));
}

#[test]
fn one_collection_per_request() {
    let mut a = ActiveDirectives::new();
    assert!(a.begin(5));
    assert!(!a.begin(5));
    assert!(a.begin(6));
    assert!(a.is_active(5));
    a.finish(5);
    assert!(!a.is_active(5));
    assert!(a.is_active(6));
    assert!(a.begin(5));
}

#[test]
fn decimal_texts() {
    assert_eq!(parse_decimal("2.9"), Some(Decimal { mantissa: 29, scale: 1 }));
    assert_eq!(parse_decimal("-0.50"), Some(Decimal { mantissa: -50, scale: 2 }));
    assert_eq!(parse_decimal("72"), Some(Decimal { mantissa: 72, scale: 0 }));
    assert_eq!(parse_decimal("999999999999999999"), Some(Decimal { mantissa: 999_999_999_999_999_999, scale: 0 }));
    assert_eq!(parse_decimal("1000000000000000000"), None);
    assert_eq!(parse_decimal("1e5"), None);
    assert_eq!(parse_decimal("1.2.3"), None);
    assert_eq!(parse_decimal(".5"), None);
    assert_eq!(parse_decimal("5."), None);
    assert_eq!(parse_decimal("-"), None);
    assert_eq!(parse_decimal(""), None);
}

#[test]
fn decimal_comparisons() {
    let d = Decimal { mantissa: 29, scale: 1 };
    assert!(is_below(d, 300));
    assert!(!is_below(Decimal { mantissa: 3, scale: 0 }, 300));
    assert!(is_above(Decimal { mantissa: 85001, scale: 3 }, 8500));
    assert!(!is_above(Decimal { mantissa: 85, scale: 0 }, 8500));
}

#[test]
fn factors_are_read_from_json_payloads() {
    assert_eq!(read_factor("{\"runway_months\":6.2}", "runway_months"), Some(Decimal { mantissa: 62, scale: 1 }));
    assert_eq!(read_factor("{\"runway_months\":6}", "runway_months"), Some(Decimal { mantissa: 6, scale: 0 }));
    assert_eq!(read_factor("{\"runway_months\":\"6\"}", "runway_months"), None);
    assert_eq!(read_factor("{\"other\":6}", "runway_months"), None);
    assert_eq!(read_factor("not json", "runway_months"), None);
    assert_eq!(read_factor("[1,2]", "runway_months"), None);
}

#[test]
fn runway_thresholds() {
    let hold = generate_council_decision(Some(Decimal { mantissa: 29, scale: 1 }), None);
    assert_eq!((hold.verdict, hold.risk), (Verdict::Hold, RiskLevel::High));
    let go = generate_council_decision(Some(Decimal { mantissa: 65, scale: 1 }), None);
    assert_eq!((go.verdict, go.risk), (Verdict::Go, RiskLevel::Low));
    let at = generate_council_decision(Some(Decimal { mantissa: 300, scale: 2 }), None);
    assert_eq!((at.verdict, at.risk), (Verdict::Caution, RiskLevel::Medium));
    let just_below = generate_council_decision(Some(Decimal { mantissa: 2999, scale: 3 }), None);
    assert_eq!(just_below.verdict, Verdict::Hold);
    assert_eq!(go.findings.len(), 1);
    assert_eq!(go.findings[0].factor, Factor::FinancialRunway);
    assert_eq!(go.findings[0].high_threshold_centi, 300);
    assert_eq!(go.findings[0].medium_threshold_centi, 600);
}

#[test]
fn load_thresholds() {
    let below = generate_council_decision(None, Some(Decimal { mantissa: 8499, scale: 2 }));
    assert_ne!(below.verdict, Verdict::Hold);
    assert_eq!(below.risk, RiskLevel::Medium);
    let above = generate_council_decision(None, Some(Decimal { mantissa: 8501, scale: 2 }));
    assert_eq!((above.verdict, above.risk), (Verdict::Hold, RiskLevel::High));
    let calm = generate_council_decision(None, Some(Decimal { mantissa: 75, scale: 0 }));
    assert_eq!((calm.verdict, calm.risk), (Verdict::Go, RiskLevel::Low));
    let none = generate_council_decision(None, None);
    assert_eq!((none.verdict, none.risk), (Verdict::Go, RiskLevel::Low));
    assert!(none.findings.is_empty());
}

#[test]
fn synthesis_folds_successful_responses() {
    let rs = vec![
        response(3, TargetNode::LexWth, ResponseStatus::Success, "{\"runway_months\":6.2,\"financial_health_score\":78.5}"),
        response(3, TargetNode::LexVit, ResponseStatus::Success, "{\"bioload_percentage\":72.0,\"hrv_morning\":65}"),
        response(3, TargetNode::LexKno, ResponseStatus::Failure, "{\"error\":\"x\"}"),
    ];
    let s = synthesize_analysis_response(3, &rs);
    assert_eq!(s.status, ResponseStatus::Success);
    assert_eq!(s.response_count, 3);
    assert_eq!(s.success_count, 2);
    let d = s.decision.unwrap();
    assert_eq!((d.verdict, d.risk), (Verdict::Go, RiskLevel::Low));
    assert_eq!(d.findings.len(), 2);
    assert_eq!(d.findings[0].value, Decimal { mantissa: 62, scale: 1 });
    assert_eq!(d.findings[1].value, Decimal { mantissa: 720, scale: 1 });
}

#[test]
fn synthesis_of_a_short_runway_holds_in_any_order() {
    let a = response(3, TargetNode::LexWth, ResponseStatus::Success, "{\"runway_months\":2.9}");
    let b = response(3, TargetNode::LexWth, ResponseStatus::Success, "{\"runway_months\":6.5}");
    let s1 = synthesize_analysis_response(3, &vec![a.clone(), b.clone()]);
    let s2 = synthesize_analysis_response(3, &vec![b, a]);
    let d1 = s1.decision.unwrap();
    let d2 = s2.decision.unwrap();
    assert_eq!((d1.verdict, d1.risk), (Verdict::Hold, RiskLevel::High));
    assert_eq!(d1.findings[0].value, d2.findings[0].value);
    assert_eq!(d2.verdict, Verdict::Hold);
}

#[test]
fn synthesis_without_success_is_a_failure() {
    let s = synthesize_analysis_response(4, &vec![response(4, TargetNode::LexWth, ResponseStatus::Failure, "{}")]);
    assert_eq!(s.status, ResponseStatus::Failure);
    assert!(s.decision.is_none());
    let s = synthesize_analysis_response(4, &vec![]);
    assert_eq!(s.status, ResponseStatus::Failure);
    assert_eq!(s.response_count, 0);
}

#[test]
fn admission_requires_a_valid_signature() {
    let secret = [3u8; 32];
    let public = public_key_of(&secret);
    let strict = CouncilConfig::default();
    let permissive = CouncilConfig { permissive: true };
    let mut d = directive(TargetNode::LexMon, DirectiveKind::ANALYZE, "{\"q\":\"runway\"}");
    assert_eq!(admit_directive(&d, &public, &strict), Err(ProtocolError::SignatureInvalid));
    assert_eq!(admit_directive(&d, &public, &permissive), Ok(vec![TargetNode::LexWth]));
    d.sign(&secret);
    assert_eq!(admit_directive(&d, &public, &strict), Ok(vec![TargetNode::LexWth]));
}

#[test]
fn rejection_is_a_failure_from_the_coordinator() {
    let r = rejection(11, ProtocolError::SignatureInvalid);
    assert_eq!(r.request_id, 11);
    assert_eq!(r.source_node, TargetNode::LexMon);
    assert_eq!(r.status, ResponseStatus::Failure);
    assert_eq!(r.payload, "{\"error\":\"Council signature verification failed\"}");
}

#[test]
fn registry_tracks_every_agent_but_the_coordinator() {
    let reg = initialize_node_registry(1234);
    assert_eq!(reg.nodes.len(), 12);
    assert!(reg.nodes.iter().all(|h| h.node_id != TargetNode::LexMon && h.status == "unknown" && h.last_heartbeat == 1234));
}

#[test]
fn analysis_reply_records_verdict_and_findings() {
    let rs = vec![
        response(3, TargetNode::LexWth, ResponseStatus::Success, "{\"runway_months\":-2.9}"),
        response(3, TargetNode::LexVit, ResponseStatus::Success, "{\"bioload_percentage\":72}"),
    ];
    let reply = lex_lattice::reply::analysis_reply(&synthesize_analysis_response(3, &rs));
    assert_eq!(reply.status, ResponseStatus::Success);
    assert_eq!(reply.source_node, TargetNode::LexMon);
    assert_eq!(reply.request_id, 3);
    assert_eq!(
        reply.payload,
        "{\"verdict\":\"HOLD\",\"risk_assessment\":\"HIGH\",\"action_required\":false,\"response_count\":2,\"success_count\":2,\"findings\":[{\"factor\":\"financial_runway\",\"tier\":\"HIGH\",\"mantissa\":-29,\"scale\":1,\"high_threshold_centi\":300,\"medium_threshold_centi\":600},{\"factor\":\"biological_load\",\"tier\":\"LOW\",\"mantissa\":72,\"scale\":0,\"high_threshold_centi\":8500,\"medium_threshold_centi\":7500}]}"
    );
    let v: serde_json::Value = serde_json::from_str(&reply.payload).unwrap();
    assert_eq!(v["findings"].as_array().unwrap().len(), 2);
}

#[test]
fn analysis_reply_without_output_is_a_failure() {
    let reply = lex_lattice::reply::analysis_reply(&synthesize_analysis_response(4, &vec![]));
    assert_eq!(reply.status, ResponseStatus::Failure);
    assert_eq!(reply.payload, "{\"error\":\"No agent produced usable output\"}");
}

#[test]
fn equal_readings_written_differently_give_one_finding_in_any_order() {
    let a = response(3, TargetNode::LexWth, ResponseStatus::Success, "{\"runway_months\":3.0}");
    let b = response(3, TargetNode::LexWth, ResponseStatus::Success, "{\"runway_months\":3}");
    let d1 = synthesize_analysis_response(3, &vec![a.clone(), b.clone()]).decision.unwrap();
    let d2 = synthesize_analysis_response(3, &vec![b, a]).decision.unwrap();
    assert_eq!(d1.findings[0].value, d2.findings[0].value);
    assert_eq!(d1.findings[0].value, Decimal { mantissa: 3, scale: 0 });
}

#[test]
fn exponent_forms_are_read() {
    assert_eq!(parse_number("1e-7"), Some(Decimal { mantissa: 1, scale: 7 }));
    assert_eq!(parse_number("2.5E+1"), Some(Decimal { mantissa: 25, scale: 0 }));
    assert_eq!(parse_number("-3e2"), Some(Decimal { mantissa: -300, scale: 0 }));
    assert_eq!(parse_number("6.2"), Some(Decimal { mantissa: 62, scale: 1 }));
    assert_eq!(parse_number("1e20"), None);
    assert_eq!(parse_number("1e"), None);
    assert_eq!(parse_number("e5"), None);
    assert_eq!(parse_number("1e1000"), None);
    assert_eq!(read_factor("{\"runway_months\":0.0000001}", "runway_months"), Some(Decimal { mantissa: 1, scale: 7 }));
    let s = synthesize_analysis_response(
        5,
        &vec![response(5, TargetNode::LexWth, ResponseStatus::Success, "{\"runway_months\":1e-7}")],
    );
    let d = s.decision.unwrap();
    assert_eq!((d.verdict, d.risk), (Verdict::Hold, RiskLevel::High));
}
