//! The coordinator's reply to an analysis directive, as a response whose
//! payload is JSON text recording the verdict and the findings behind it.

use vstd::prelude::*;
use crate::protocol::{json_quoted, BarkResponse, ResponseStatus, TargetNode};
use crate::signing::hex_alphabet;
use crate::synthesis::{CouncilDecision, Factor, Finding, RiskLevel, Synthesis, Verdict};

verus! {

/// The decimal digits of a number.
pub open spec fn digits_of(n: nat) -> Seq<char>
    decreases n,
{
    if n < 10 {
        seq![hex_alphabet()[n as int]]
    } else {
        digits_of(n / 10) + seq![hex_alphabet()[(n % 10) as int]]
    }
}

/// The decimal text of an integer, with a leading minus when negative.
pub open spec fn int_text(i: int) -> Seq<char> {
    if i < 0 {
        seq!['-'] + digits_of((-i) as nat)
    } else {
        digits_of(i as nat)
    }
}

pub open spec fn verdict_text(v: Verdict) -> Seq<char> {
    match v {
        Verdict::Go => "GO"@,
        Verdict::Caution => "CAUTION"@,
        Verdict::Hold => "HOLD"@,
    }
}

pub open spec fn risk_text(r: RiskLevel) -> Seq<char> {
    match r {
        RiskLevel::Low => "LOW"@,
        RiskLevel::Medium => "MEDIUM"@,
        RiskLevel::High => "HIGH"@,
    }
}

pub open spec fn factor_text(f: Factor) -> Seq<char> {
    match f {
        Factor::FinancialRunway => "financial_runway"@,
        Factor::BiologicalLoad => "biological_load"@,
    }
}

/// One finding as a JSON object.
pub open spec fn finding_text(f: Finding) -> Seq<char> {
    "{\"factor\":\""@ + factor_text(f.factor) + "\",\"tier\":\""@ + risk_text(f.tier) + "\",\"mantissa\":"@ + int_text(
        f.value.mantissa as int,
    ) + ",\"scale\":"@ + int_text(f.value.scale as int) + ",\"high_threshold_centi\":"@ + int_text(
        f.high_threshold_centi as int,
    ) + ",\"medium_threshold_centi\":"@ + int_text(f.medium_threshold_centi as int) + "}"@
}

/// The findings, separated by commas.
pub open spec fn findings_text(fs: Seq<Finding>) -> Seq<char>
    decreases fs.len(),
{
    if fs.len() == 0 {
        Seq::empty()
    } else if fs.len() == 1 {
        finding_text(fs[0])
    } else {
        findings_text(fs.drop_last()) + ","@ + finding_text(fs.last())
    }
}

/// The payload of a decision reply.
pub open spec fn decision_payload(response_count: int, success_count: int, d: CouncilDecision) -> Seq<char> {
    "{\"verdict\":\""@ + verdict_text(d.verdict) + "\",\"risk_assessment\":\""@ + risk_text(d.risk)
        + "\",\"action_required\":"@ + (if d.verdict == Verdict::Go {
        "true"@
    } else {
        "false"@
    }) + ",\"response_count\":"@ + int_text(response_count) + ",\"success_count\":"@ + int_text(success_count)
        + ",\"findings\":["@ + findings_text(d.findings@) + "]}"@
}

/// The explanation sent when no agent produced usable output.
pub open spec fn no_output_text() -> Seq<char> {
    "No agent produced usable output"@
}

fn digit_str(d: u128) -> (r: &'static str)
    requires
        d < 10,
    ensures
        r@ == seq![hex_alphabet()[d as int]],
{
    if d == 0 {
        proof {
            reveal_strlit("0");
        }
        "0"
    } else if d == 1 {
        proof {
            reveal_strlit("1");
        }
        "1"
    } else if d == 2 {
        proof {
            reveal_strlit("2");
        }
        "2"
    } else if d == 3 {
        proof {
            reveal_strlit("3");
        }
        "3"
    } else if d == 4 {
        proof {
            reveal_strlit("4");
        }
        "4"
    } else if d == 5 {
        proof {
            reveal_strlit("5");
        }
        "5"
    } else if d == 6 {
        proof {
            reveal_strlit("6");
        }
        "6"
    } else if d == 7 {
        proof {
            reveal_strlit("7");
        }
        "7"
    } else if d == 8 {
        proof {
            reveal_strlit("8");
        }
        "8"
    } else {
        proof {
            reveal_strlit("9");
        }
        "9"
    }
}

fn append_digits(out: &mut String, n: u128)
    ensures
        final(out)@ == old(out)@ + digits_of(n as nat),
    decreases n,
{
    if n >= 10 {
        append_digits(out, n / 10);
    }
    let ghost mid = out@;
    out.append(digit_str(n % 10));
    if n < 10 {
        assert(out@ =~= old(out)@ + digits_of(n as nat));
    } else {
        assert(out@ =~= old(out)@ + digits_of(n as nat));
    }
}

fn append_int(out: &mut String, i: i128)
    requires
        i > i128::MIN,
    ensures
        final(out)@ == old(out)@ + int_text(i as int),
{
    if i < 0 {
        proof {
            reveal_strlit("-");
        }
        out.append("-");
        append_digits(out, (-i) as u128);
        assert(out@ =~= old(out)@ + int_text(i as int));
    } else {
        append_digits(out, i as u128);
    }
}

fn append_finding(out: &mut String, f: &Finding)
    ensures
        final(out)@ == old(out)@ + finding_text(*f),
{
    out.append("{\"factor\":\"");
    match f.factor {
        Factor::FinancialRunway => out.append("financial_runway"),
        Factor::BiologicalLoad => out.append("biological_load"),
    }
    out.append("\",\"tier\":\"");
    append_risk(out, f.tier);
    out.append("\",\"mantissa\":");
    append_int(out, f.value.mantissa as i128);
    out.append(",\"scale\":");
    append_int(out, f.value.scale as i128);
    out.append(",\"high_threshold_centi\":");
    append_int(out, f.high_threshold_centi as i128);
    out.append(",\"medium_threshold_centi\":");
    append_int(out, f.medium_threshold_centi as i128);
    out.append("}");
    assert(out@ =~= old(out)@ + finding_text(*f));
}

fn append_risk(out: &mut String, r: RiskLevel)
    ensures
        final(out)@ == old(out)@ + risk_text(r),
{
    match r {
        RiskLevel::Low => out.append("LOW"),
        RiskLevel::Medium => out.append("MEDIUM"),
        RiskLevel::High => out.append("HIGH"),
    }
}

fn append_findings(out: &mut String, fs: &Vec<Finding>)
    ensures
        final(out)@ == old(out)@ + findings_text(fs@),
{
    let ghost start = out@;
    let mut i: usize = 0;
    while i < fs.len()
        invariant
            i <= fs@.len(),
            out@ == start + findings_text(fs@.subrange(0, i as int)),
        decreases fs@.len() - i,
    {
        let ghost pre = fs@.subrange(0, i as int);
        let ghost next = fs@.subrange(0, i + 1);
        assert(next.drop_last() =~= pre);
        assert(next.last() == fs@[i as int]);
        if i > 0 {
            out.append(",");
        }
        append_finding(out, &fs[i]);
        if i == 0 {
            assert(pre.len() == 0);
            assert(out@ =~= start + findings_text(next));
        } else {
            assert(out@ =~= start + findings_text(next));
        }
        i = i + 1;
    }
    assert(fs@.subrange(0, fs@.len() as int) =~= fs@);
}

/// The response that answers an analysis directive: a failure when no agent
/// produced usable output, else a success whose payload records the verdict,
/// the overall risk and every finding with its thresholds.
pub fn analysis_reply(s: &Synthesis) -> (r: BarkResponse)
    ensures
        r.request_id == s.request_id,
        r.source_node == TargetNode::LexMon,
        s.decision is None ==> r.status == ResponseStatus::Failure && r.payload@ == "{\"error\":"@ + json_quoted(
            no_output_text(),
        ) + "}"@,
        s.decision matches Some(d) ==> r.status == ResponseStatus::Success && r.payload@ == decision_payload(
            s.response_count as int,
            s.success_count as int,
            d,
        ),
{
    match &s.decision {
        None => BarkResponse::failure(
            s.request_id,
            TargetNode::LexMon,
            String::from_str("No agent produced usable output"),
        ),
        Some(d) => {
            let mut out = String::new();
            out.append("{\"verdict\":\"");
            match d.verdict {
                Verdict::Go => out.append("GO"),
                Verdict::Caution => out.append("CAUTION"),
                Verdict::Hold => out.append("HOLD"),
            }
            out.append("\",\"risk_assessment\":\"");
            append_risk(&mut out, d.risk);
            out.append("\",\"action_required\":");
            match d.verdict {
                Verdict::Go => out.append("true"),
                _ => out.append("false"),
            }
            out.append(",\"response_count\":");
            append_int(&mut out, s.response_count as i128);
            out.append(",\"success_count\":");
            append_int(&mut out, s.success_count as i128);
            out.append(",\"findings\":[");
            append_findings(&mut out, &d.findings);
            out.append("]}");
            assert(out@ =~= decision_payload(s.response_count as int, s.success_count as int, *d));
            BarkResponse::success(s.request_id, TargetNode::LexMon, out)
        },
    }
}

} // verus!
