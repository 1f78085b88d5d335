//! Message types of the directive protocol.

use vstd::prelude::*;
use crate::signing::hex_alphabet;

verus! {

/// The closed set of agent identities.
#[derive(Debug, Clone, Copy, PartialEq, Eq, Structural)]
pub enum TargetNode {
    LexVit,
    LexWth,
    LexMon,
    LexEnt,
    LexKno,
    LexCrt,
    LexOrd,
    LexKin,
    LexGrw,
    LexSan,
    LexLei,
    LexOut,
    LexLeg,
}

impl TargetNode {
    /// Position of the agent in the declaration order.
    pub open spec fn code(self) -> u8 {
        match self {
            TargetNode::LexVit => 0,
            TargetNode::LexWth => 1,
            TargetNode::LexMon => 2,
            TargetNode::LexEnt => 3,
            TargetNode::LexKno => 4,
            TargetNode::LexCrt => 5,
            TargetNode::LexOrd => 6,
            TargetNode::LexKin => 7,
            TargetNode::LexGrw => 8,
            TargetNode::LexSan => 9,
            TargetNode::LexLei => 10,
            TargetNode::LexOut => 11,
            TargetNode::LexLeg => 12,
        }
    }

    pub fn as_code(&self) -> (r: u8)
        ensures
            r == self.code(),
    {
        match self {
            TargetNode::LexVit => 0,
            TargetNode::LexWth => 1,
            TargetNode::LexMon => 2,
            TargetNode::LexEnt => 3,
            TargetNode::LexKno => 4,
            TargetNode::LexCrt => 5,
            TargetNode::LexOrd => 6,
            TargetNode::LexKin => 7,
            TargetNode::LexGrw => 8,
            TargetNode::LexSan => 9,
            TargetNode::LexLei => 10,
            TargetNode::LexOut => 11,
            TargetNode::LexLeg => 12,
        }
    }
}

/// The closed set of directive kinds.
#[allow(non_camel_case_types)]
#[derive(Debug, Clone, Copy, PartialEq, Eq, Structural)]
pub enum DirectiveKind {
    ANALYZE,
    GENERATE,
    VERIFY,
    EXECUTE_PLAN,
    VALIDATE_OUTPUT,
}

impl DirectiveKind {
    pub open spec fn code(self) -> u8 {
        match self {
            DirectiveKind::ANALYZE => 0,
            DirectiveKind::GENERATE => 1,
            DirectiveKind::VERIFY => 2,
            DirectiveKind::EXECUTE_PLAN => 3,
            DirectiveKind::VALIDATE_OUTPUT => 4,
        }
    }

    pub fn as_code(&self) -> (r: u8)
        ensures
            r == self.code(),
    {
        match self {
            DirectiveKind::ANALYZE => 0,
            DirectiveKind::GENERATE => 1,
            DirectiveKind::VERIFY => 2,
            DirectiveKind::EXECUTE_PLAN => 3,
            DirectiveKind::VALIDATE_OUTPUT => 4,
        }
    }

    /// Reads a kind from its code; any other code is an unsupported kind.
    pub fn from_code(c: u8) -> (r: Result<DirectiveKind, ProtocolError>)
        ensures
            c <= 4 <==> r is Ok,
            r matches Ok(k) ==> k.code() == c,
            r matches Err(e) ==> e == ProtocolError::UnsupportedDirectiveKind,
    {
        if c == 0 {
            Ok(DirectiveKind::ANALYZE)
        } else if c == 1 {
            Ok(DirectiveKind::GENERATE)
        } else if c == 2 {
            Ok(DirectiveKind::VERIFY)
        } else if c == 3 {
            Ok(DirectiveKind::EXECUTE_PLAN)
        } else if c == 4 {
            Ok(DirectiveKind::VALIDATE_OUTPUT)
        } else {
            Err(ProtocolError::UnsupportedDirectiveKind)
        }
    }
}

/// Outcome of an agent's work on a directive.
#[derive(Debug, Clone, Copy, PartialEq, Eq, Structural)]
pub enum ResponseStatus {
    Success,
    Failure,
    Pending,
    Rejected,
}

/// Errors of the protocol layer.
#[derive(Debug, Clone, Copy, PartialEq, Eq, Structural)]
pub enum ProtocolError {
    SignatureInvalid,
    UnsupportedDirectiveKind,
    NoTargetsRouted,
    AgentUnreachableOrTimedOut,
    SerializationFault,
}

/// A request for an agent to perform a kind of work.
///
/// `request_id` is the 128-bit value of a UUID, `timestamp` counts
/// milliseconds since the Unix epoch, `payload` is the text of a JSON value and
/// `signature` the lower-case hex form of an Ed25519 signature.
#[derive(Debug, Clone)]
pub struct BarkDirective {
    pub request_id: u128,
    pub caller_sigil: String,
    pub target_agent: TargetNode,
    pub kind: DirectiveKind,
    pub payload: String,
    pub governance_vector: Option<String>,
    pub timestamp: i64,
    pub signature: Option<String>,
}

/// Mathematical model of a directive.
pub struct DirectiveView {
    pub request_id: u128,
    pub caller_sigil: Seq<char>,
    pub target_agent: TargetNode,
    pub kind: DirectiveKind,
    pub payload: Seq<char>,
    pub governance_vector: Option<Seq<char>>,
    pub timestamp: i64,
    pub signature: Option<Seq<char>>,
}

pub open spec fn opt_text(o: Option<String>) -> Option<Seq<char>> {
    match o {
        Some(s) => Some(s@),
        None => None,
    }
}

impl View for BarkDirective {
    type V = DirectiveView;

    open spec fn view(&self) -> DirectiveView {
        DirectiveView {
            request_id: self.request_id,
            caller_sigil: self.caller_sigil@,
            target_agent: self.target_agent,
            kind: self.kind,
            payload: self.payload@,
            governance_vector: opt_text(self.governance_vector),
            timestamp: self.timestamp,
            signature: opt_text(self.signature),
        }
    }
}

/// A fresh random identifier.
///
/// Relies on uuid's `Uuid::new_v4` and `Uuid::as_u128`; `new_v4` always sets
/// the version and variant bits, so the value is never zero.
#[verifier::external_body]
pub(crate) fn fresh_uuid() -> (r: u128)
    ensures
        r != 0,
{
    uuid::Uuid::new_v4().as_u128()
}

/// Relies on chrono's `Utc::now` and `DateTime::timestamp_millis`: the current
/// time in milliseconds since the Unix epoch.
#[verifier::external_body]
pub(crate) fn unix_millis() -> i64 {
    chrono::Utc::now().timestamp_millis()
}

/// How a JSON string literal writes one character: quote and backslash
/// behind a backslash, the five named control characters by their short
/// escapes, other characters below U+0020 as `\u00xx`, anything else as is.
pub open spec fn json_escape_char(c: char) -> Seq<char> {
    let u = c as u32;
    if u == 0x22 {
        seq!['\\', '"']
    } else if u == 0x5c {
        seq!['\\', '\\']
    } else if u == 0x08 {
        seq!['\\', 'b']
    } else if u == 0x09 {
        seq!['\\', 't']
    } else if u == 0x0a {
        seq!['\\', 'n']
    } else if u == 0x0c {
        seq!['\\', 'f']
    } else if u == 0x0d {
        seq!['\\', 'r']
    } else if u < 0x20 {
        seq!['\\', 'u', '0', '0', hex_alphabet()[(u / 16) as int], hex_alphabet()[(u % 16) as int]]
    } else {
        seq![c]
    }
}

pub open spec fn json_escaped(s: Seq<char>) -> Seq<char>
    decreases s.len(),
{
    if s.len() == 0 {
        Seq::empty()
    } else {
        json_escape_char(s[0]) + json_escaped(s.drop_first())
    }
}

/// The JSON string literal, quotes and escapes included, that denotes a text.
pub open spec fn json_quoted(s: Seq<char>) -> Seq<char> {
    seq!['"'] + json_escaped(s) + seq!['"']
}

/// Relies on serde_json's `to_string` on a `str`: the text between quotes,
/// each character escaped as `json_escape_char` says (serialising a `str`
/// does not fail).
#[verifier::external_body]
fn json_string(s: &str) -> (r: String)
    ensures
        r@ == json_quoted(s@),
{
    match serde_json::to_string(s) {
        Ok(t) => t,
        Err(_) => String::new(),
    }
}

impl BarkDirective {
    /// A fresh unsigned directive without governance vector, stamped now.
    pub fn new(caller_sigil: String, target_agent: TargetNode, kind: DirectiveKind, payload: String) -> (r: Self)
        ensures
            r.request_id != 0,
            r.caller_sigil@ == caller_sigil@,
            r.target_agent == target_agent,
            r.kind == kind,
            r.payload@ == payload@,
            r.governance_vector is None,
            r.signature is None,
    {
        BarkDirective {
            request_id: fresh_uuid(),
            caller_sigil,
            target_agent,
            kind,
            payload,
            governance_vector: None,
            timestamp: unix_millis(),
            signature: None,
        }
    }
}

/// An agent's reply to a directive, correlated by `request_id`.
#[derive(Debug, Clone)]
pub struct BarkResponse {
    pub request_id: u128,
    pub source_node: TargetNode,
    pub status: ResponseStatus,
    pub payload: String,
    pub signature: String,
    pub timestamp: i64,
}

impl BarkResponse {
    /// A successful response carrying `payload`.
    pub fn success(request_id: u128, source_node: TargetNode, payload: String) -> (r: Self)
        ensures
            r.request_id == request_id,
            r.source_node == source_node,
            r.status == ResponseStatus::Success,
            r.payload@ == payload@,
            r.signature@ == "[signed_success]"@,
    {
        BarkResponse {
            request_id,
            source_node,
            status: ResponseStatus::Success,
            payload,
            signature: String::from_str("[signed_success]"),
            timestamp: unix_millis(),
        }
    }

    /// A failure response whose payload is the JSON object `{"error": message}`.
    pub fn failure(request_id: u128, source_node: TargetNode, error_message: String) -> (r: Self)
        ensures
            r.request_id == request_id,
            r.source_node == source_node,
            r.status == ResponseStatus::Failure,
            r.payload@ == "{\"error\":"@ + json_quoted(error_message@) + "}"@,
            r.signature@ == "[signed_failure]"@,
    {
        let mut payload = String::from_str("{\"error\":");
        let quoted = json_string(error_message.as_str());
        payload.append(quoted.as_str());
        payload.append("}");
        BarkResponse {
            request_id,
            source_node,
            status: ResponseStatus::Failure,
            payload,
            signature: String::from_str("[signed_failure]"),
            timestamp: unix_millis(),
        }
    }
}

} // verus!
