//! The coordinator's gate: a directive is verified before any routing, and
//! protocol errors become failure responses to the caller.

use vstd::prelude::*;
use crate::protocol::{json_quoted, BarkDirective, BarkResponse, ProtocolError, ResponseStatus, TargetNode};
use crate::router::{route, routed};
use crate::signing::signature_valid;

verus! {

/// How strictly the coordinator checks signatures.
pub struct CouncilConfig {
    /// Skips signature verification; meant for deterministic test setups only.
    pub permissive: bool,
}

impl Default for CouncilConfig {
    fn default() -> (r: CouncilConfig)
        ensures
            !r.permissive,
    {
        CouncilConfig { permissive: false }
    }
}

/// Verifies `d` against the caller's key and, only if that succeeds (or the
/// configuration is permissive), routes it.
pub fn admit_directive(d: &BarkDirective, public: &[u8; 32], config: &CouncilConfig) -> (r: Result<
    Vec<TargetNode>,
    ProtocolError,
>)
    ensures
        (!config.permissive && !signature_valid(d@, public@)) <==> r is Err,
        r matches Err(e) ==> e == ProtocolError::SignatureInvalid,
        r matches Ok(t) ==> t@ == routed(d@),
{
    if !config.permissive && !d.verify_signature(public) {
        return Err(ProtocolError::SignatureInvalid);
    }
    Ok(route(d))
}

/// The text that explains a protocol error to the caller.
pub open spec fn error_text(e: ProtocolError) -> Seq<char> {
    match e {
        ProtocolError::SignatureInvalid => "Council signature verification failed"@,
        ProtocolError::UnsupportedDirectiveKind => "Unsupported directive kind"@,
        ProtocolError::NoTargetsRouted => "No appropriate analysis nodes identified for directive"@,
        ProtocolError::AgentUnreachableOrTimedOut => "No agent responded before the deadline"@,
        ProtocolError::SerializationFault => "Malformed wire payload"@,
    }
}

pub fn error_message(e: ProtocolError) -> (r: String)
    ensures
        r@ == error_text(e),
{
    match e {
        ProtocolError::SignatureInvalid => String::from_str("Council signature verification failed"),
        ProtocolError::UnsupportedDirectiveKind => String::from_str("Unsupported directive kind"),
        ProtocolError::NoTargetsRouted => String::from_str("No appropriate analysis nodes identified for directive"),
        ProtocolError::AgentUnreachableOrTimedOut => String::from_str("No agent responded before the deadline"),
        ProtocolError::SerializationFault => String::from_str("Malformed wire payload"),
    }
}

/// The coordinator's failure response for a protocol error.
pub fn rejection(request_id: u128, e: ProtocolError) -> (r: BarkResponse)
    ensures
        r.request_id == request_id,
        r.source_node == TargetNode::LexMon,
        r.status == ResponseStatus::Failure,
        r.payload@ == "{\"error\":"@ + json_quoted(error_text(e)) + "}"@,
{
    BarkResponse::failure(request_id, TargetNode::LexMon, error_message(e))
}

/// Liveness and capacity of one agent; the load is in thousandths.
pub struct NodeHealth {
    pub node_id: TargetNode,
    pub status: String,
    pub last_heartbeat: i64,
    pub load_permille: u32,
    pub memory_usage_mb: u64,
}

/// The agents that the coordinator tracks: all but itself.
pub open spec fn tracked_agents() -> Seq<TargetNode> {
    seq![
        TargetNode::LexVit,
        TargetNode::LexWth,
        TargetNode::LexEnt,
        TargetNode::LexKno,
        TargetNode::LexCrt,
        TargetNode::LexOrd,
        TargetNode::LexKin,
        TargetNode::LexGrw,
        TargetNode::LexSan,
        TargetNode::LexLei,
        TargetNode::LexOut,
        TargetNode::LexLeg,
    ]
}

/// The registry of agent health, one entry per tracked agent.
pub struct NodeRegistry {
    pub nodes: Vec<NodeHealth>,
}

/// A registry with every tracked agent in status `unknown`, idle, last seen `now`.
pub fn initialize_node_registry(now: i64) -> (r: NodeRegistry)
    ensures
        r.nodes@.len() == 12,
        forall|i: int| 0 <= i < 12 ==> {
            let h = #[trigger] r.nodes@[i];
            &&& h.node_id == tracked_agents()[i]
            &&& h.status@ == "unknown"@
            &&& h.last_heartbeat == now
            &&& h.load_permille == 0
            &&& h.memory_usage_mb == 0
        },
{
    let agents = vec![
        TargetNode::LexVit,
        TargetNode::LexWth,
        TargetNode::LexEnt,
        TargetNode::LexKno,
        TargetNode::LexCrt,
        TargetNode::LexOrd,
        TargetNode::LexKin,
        TargetNode::LexGrw,
        TargetNode::LexSan,
        TargetNode::LexLei,
        TargetNode::LexOut,
        TargetNode::LexLeg,
    ];
    assert(agents@ =~= tracked_agents());
    let mut nodes: Vec<NodeHealth> = Vec::new();
    let mut i: usize = 0;
    while i < agents.len()
        invariant
            agents@ == tracked_agents(),
            i <= 12,
            nodes@.len() == i,
            forall|k: int| 0 <= k < i ==> {
                let h = #[trigger] nodes@[k];
                &&& h.node_id == tracked_agents()[k]
                &&& h.status@ == "unknown"@
                &&& h.last_heartbeat == now
                &&& h.load_permille == 0
                &&& h.memory_usage_mb == 0
            },
        decreases 12 - i,
    {
        nodes.push(
            NodeHealth {
                node_id: agents[i],
                status: String::from_str("unknown"),
                last_heartbeat: now,
                load_permille: 0,
                memory_usage_mb: 0,
            },
        );
        i = i + 1;
    }
    NodeRegistry { nodes }
}

} // verus!
