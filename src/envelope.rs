//! The byte form in which a directive travels: its canonical bytes followed
//! by its optional signature, with an exact decoder.

use vstd::prelude::*;
use vstd::utf8::*;
use crate::codec::{le_bytes, offset_i64, pow256, push_le};
use crate::protocol::{BarkDirective, DirectiveKind, DirectiveView, ProtocolError, TargetNode};
use crate::signing::{optional_text_field, push_text, text_field};
use crate::snapshot::{
    dec_i64, dec_id, dec_text, fits, lemma_i64_round_trip, lemma_id_round_trip, lemma_text_round_trip, read_i64,
    read_id, read_text, tail_of,
};

verus! {

/// The bytes of a directive: every field in declaration order, texts
/// (the payload as written) prefixed with their length.
pub open spec fn directive_bytes(d: DirectiveView) -> Seq<u8> {
    le_bytes(d.request_id as nat, 16) + (text_field(d.caller_sigil) + (seq![d.target_agent.code()] + (seq![
        d.kind.code(),
    ] + (text_field(d.payload) + (optional_text_field(d.governance_vector) + (le_bytes(offset_i64(d.timestamp), 8)
        + optional_text_field(d.signature)))))))
}

pub open spec fn node_of_code(c: u8) -> Option<TargetNode> {
    if c == 0 {
        Some(TargetNode::LexVit)
    } else if c == 1 {
        Some(TargetNode::LexWth)
    } else if c == 2 {
        Some(TargetNode::LexMon)
    } else if c == 3 {
        Some(TargetNode::LexEnt)
    } else if c == 4 {
        Some(TargetNode::LexKno)
    } else if c == 5 {
        Some(TargetNode::LexCrt)
    } else if c == 6 {
        Some(TargetNode::LexOrd)
    } else if c == 7 {
        Some(TargetNode::LexKin)
    } else if c == 8 {
        Some(TargetNode::LexGrw)
    } else if c == 9 {
        Some(TargetNode::LexSan)
    } else if c == 10 {
        Some(TargetNode::LexLei)
    } else if c == 11 {
        Some(TargetNode::LexOut)
    } else if c == 12 {
        Some(TargetNode::LexLeg)
    } else {
        None
    }
}

pub open spec fn kind_of_code(c: u8) -> Option<DirectiveKind> {
    if c == 0 {
        Some(DirectiveKind::ANALYZE)
    } else if c == 1 {
        Some(DirectiveKind::GENERATE)
    } else if c == 2 {
        Some(DirectiveKind::VERIFY)
    } else if c == 3 {
        Some(DirectiveKind::EXECUTE_PLAN)
    } else if c == 4 {
        Some(DirectiveKind::VALIDATE_OUTPUT)
    } else {
        None
    }
}

pub open spec fn dec_byte(b: Seq<u8>) -> Option<(u8, Seq<u8>)> {
    if b.len() >= 1 {
        Some((b[0], b.subrange(1, b.len() as int)))
    } else {
        None
    }
}

pub open spec fn dec_optional_text(b: Seq<u8>) -> Option<(Option<Seq<char>>, Seq<u8>)> {
    match dec_byte(b) {
        Some((0, r)) => Some((None, r)),
        Some((1, r)) => match dec_text(r) {
            Some((t, r2)) => Some((Some(t), r2)),
            None => None,
        },
        _ => None,
    }
}

/// The directive that bytes denote, if they are well formed and nothing follows.
pub open spec fn parse_directive(b: Seq<u8>) -> Option<DirectiveView> {
    match dec_id(b) {
        None => None,
        Some((request_id, r1)) => match dec_text(r1) {
            None => None,
            Some((caller_sigil, r2)) => match dec_byte(r2) {
                None => None,
                Some((t, r3)) => match dec_byte(r3) {
                    None => None,
                    Some((k, r4)) => match dec_text(r4) {
                        None => None,
                        Some((payload, r5)) => match dec_optional_text(r5) {
                            None => None,
                            Some((governance_vector, r6)) => match dec_i64(r6) {
                                None => None,
                                Some((timestamp, r7)) => match dec_optional_text(r7) {
                                    None => None,
                                    Some((signature, r8)) => match (node_of_code(t), kind_of_code(k)) {
                                        (Some(target_agent), Some(kind)) => if r8.len() == 0 {
                                            Some(
                                                DirectiveView {
                                                    request_id,
                                                    caller_sigil,
                                                    target_agent,
                                                    kind,
                                                    payload,
                                                    governance_vector,
                                                    timestamp,
                                                    signature,
                                                },
                                            )
                                        } else {
                                            None
                                        },
                                        _ => None,
                                    },
                                },
                            },
                        },
                    },
                },
            },
        },
    }
}

/// Whether the bytes begin like a directive for a known agent whose kind
/// code is outside the closed set of kinds.
pub open spec fn kind_code_unknown(b: Seq<u8>) -> bool {
    match dec_id(b) {
        Some((_, r1)) => match dec_text(r1) {
            Some((_, r2)) => match dec_byte(r2) {
                Some((t, r3)) => match dec_byte(r3) {
                    Some((k, _)) => node_of_code(t) is Some && kind_of_code(k) is None,
                    None => false,
                },
                None => false,
            },
            None => false,
        },
        None => false,
    }
}

/// Whether every text of the directive, signature included, fits its prefix.
pub open spec fn directive_fits(d: DirectiveView) -> bool {
    &&& fits(encode_utf8(d.caller_sigil).len())
    &&& fits(encode_utf8(d.payload).len())
    &&& d.governance_vector matches Some(g) ==> fits(encode_utf8(g).len())
    &&& d.signature matches Some(s) ==> fits(encode_utf8(s).len())
}

proof fn lemma_optional_text_round_trip(o: Option<Seq<char>>, rest: Seq<u8>)
    requires
        o matches Some(s) ==> fits(encode_utf8(s).len()),
    ensures
        dec_optional_text(optional_text_field(o) + rest) == Some((o, rest)),
{
    match o {
        None => {
            assert((seq![0u8] + rest).subrange(1, rest.len() + 1int) =~= rest);
        },
        Some(s) => {
            let tail = text_field(s) + rest;
            assert(optional_text_field(o) + rest =~= seq![1u8] + tail);
            assert((seq![1u8] + tail).subrange(1, tail.len() + 1int) =~= tail);
            lemma_text_round_trip(s, rest);
        },
    }
}

/// Decoding the byte form of a directive gives back the directive.
#[verifier::rlimit(40)]
pub proof fn lemma_directive_round_trip(d: DirectiveView)
    requires
        directive_fits(d),
    ensures
        parse_directive(directive_bytes(d)) == Some(d),
{
    let r8 = Seq::<u8>::empty();
    let r7 = optional_text_field(d.signature);
    let r6 = le_bytes(offset_i64(d.timestamp), 8) + r7;
    let r5 = optional_text_field(d.governance_vector) + r6;
    let r4 = text_field(d.payload) + r5;
    let r3 = seq![d.kind.code()] + r4;
    let r2 = seq![d.target_agent.code()] + r3;
    let r1 = text_field(d.caller_sigil) + r2;
    assert(directive_bytes(d) =~= le_bytes(d.request_id as nat, 16) + r1);
    assert(r7 =~= r7 + r8);
    lemma_id_round_trip(d.request_id, r1);
    lemma_text_round_trip(d.caller_sigil, r2);
    assert(r2.subrange(1, r2.len() as int) =~= r3);
    assert(r3.subrange(1, r3.len() as int) =~= r4);
    lemma_text_round_trip(d.payload, r5);
    lemma_optional_text_round_trip(d.governance_vector, r6);
    lemma_i64_round_trip(d.timestamp, r7);
    lemma_optional_text_round_trip(d.signature, r8);
    lemma_codes(d.target_agent, d.kind);
    assert(dec_byte(r2) == Some((d.target_agent.code(), r3)));
    assert(dec_byte(r3) == Some((d.kind.code(), r4)));
}

proof fn lemma_codes(t: TargetNode, k: DirectiveKind)
    ensures
        node_of_code(t.code()) == Some(t),
        kind_of_code(k.code()) == Some(k),
{
}

fn read_byte(b: &[u8], pos: usize) -> (r: Option<(u8, usize)>)
    requires
        pos <= b@.len(),
    ensures
        r is None ==> dec_byte(tail_of(b@, pos as int)) is None,
        r matches Some((x, p)) ==> pos <= p <= b@.len() && dec_byte(tail_of(b@, pos as int)) == Some(
            (x, tail_of(b@, p as int)),
        ),
{
    if pos == b.len() {
        return None;
    }
    assert(tail_of(b@, pos as int).subrange(1, tail_of(b@, pos as int).len() as int) =~= tail_of(b@, pos + 1));
    Some((b[pos], pos + 1))
}

fn read_optional_text(b: &[u8], pos: usize) -> (r: Option<(Option<String>, usize)>)
    requires
        pos <= b@.len(),
    ensures
        r is None ==> dec_optional_text(tail_of(b@, pos as int)) is None,
        r matches Some((o, p)) ==> pos <= p <= b@.len() && dec_optional_text(tail_of(b@, pos as int)) == Some(
            (crate::protocol::opt_text(o), tail_of(b@, p as int)),
        ),
{
    match read_byte(b, pos) {
        None => None,
        Some((tag, p1)) => {
            if tag == 0 {
                Some((None, p1))
            } else if tag == 1 {
                match read_text(b, p1) {
                    None => None,
                    Some((t, p2)) => Some((Some(t), p2)),
                }
            } else {
                None
            }
        },
    }
}

fn push_optional_text(out: &mut Vec<u8>, o: &Option<String>)
    ensures
        final(out)@ == old(out)@ + optional_text_field(crate::protocol::opt_text(*o)),
        o matches Some(s) ==> fits(encode_utf8(s@).len()),
{
    match o {
        None => {
            out.push(0u8);
            assert(out@ =~= old(out)@ + seq![0u8]);
        },
        Some(s) => {
            out.push(1u8);
            let ghost mid = out@;
            push_text(out, s);
            assert(out@ =~= old(out)@ + (seq![1u8] + text_field(s@)));
        },
    }
}

fn node_from_code(c: u8) -> (r: Option<TargetNode>)
    ensures
        r == node_of_code(c),
{
    if c == 0 {
        Some(TargetNode::LexVit)
    } else if c == 1 {
        Some(TargetNode::LexWth)
    } else if c == 2 {
        Some(TargetNode::LexMon)
    } else if c == 3 {
        Some(TargetNode::LexEnt)
    } else if c == 4 {
        Some(TargetNode::LexKno)
    } else if c == 5 {
        Some(TargetNode::LexCrt)
    } else if c == 6 {
        Some(TargetNode::LexOrd)
    } else if c == 7 {
        Some(TargetNode::LexKin)
    } else if c == 8 {
        Some(TargetNode::LexGrw)
    } else if c == 9 {
        Some(TargetNode::LexSan)
    } else if c == 10 {
        Some(TargetNode::LexLei)
    } else if c == 11 {
        Some(TargetNode::LexOut)
    } else if c == 12 {
        Some(TargetNode::LexLeg)
    } else {
        None
    }
}

impl BarkDirective {
    /// The byte form of the directive; decoding it gives the directive back.
    pub fn to_bytes(&self) -> (r: Vec<u8>)
        ensures
            r@ == directive_bytes(self@),
            parse_directive(r@) == Some(self@),
    {
        let r = self.field_bytes();
        proof {
            lemma_directive_round_trip(self@);
        }
        r
    }

    #[verifier::rlimit(60)]
    fn field_bytes(&self) -> (r: Vec<u8>)
        ensures
            r@ == directive_bytes(self@),
            directive_fits(self@),
    {
        let mut out: Vec<u8> = Vec::new();
        push_le(&mut out, self.request_id, 16);
        let ghost s1 = out@;
        push_text(&mut out, &self.caller_sigil);
        let ghost s2 = out@;
        out.push(self.target_agent.as_code());
        out.push(self.kind.as_code());
        let ghost s3 = out@;
        push_text(&mut out, &self.payload);
        let ghost s4 = out@;
        push_optional_text(&mut out, &self.governance_vector);
        let ghost s5 = out@;
        let shifted: i128 = self.timestamp as i128 + 0x8000_0000_0000_0000i128;
        push_le(&mut out, shifted as u128, 8);
        let ghost s6 = out@;
        push_optional_text(&mut out, &self.signature);
        proof {
            let d = self@;
            let tail = le_bytes(offset_i64(d.timestamp), 8) + optional_text_field(d.signature);
            assert(out@ =~= s6 + optional_text_field(d.signature));
            assert(s6 =~= s5 + le_bytes(offset_i64(d.timestamp), 8));
            assert(s5 =~= s4 + optional_text_field(d.governance_vector));
            assert(s4 =~= s3 + text_field(d.payload));
            assert(s3 =~= s2 + seq![d.target_agent.code()] + seq![d.kind.code()]);
            assert(s2 =~= s1 + text_field(d.caller_sigil));
            assert(s1 =~= le_bytes(d.request_id as nat, 16));
            assert(out@ =~= directive_bytes(d));
        }
        out
    }

    /// Reads a directive from its byte form. A kind code outside the closed
    /// set is an unsupported kind; malformed bytes or an unknown agent are a
    /// serialization fault.
    pub fn from_bytes(b: &[u8]) -> (r: Result<BarkDirective, ProtocolError>)
        ensures
            r is Ok <==> parse_directive(b@) is Some,
            r matches Ok(d) ==> parse_directive(b@) == Some(d@),
            r matches Err(e) ==> (e == ProtocolError::UnsupportedDirectiveKind <==> kind_code_unknown(b@)),
            r matches Err(e) ==> e == ProtocolError::UnsupportedDirectiveKind || e == ProtocolError::SerializationFault,
    {
        assert(tail_of(b@, 0) =~= b@);
        let (request_id, p1) = match read_id(b, 0) {
            None => {
                return Err(ProtocolError::SerializationFault);
            },
            Some(x) => x,
        };
        let (caller_sigil, p2) = match read_text(b, p1) {
            None => {
                return Err(ProtocolError::SerializationFault);
            },
            Some(x) => x,
        };
        let (t, p3) = match read_byte(b, p2) {
            None => {
                return Err(ProtocolError::SerializationFault);
            },
            Some(x) => x,
        };
        let (k, p4) = match read_byte(b, p3) {
            None => {
                return Err(ProtocolError::SerializationFault);
            },
            Some(x) => x,
        };
        let target_agent = match node_from_code(t) {
            None => {
                return Err(ProtocolError::SerializationFault);
            },
            Some(a) => a,
        };
        let kind = match DirectiveKind::from_code(k) {
            Err(_) => {
                return Err(ProtocolError::UnsupportedDirectiveKind);
            },
            Ok(x) => x,
        };
        let (payload, p5) = match read_text(b, p4) {
            None => {
                return Err(ProtocolError::SerializationFault);
            },
            Some(x) => x,
        };
        let (governance_vector, p6) = match read_optional_text(b, p5) {
            None => {
                return Err(ProtocolError::SerializationFault);
            },
            Some(x) => x,
        };
        let (timestamp, p7) = match read_i64(b, p6) {
            None => {
                return Err(ProtocolError::SerializationFault);
            },
            Some(x) => x,
        };
        let (signature, p8) = match read_optional_text(b, p7) {
            None => {
                return Err(ProtocolError::SerializationFault);
            },
            Some(x) => x,
        };
        if p8 != b.len() {
            return Err(ProtocolError::SerializationFault);
        }
        Ok(
            BarkDirective {
                request_id,
                caller_sigil,
                target_agent,
                kind,
                payload,
                governance_vector,
                timestamp,
                signature,
            },
        )
    }
}

} // verus!
