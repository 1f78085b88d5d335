//! Canonical form of a directive, and its Ed25519 signature.

use vstd::prelude::*;
use vstd::utf8::*;
use crate::codec::{le_bytes, offset_i64, pow256, push_le, lemma_le_prefix};
use crate::protocol::{BarkDirective, DirectiveKind, DirectiveView, TargetNode};

verus! {

// ---------------------------------------------------------------------------
// Hex text

pub open spec fn hex_alphabet() -> Seq<char> {
    seq!['0', '1', '2', '3', '4', '5', '6', '7', '8', '9', 'a', 'b', 'c', 'd', 'e', 'f']
}

/// Two lower-case hex digits per byte, high nibble first.
pub open spec fn hex_lower(b: Seq<u8>) -> Seq<char>
    decreases b.len(),
{
    if b.len() == 0 {
        Seq::empty()
    } else {
        seq![hex_alphabet()[(b[0] / 16) as int], hex_alphabet()[(b[0] % 16) as int]] + hex_lower(b.drop_first())
    }
}

/// Value of one hex digit of either case.
pub open spec fn hex_digit_value(c: char) -> Option<u8> {
    let u = c as u32;
    if 48 <= u && u <= 57 {
        Some((u - 48) as u8)
    } else if 97 <= u && u <= 102 {
        Some((u - 87) as u8)
    } else if 65 <= u && u <= 70 {
        Some((u - 55) as u8)
    } else {
        None
    }
}

/// The bytes that a text of hex digit pairs denotes; `None` for any other text.
pub open spec fn hex_decoded(s: Seq<char>) -> Option<Seq<u8>>
    decreases s.len(),
{
    if s.len() == 0 {
        Some(Seq::empty())
    } else if s.len() == 1 {
        None
    } else {
        match (hex_digit_value(s[0]), hex_digit_value(s[1]), hex_decoded(s.subrange(2, s.len() as int))) {
            (Some(h), Some(l), Some(rest)) => Some(seq![(h * 16 + l) as u8] + rest),
            _ => None,
        }
    }
}

pub proof fn lemma_hex_round_trip(b: Seq<u8>)
    ensures
        hex_decoded(hex_lower(b)) == Some(b),
    decreases b.len(),
{
    if b.len() > 0 {
        let s = hex_lower(b);
        let x = b[0];
        assert(hex_digit_value(hex_alphabet()[(x / 16) as int]) == Some(x / 16));
        assert(hex_digit_value(hex_alphabet()[(x % 16) as int]) == Some(x % 16));
        assert(s.subrange(2, s.len() as int) =~= hex_lower(b.drop_first()));
        lemma_hex_round_trip(b.drop_first());
        assert(seq![((x / 16) * 16 + x % 16) as u8] + b.drop_first() =~= b);
    }
}

/// Relies on hex::encode: two lower-case digits per byte, high nibble first.
#[verifier::external_body]
fn hex_encode(b: &[u8]) -> (r: String)
    ensures
        r@ == hex_lower(b@),
{
    hex::encode(b)
}

/// Relies on hex::decode: `Ok` exactly for an even number of hex digits of
/// either case, two digits per byte.
#[verifier::external_body]
fn hex_decode(s: &str) -> (r: Option<Vec<u8>>)
    ensures
        r matches Some(v) ==> hex_decoded(s@) == Some(v@),
        r is None ==> hex_decoded(s@) is None,
{
    match hex::decode(s) {
        Ok(v) => Some(v),
        Err(_) => None,
    }
}

// ---------------------------------------------------------------------------
// Ed25519

/// The Ed25519 signature of `message` under the secret key `secret`.
pub uninterp spec fn ed25519_signature(secret: Seq<u8>, message: Seq<u8>) -> Seq<u8>;

/// The verifying key that belongs to the secret key `secret`.
pub uninterp spec fn ed25519_public_key(secret: Seq<u8>) -> Seq<u8>;

/// Whether `signature` is a valid Ed25519 signature of `message` under `public`.
pub uninterp spec fn ed25519_accepts(public: Seq<u8>, message: Seq<u8>, signature: Seq<u8>) -> bool;

/// Relies on ed25519_dalek's `SigningKey::from_bytes` and `Signer::sign`:
/// a 64-byte signature, fixed by key and message, that the key's own
/// verifying key accepts.
#[verifier::external_body]
fn ed25519_sign(secret: &[u8; 32], message: &[u8]) -> (r: Vec<u8>)
    ensures
        r@ == ed25519_signature(secret@, message@),
        r@.len() == 64,
        ed25519_accepts(ed25519_public_key(secret@), message@, r@),
{
    let key = ed25519_dalek::SigningKey::from_bytes(secret);
    ed25519_dalek::Signer::sign(&key, message).to_bytes().to_vec()
}

/// Relies on ed25519_dalek's `SigningKey::verifying_key`: the 32 bytes of the
/// verifying key of a secret key.
#[verifier::external_body]
fn ed25519_public(secret: &[u8; 32]) -> (r: [u8; 32])
    ensures
        r@ == ed25519_public_key(secret@),
{
    ed25519_dalek::SigningKey::from_bytes(secret).verifying_key().to_bytes()
}

/// Relies on ed25519_dalek's `VerifyingKey::from_bytes`, `Signature::from_slice`
/// and `Verifier::verify`; a key that is no curve point accepts nothing.
#[verifier::external_body]
fn ed25519_check(public: &[u8; 32], message: &[u8], signature: &[u8]) -> (r: bool)
    requires
        signature@.len() == 64,
    ensures
        r == ed25519_accepts(public@, message@, signature@),
{
    match (ed25519_dalek::VerifyingKey::from_bytes(public), ed25519_dalek::Signature::from_slice(signature)) {
        (Ok(key), Ok(sig)) => ed25519_dalek::Verifier::verify(&key, message, &sig).is_ok(),
        _ => false,
    }
}

/// The verifying key of a secret key, as 32 bytes.
pub fn public_key_of(secret: &[u8; 32]) -> (r: [u8; 32])
    ensures
        r@ == ed25519_public_key(secret@),
{
    ed25519_public(secret)
}

// ---------------------------------------------------------------------------
// Canonical form

/// A text as its UTF-8 byte count (eight bytes) followed by its UTF-8 bytes.
pub open spec fn text_field(s: Seq<char>) -> Seq<u8> {
    le_bytes(encode_utf8(s).len(), 8) + encode_utf8(s)
}

pub open spec fn optional_text_field(o: Option<Seq<char>>) -> Seq<u8> {
    match o {
        None => seq![0u8],
        Some(s) => seq![1u8] + text_field(s),
    }
}

/// The compact JSON text of the value that a text denotes, object keys in
/// sorted order; `None` for a text that is no JSON.
pub uninterp spec fn json_canonical_of(s: Seq<char>) -> Option<Seq<char>>;

/// Relies on serde_json's `from_str::<Value>` and the `Display` of `Value`:
/// objects are held in sorted maps, so the text lists keys in order and
/// depends on the parsed value alone.
#[verifier::external_body]
fn canonical_json(s: &str) -> (r: Option<String>)
    ensures
        r is None <==> json_canonical_of(s@) is None,
        r matches Some(t) ==> json_canonical_of(s@) == Some(t@),
{
    match serde_json::from_str::<serde_json::Value>(s) {
        Ok(v) => Some(v.to_string()),
        Err(_) => None,
    }
}

/// The form in which the payload is signed: its canonical JSON text, or the
/// text itself when it is no JSON, told apart by a flag.
pub open spec fn payload_form(p: Seq<char>) -> (bool, Seq<char>) {
    match json_canonical_of(p) {
        Some(c) => (true, c),
        None => (false, p),
    }
}

pub open spec fn payload_field(p: Seq<char>) -> Seq<u8> {
    seq![if payload_form(p).0 {
        1u8
    } else {
        0u8
    }] + text_field(payload_form(p).1)
}

/// The canonical bytes of a directive: every field but the signature, in
/// declaration order, each texts prefixed with its length.
pub open spec fn canonical_bytes(d: DirectiveView) -> Seq<u8> {
    le_bytes(d.request_id as nat, 16) + (text_field(d.caller_sigil) + (seq![d.target_agent.code(), d.kind.code()] + (
    payload_field(d.payload) + (optional_text_field(d.governance_vector) + le_bytes(offset_i64(d.timestamp), 8)))))
}

/// Whether the texts of a directive are short enough for their length prefix.
pub open spec fn texts_fit(d: DirectiveView) -> bool {
    &&& encode_utf8(d.caller_sigil).len() < pow256(8)
    &&& encode_utf8(payload_form(d.payload).1).len() < pow256(8)
    &&& d.governance_vector matches Some(g) ==> encode_utf8(g).len() < pow256(8)
}

/// Whether two directives agree on every field that the signature covers.
pub open spec fn same_signed_content(a: DirectiveView, b: DirectiveView) -> bool {
    &&& a.request_id == b.request_id
    &&& a.caller_sigil == b.caller_sigil
    &&& a.target_agent == b.target_agent
    &&& a.kind == b.kind
    &&& payload_form(a.payload) == payload_form(b.payload)
    &&& a.governance_vector == b.governance_vector
    &&& a.timestamp == b.timestamp
}

proof fn lemma_text_field_prefix(s1: Seq<char>, r1: Seq<u8>, s2: Seq<char>, r2: Seq<u8>)
    requires
        encode_utf8(s1).len() < pow256(8),
        encode_utf8(s2).len() < pow256(8),
        text_field(s1) + r1 == text_field(s2) + r2,
    ensures
        s1 == s2,
        r1 == r2,
{
    let e1 = encode_utf8(s1);
    let e2 = encode_utf8(s2);
    assert(text_field(s1) + r1 =~= le_bytes(e1.len(), 8) + (e1 + r1));
    assert(text_field(s2) + r2 =~= le_bytes(e2.len(), 8) + (e2 + r2));
    lemma_le_prefix(e1.len(), e1 + r1, e2.len(), e2 + r2, 8);
    assert((e1 + r1).subrange(0, e1.len() as int) =~= e1);
    assert((e2 + r2).subrange(0, e1.len() as int) =~= e2);
    encode_utf8_decode_utf8(s1);
    encode_utf8_decode_utf8(s2);
    assert((e1 + r1).subrange(e1.len() as int, (e1 + r1).len() as int) =~= r1);
    assert((e2 + r2).subrange(e1.len() as int, (e1 + r1).len() as int) =~= r2);
}

proof fn lemma_payload_prefix(p1: Seq<char>, r1: Seq<u8>, p2: Seq<char>, r2: Seq<u8>)
    requires
        encode_utf8(payload_form(p1).1).len() < pow256(8),
        encode_utf8(payload_form(p2).1).len() < pow256(8),
        payload_field(p1) + r1 == payload_field(p2) + r2,
    ensures
        payload_form(p1) == payload_form(p2),
        r1 == r2,
{
    let f1 = payload_form(p1);
    let f2 = payload_form(p2);
    let t1 = seq![if f1.0 { 1u8 } else { 0u8 }];
    let t2 = seq![if f2.0 { 1u8 } else { 0u8 }];
    assert(payload_field(p1) + r1 =~= t1 + (text_field(f1.1) + r1));
    assert(payload_field(p2) + r2 =~= t2 + (text_field(f2.1) + r2));
    lemma_bytes_prefix(t1, text_field(f1.1) + r1, t2, text_field(f2.1) + r2);
    assert(t1[0] == t2[0]);
    lemma_text_field_prefix(f1.1, r1, f2.1, r2);
}

proof fn lemma_bytes_prefix(at1: Seq<u8>, r1: Seq<u8>, at2: Seq<u8>, r2: Seq<u8>)
    requires
        at1.len() == at2.len(),
        at1 + r1 == at2 + r2,
    ensures
        at1 == at2,
        r1 == r2,
{
    assert((at1 + r1).subrange(0, at1.len() as int) =~= at1);
    assert((at2 + r2).subrange(0, at1.len() as int) =~= at2);
    assert((at1 + r1).subrange(at1.len() as int, (at1 + r1).len() as int) =~= r1);
    assert((at2 + r2).subrange(at1.len() as int, (at1 + r1).len() as int) =~= r2);
}

/// The canonical form is injective: two directives whose canonical bytes are
/// equal agree on every field but the signature, so changing any signed
/// field changes the bytes that the signature covers.
pub proof fn lemma_canonical_injective(a: DirectiveView, b: DirectiveView)
    requires
        texts_fit(a),
        texts_fit(b),
        canonical_bytes(a) == canonical_bytes(b),
    ensures
        same_signed_content(a, b),
{
    reveal_with_fuel(pow256, 17);
    assert(pow256(16) == 0x1_0000_0000_0000_0000nat * 0x1_0000_0000_0000_0000nat);
    assert(pow256(8) == 0x1_0000_0000_0000_0000nat);
    let ta = optional_text_field(a.governance_vector) + le_bytes(offset_i64(a.timestamp), 8);
    let tb = optional_text_field(b.governance_vector) + le_bytes(offset_i64(b.timestamp), 8);
    lemma_le_prefix(a.request_id as nat, text_field(a.caller_sigil) + (seq![a.target_agent.code(), a.kind.code()] + (
        payload_field(a.payload) + ta)), b.request_id as nat, text_field(b.caller_sigil) + (seq![b.target_agent.code(), b.kind.code()] + (
        payload_field(b.payload) + tb)), 16);
    lemma_text_field_prefix(a.caller_sigil, seq![a.target_agent.code(), a.kind.code()] + (payload_field(a.payload) + ta),
        b.caller_sigil, seq![b.target_agent.code(), b.kind.code()] + (payload_field(b.payload) + tb));
    lemma_bytes_prefix(seq![a.target_agent.code(), a.kind.code()], payload_field(a.payload) + ta,
        seq![b.target_agent.code(), b.kind.code()], payload_field(b.payload) + tb);
    assert(seq![a.target_agent.code(), a.kind.code()][0] == seq![b.target_agent.code(), b.kind.code()][0]);
    assert(seq![a.target_agent.code(), a.kind.code()][1] == seq![b.target_agent.code(), b.kind.code()][1]);
    lemma_payload_prefix(a.payload, ta, b.payload, tb);
    let la = le_bytes(offset_i64(a.timestamp), 8);
    let lb = le_bytes(offset_i64(b.timestamp), 8);
    match (a.governance_vector, b.governance_vector) {
        (Some(ga), Some(gb)) => {
            assert(ta =~= seq![1u8] + (text_field(ga) + la));
            assert(tb =~= seq![1u8] + (text_field(gb) + lb));
            lemma_bytes_prefix(seq![1u8], text_field(ga) + la, seq![1u8], text_field(gb) + lb);
            lemma_text_field_prefix(ga, la, gb, lb);
        },
        (None, None) => {
            lemma_bytes_prefix(seq![0u8], la, seq![0u8], lb);
        },
        (Some(ga), None) => {
            assert(ta[0] == 1u8);
            assert(tb[0] == 0u8);
        },
        (None, Some(gb)) => {
            assert(ta[0] == 0u8);
            assert(tb[0] == 1u8);
        },
    }
    assert(la + Seq::<u8>::empty() == lb + Seq::<u8>::empty());
    lemma_le_prefix(offset_i64(a.timestamp), Seq::empty(), offset_i64(b.timestamp), Seq::empty(), 8);
}

/// Whether the directive carries a signature, in hex, that `public` accepts
/// over the directive's canonical bytes.
pub open spec fn signature_valid(d: DirectiveView, public: Seq<u8>) -> bool {
    match d.signature {
        None => false,
        Some(s) => match hex_decoded(s) {
            None => false,
            Some(b) => b.len() == 64 && ed25519_accepts(public, canonical_bytes(d), b),
        },
    }
}

pub(crate) fn push_text(out: &mut Vec<u8>, s: &String)
    ensures
        final(out)@ == old(out)@ + text_field(s@),
        encode_utf8(s@).len() < pow256(8),
{
    let b = s.as_str().as_bytes();
    push_le(out, b.len() as u128, 8);
    proof {
        reveal_with_fuel(pow256, 9);
        assert(pow256(8) == 0x1_0000_0000_0000_0000nat);
    }
    let ghost mid = out@;
    let mut i: usize = 0;
    while i < b.len()
        invariant
            i <= b@.len(),
            b@ == encode_utf8(s@),
            out@ == mid + b@.subrange(0, i as int),
        decreases b@.len() - i,
    {
        out.push(b[i]);
        assert(b@.subrange(0, i + 1) =~= b@.subrange(0, i as int).push(b@[i as int]));
        i = i + 1;
    }
    assert(b@.subrange(0, b@.len() as int) =~= b@);
    assert(mid + b@ =~= old(out)@ + text_field(s@));
}

impl BarkDirective {
    /// The canonical bytes that a signature covers.
    #[verifier::rlimit(60)]
    pub fn canonical_message(&self) -> (r: Vec<u8>)
        ensures
            r@ == canonical_bytes(self@),
            texts_fit(self@),
    {
        let mut out: Vec<u8> = Vec::new();
        push_le(&mut out, self.request_id, 16);
        let ghost s1 = out@;
        push_text(&mut out, &self.caller_sigil);
        let ghost s2 = out@;
        out.push(self.target_agent.as_code());
        out.push(self.kind.as_code());
        let ghost before_payload = out@;
        assert(before_payload =~= s2 + seq![self.target_agent.code(), self.kind.code()]);
        match canonical_json(self.payload.as_str()) {
            Some(c) => {
                out.push(1u8);
                push_text(&mut out, &c);
            },
            None => {
                out.push(0u8);
                push_text(&mut out, &self.payload);
            },
        }
        let ghost before_gov = out@;
        assert(before_gov =~= before_payload + payload_field(self@.payload));
        match &self.governance_vector {
            None => {
                out.push(0u8);
            },
            Some(g) => {
                out.push(1u8);
                push_text(&mut out, g);
            },
        }
        let ghost after_gov = out@;
        assert(after_gov =~= before_gov + optional_text_field(self@.governance_vector));
        let shifted: i128 = self.timestamp as i128 + 0x8000_0000_0000_0000i128;
        push_le(&mut out, shifted as u128, 8);
        assert(s2 =~= s1 + text_field(self@.caller_sigil));
        assert(out@ =~= canonical_bytes(self@));
        out
    }

    /// Signs the canonical bytes with `secret` and stores the signature in hex.
    pub fn sign(&mut self, secret: &[u8; 32])
        ensures
            final(self)@ == (DirectiveView {
                signature: Some(hex_lower(ed25519_signature(secret@, canonical_bytes(old(self)@)))),
                ..old(self)@
            }),
            signature_valid(final(self)@, ed25519_public_key(secret@)),
    {
        let message = self.canonical_message();
        let signature = ed25519_sign(secret, message.as_slice());
        let text = hex_encode(signature.as_slice());
        proof {
            lemma_hex_round_trip(signature@);
        }
        self.signature = Some(text);
        assert(canonical_bytes(self@) == canonical_bytes(old(self)@));
    }

    /// A fresh directive (see `new`) signed with `secret`.
    pub fn new_signed(
        caller_sigil: String,
        target_agent: TargetNode,
        kind: DirectiveKind,
        payload: String,
        secret: &[u8; 32],
    ) -> (r: Self)
        ensures
            r.request_id != 0,
            r.caller_sigil@ == caller_sigil@,
            r.target_agent == target_agent,
            r.kind == kind,
            r.payload@ == payload@,
            r.governance_vector is None,
            r@.signature == Some(hex_lower(ed25519_signature(secret@, canonical_bytes(r@)))),
            signature_valid(r@, ed25519_public_key(secret@)),
    {
        let mut d = BarkDirective::new(caller_sigil, target_agent, kind, payload);
        d.sign(secret);
        d
    }

    /// Whether the attached signature is valid for `public`; `false` when it
    /// is absent, not hex, of the wrong length or made with another key.
    pub fn verify_signature(&self, public: &[u8; 32]) -> (r: bool)
        ensures
            r == signature_valid(self@, public@),
    {
        match &self.signature {
            None => false,
            Some(s) => match hex_decode(s.as_str()) {
                None => false,
                Some(b) => {
                    if b.len() != 64 {
                        false
                    } else {
                        let message = self.canonical_message();
                        ed25519_check(public, message.as_slice(), b.as_slice())
                    }
                },
            },
        }
    }
}

} // verus!
