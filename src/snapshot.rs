//! Whole-ledger snapshots: a byte format and its exact inverse.
//!
//! Integers are little-endian (eight bytes, sixteen for ids; signed values
//! shifted by 2^63), texts are their UTF-8 byte count followed by the bytes,
//! and every sequence is its element count followed by the elements.

use vstd::prelude::*;
use vstd::utf8::*;
use crate::codec::{le_bytes, le_value, offset_i64, pow256, push_le, read_le, lemma_le_bytes_len, lemma_le_round_trip, lemma_le_value_bound};
use crate::signing::{push_text, text_field};
use crate::state::{
    ControlMatrix, LedgerModel, NodeModel, NodeState, StateEntry, StateLedger, StateVector, TransitionMatrix, VectorModel,
    StateError, StateManager, CONTROL_BOUND, MAX_DIM, TRANSITION_BOUND, bounded_state, ledger_wf, matrix_wf, node_wf, owners_unique, rows_of,
};

verus! {

// ---------------------------------------------------------------------------
// Spec: encoding

pub open spec fn enc_list<T>(v: Seq<T>, f: spec_fn(T) -> Seq<u8>) -> Seq<u8>
    decreases v.len(),
{
    if v.len() == 0 {
        Seq::empty()
    } else {
        f(v[0]) + enc_list(v.drop_first(), f)
    }
}

pub open spec fn counted<T>(v: Seq<T>, f: spec_fn(T) -> Seq<u8>) -> Seq<u8> {
    le_bytes(v.len(), 8) + enc_list(v, f)
}

pub open spec fn enc_i64(x: i64) -> Seq<u8> {
    le_bytes(offset_i64(x), 8)
}

pub open spec fn i64_enc() -> spec_fn(i64) -> Seq<u8> {
    |x: i64| enc_i64(x)
}

pub open spec fn enc_values(v: Seq<i64>) -> Seq<u8> {
    counted(v, i64_enc())
}

pub open spec fn values_enc() -> spec_fn(Seq<i64>) -> Seq<u8> {
    |r: Seq<i64>| enc_values(r)
}

pub open spec fn enc_rows(m: Seq<Seq<i64>>) -> Seq<u8> {
    counted(m, values_enc())
}

pub open spec fn enc_dim(x: usize) -> Seq<u8> {
    le_bytes(x as nat, 8)
}

pub open spec fn enc_vector(v: VectorModel) -> Seq<u8> {
    le_bytes(v.node_id as nat, 16) + (enc_i64(v.timestamp) + (enc_values(v.state) + (enc_values(v.hidden) + (
    enc_values(v.control) + le_bytes(v.state_id as nat, 16)))))
}

pub open spec fn enc_node(x: NodeModel) -> Seq<u8> {
    text_field(x.node_type) + (enc_vector(x.current) + (enc_rows(x.a) + (enc_dim(x.a_size) + (enc_rows(x.b) + (
    enc_dim(x.b_inputs) + (enc_dim(x.b_states) + (enc_i64(x.last_update) + (enc_i64(x.threshold) + enc_i64(
        x.temperature,
    )))))))))
}

pub open spec fn enc_entry(e: (u128, NodeModel)) -> Seq<u8> {
    le_bytes(e.0 as nat, 16) + enc_node(e.1)
}

pub open spec fn entry_enc() -> spec_fn((u128, NodeModel)) -> Seq<u8> {
    |e: (u128, NodeModel)| enc_entry(e)
}

pub open spec fn vector_enc() -> spec_fn(VectorModel) -> Seq<u8> {
    |v: VectorModel| enc_vector(v)
}

/// The snapshot bytes of a ledger.
pub open spec fn ledger_bytes(l: LedgerModel) -> Seq<u8> {
    counted(l.states, entry_enc()) + (counted(l.history, vector_enc()) + counted(l.immutable, vector_enc()))
}

// ---------------------------------------------------------------------------
// Spec: decoding

/// An `n`-byte little-endian number at the front of `b`, and what follows.
pub open spec fn take_word(b: Seq<u8>, n: nat) -> Option<(nat, Seq<u8>)> {
    if b.len() >= n {
        Some((le_value(b.subrange(0, n as int)), b.subrange(n as int, b.len() as int)))
    } else {
        None
    }
}

pub open spec fn from_offset(x: nat) -> i64 {
    (x - 0x8000_0000_0000_0000int) as i64
}

pub open spec fn prepend<T>(xs: Seq<T>, d: Option<(Seq<T>, Seq<u8>)>) -> Option<(Seq<T>, Seq<u8>)> {
    match d {
        Some((ys, r)) => Some((xs + ys, r)),
        None => None,
    }
}

pub open spec fn dec_list<T>(b: Seq<u8>, n: nat, g: spec_fn(Seq<u8>) -> Option<(T, Seq<u8>)>) -> Option<
    (Seq<T>, Seq<u8>),
>
    decreases n,
{
    if n == 0 {
        Some((Seq::empty(), b))
    } else {
        match g(b) {
            None => None,
            Some((x, r)) => prepend(seq![x], dec_list(r, (n - 1) as nat, g)),
        }
    }
}

pub open spec fn dec_counted<T>(b: Seq<u8>, g: spec_fn(Seq<u8>) -> Option<(T, Seq<u8>)>) -> Option<(Seq<T>, Seq<u8>)> {
    match take_word(b, 8) {
        Some((n, r)) => dec_list(r, n, g),
        None => None,
    }
}

pub open spec fn dec_i64(b: Seq<u8>) -> Option<(i64, Seq<u8>)> {
    match take_word(b, 8) {
        Some((x, r)) => Some((from_offset(x), r)),
        None => None,
    }
}

pub open spec fn i64_dec() -> spec_fn(Seq<u8>) -> Option<(i64, Seq<u8>)> {
    |c: Seq<u8>| dec_i64(c)
}

pub open spec fn dec_values(b: Seq<u8>) -> Option<(Seq<i64>, Seq<u8>)> {
    dec_counted(b, i64_dec())
}

pub open spec fn values_dec() -> spec_fn(Seq<u8>) -> Option<(Seq<i64>, Seq<u8>)> {
    |c: Seq<u8>| dec_values(c)
}

pub open spec fn dec_rows(b: Seq<u8>) -> Option<(Seq<Seq<i64>>, Seq<u8>)> {
    dec_counted(b, values_dec())
}

pub open spec fn dec_dim(b: Seq<u8>) -> Option<(usize, Seq<u8>)> {
    match take_word(b, 8) {
        Some((x, r)) => if x <= MAX_DIM {
            Some((x as usize, r))
        } else {
            None
        },
        None => None,
    }
}

pub open spec fn dec_id(b: Seq<u8>) -> Option<(u128, Seq<u8>)> {
    match take_word(b, 16) {
        Some((x, r)) => Some((x as u128, r)),
        None => None,
    }
}

pub open spec fn dec_text(b: Seq<u8>) -> Option<(Seq<char>, Seq<u8>)> {
    match take_word(b, 8) {
        Some((n, r)) => if r.len() >= n && valid_utf8(r.subrange(0, n as int)) {
            Some((decode_utf8(r.subrange(0, n as int)), r.subrange(n as int, r.len() as int)))
        } else {
            None
        },
        None => None,
    }
}

pub open spec fn dec_vector(b: Seq<u8>) -> Option<(VectorModel, Seq<u8>)> {
    match dec_id(b) {
        None => None,
        Some((node_id, r1)) => match dec_i64(r1) {
            None => None,
            Some((timestamp, r2)) => match dec_values(r2) {
                None => None,
                Some((state, r3)) => match dec_values(r3) {
                    None => None,
                    Some((hidden, r4)) => match dec_values(r4) {
                        None => None,
                        Some((control, r5)) => match dec_id(r5) {
                            None => None,
                            Some((state_id, r6)) => Some(
                                (VectorModel { node_id, timestamp, state, hidden, control, state_id }, r6),
                            ),
                        },
                    },
                },
            },
        },
    }
}

pub open spec fn dec_node(b: Seq<u8>) -> Option<(NodeModel, Seq<u8>)> {
    match dec_text(b) {
        None => None,
        Some((node_type, r1)) => match dec_vector(r1) {
            None => None,
            Some((current, r2)) => match dec_rows(r2) {
                None => None,
                Some((a, r3)) => match dec_dim(r3) {
                    None => None,
                    Some((a_size, r4)) => match dec_rows(r4) {
                        None => None,
                        Some((bm, r5)) => match dec_dim(r5) {
                            None => None,
                            Some((b_inputs, r6)) => match dec_dim(r6) {
                                None => None,
                                Some((b_states, r7)) => match dec_i64(r7) {
                                    None => None,
                                    Some((last_update, r8)) => match dec_i64(r8) {
                                        None => None,
                                        Some((threshold, r9)) => match dec_i64(r9) {
                                            None => None,
                                            Some((temperature, r10)) => Some(
                                                (
                                                    NodeModel {
                                                        node_type,
                                                        current,
                                                        a,
                                                        a_size,
                                                        b: bm,
                                                        b_inputs,
                                                        b_states,
                                                        last_update,
                                                        threshold,
                                                        temperature,
                                                    },
                                                    r10,
                                                ),
                                            ),
                                        },
                                    },
                                },
                            },
                        },
                    },
                },
            },
        },
    }
}

pub open spec fn dec_entry(b: Seq<u8>) -> Option<((u128, NodeModel), Seq<u8>)> {
    match dec_id(b) {
        None => None,
        Some((owner, r1)) => match dec_node(r1) {
            None => None,
            Some((x, r2)) => Some(((owner, x), r2)),
        },
    }
}

pub open spec fn entry_dec() -> spec_fn(Seq<u8>) -> Option<((u128, NodeModel), Seq<u8>)> {
    |c: Seq<u8>| dec_entry(c)
}

pub open spec fn vector_dec() -> spec_fn(Seq<u8>) -> Option<(VectorModel, Seq<u8>)> {
    |c: Seq<u8>| dec_vector(c)
}

/// The ledger that snapshot bytes denote, if they are well formed and
/// nothing follows.
pub open spec fn parse_ledger(b: Seq<u8>) -> Option<LedgerModel> {
    match dec_counted(b, entry_dec()) {
        None => None,
        Some((states, r1)) => match dec_counted(r1, vector_dec()) {
            None => None,
            Some((history, r2)) => match dec_counted(r2, vector_dec()) {
                None => None,
                Some((immutable, r3)) => if r3.len() == 0 {
                    Some(LedgerModel { states, history, immutable })
                } else {
                    None
                },
            },
        },
    }
}

// ---------------------------------------------------------------------------
// Round trip

/// Lengths that fit their eight-byte prefix.
pub open spec fn fits(n: nat) -> bool {
    n < pow256(8)
}

pub open spec fn vector_fits(v: VectorModel) -> bool {
    fits(v.state.len()) && fits(v.hidden.len()) && fits(v.control.len())
}

pub open spec fn rows_fit(m: Seq<Seq<i64>>) -> bool {
    fits(m.len()) && forall|i: int| 0 <= i < m.len() ==> fits(#[trigger] m[i].len())
}

pub open spec fn node_fits(x: NodeModel) -> bool {
    &&& fits(encode_utf8(x.node_type).len())
    &&& vector_fits(x.current)
    &&& rows_fit(x.a)
    &&& rows_fit(x.b)
    &&& x.a_size <= MAX_DIM
    &&& x.b_inputs <= MAX_DIM
    &&& x.b_states <= MAX_DIM
}

/// Every length in the ledger fits its prefix: true of any ledger held in memory.
pub open spec fn ledger_fits(l: LedgerModel) -> bool {
    &&& fits(l.states.len())
    &&& fits(l.history.len())
    &&& fits(l.immutable.len())
    &&& forall|i: int| 0 <= i < l.states.len() ==> node_fits(#[trigger] l.states[i].1)
    &&& forall|i: int| 0 <= i < l.history.len() ==> vector_fits(#[trigger] l.history[i])
    &&& forall|i: int| 0 <= i < l.immutable.len() ==> vector_fits(#[trigger] l.immutable[i])
}

proof fn lemma_take_word(x: nat, n: nat, rest: Seq<u8>)
    requires
        x < pow256(n),
    ensures
        take_word(le_bytes(x, n) + rest, n) == Some((x, rest)),
{
    lemma_le_bytes_len(x, n);
    lemma_le_round_trip(x, n);
    let s = le_bytes(x, n) + rest;
    assert(s.subrange(0, n as int) =~= le_bytes(x, n));
    assert(s.subrange(n as int, s.len() as int) =~= rest);
}

proof fn lemma_pow256_facts()
    ensures
        pow256(8) == 0x1_0000_0000_0000_0000nat,
        pow256(16) == 0x1_0000_0000_0000_0000nat * 0x1_0000_0000_0000_0000nat,
{
    reveal_with_fuel(pow256, 17);
}

pub(crate) proof fn lemma_i64_round_trip(x: i64, rest: Seq<u8>)
    ensures
        dec_i64(enc_i64(x) + rest) == Some((x, rest)),
{
    lemma_pow256_facts();
    lemma_take_word(offset_i64(x), 8, rest);
}

pub(crate) proof fn lemma_id_round_trip(x: u128, rest: Seq<u8>)
    ensures
        dec_id(le_bytes(x as nat, 16) + rest) == Some((x, rest)),
{
    lemma_pow256_facts();
    lemma_take_word(x as nat, 16, rest);
}

proof fn lemma_dim_round_trip(x: usize, rest: Seq<u8>)
    requires
        x <= MAX_DIM,
    ensures
        dec_dim(enc_dim(x) + rest) == Some((x, rest)),
{
    lemma_pow256_facts();
    lemma_take_word(x as nat, 8, rest);
}

proof fn lemma_list_round_trip<T>(
    v: Seq<T>,
    rest: Seq<u8>,
    f: spec_fn(T) -> Seq<u8>,
    g: spec_fn(Seq<u8>) -> Option<(T, Seq<u8>)>,
)
    requires
        forall|i: int, r: Seq<u8>| 0 <= i < v.len() ==> #[trigger] g(#[trigger] f(v[i]) + r) == Some((v[i], r)),
    ensures
        dec_list(enc_list(v, f) + rest, v.len(), g) == Some((v, rest)),
    decreases v.len(),
{
    if v.len() > 0 {
        let t = v.drop_first();
        assert forall|i: int, r: Seq<u8>| 0 <= i < t.len() implies #[trigger] g(#[trigger] f(t[i]) + r) == Some(
            (t[i], r),
        ) by {
            assert(t[i] == v[i + 1]);
        }
        lemma_list_round_trip(t, rest, f, g);
        let tail = enc_list(t, f) + rest;
        assert(enc_list(v, f) + rest =~= f(v[0]) + tail);
        assert(g(f(v[0]) + tail) == Some((v[0], tail)));
        assert(seq![v[0]] + t =~= v);
    } else {
        assert(enc_list(v, f) + rest =~= rest);
        assert(v =~= Seq::<T>::empty());
    }
}

proof fn lemma_counted_round_trip<T>(
    v: Seq<T>,
    rest: Seq<u8>,
    f: spec_fn(T) -> Seq<u8>,
    g: spec_fn(Seq<u8>) -> Option<(T, Seq<u8>)>,
)
    requires
        fits(v.len()),
        forall|i: int, r: Seq<u8>| 0 <= i < v.len() ==> #[trigger] g(#[trigger] f(v[i]) + r) == Some((v[i], r)),
    ensures
        dec_counted(counted(v, f) + rest, g) == Some((v, rest)),
{
    let tail = enc_list(v, f) + rest;
    assert(counted(v, f) + rest =~= le_bytes(v.len(), 8) + tail);
    lemma_take_word(v.len(), 8, tail);
    lemma_list_round_trip(v, rest, f, g);
}

proof fn lemma_values_round_trip(v: Seq<i64>, rest: Seq<u8>)
    requires
        fits(v.len()),
    ensures
        dec_values(enc_values(v) + rest) == Some((v, rest)),
{
    let f = i64_enc();
    let g = i64_dec();
    assert forall|i: int, r: Seq<u8>| 0 <= i < v.len() implies #[trigger] g(#[trigger] f(v[i]) + r) == Some(
        (v[i], r),
    ) by {
        lemma_i64_round_trip(v[i], r);
    }
    lemma_counted_round_trip(v, rest, f, g);
}

proof fn lemma_rows_round_trip(m: Seq<Seq<i64>>, rest: Seq<u8>)
    requires
        rows_fit(m),
    ensures
        dec_rows(enc_rows(m) + rest) == Some((m, rest)),
{
    let f = values_enc();
    let g = values_dec();
    assert forall|i: int, r: Seq<u8>| 0 <= i < m.len() implies #[trigger] g(#[trigger] f(m[i]) + r) == Some(
        (m[i], r),
    ) by {
        lemma_values_round_trip(m[i], r);
    }
    lemma_counted_round_trip(m, rest, f, g);
}

pub(crate) proof fn lemma_text_round_trip(s: Seq<char>, rest: Seq<u8>)
    requires
        fits(encode_utf8(s).len()),
    ensures
        dec_text(text_field(s) + rest) == Some((s, rest)),
{
    let e = encode_utf8(s);
    let tail = e + rest;
    assert(text_field(s) + rest =~= le_bytes(e.len(), 8) + tail);
    lemma_take_word(e.len(), 8, tail);
    assert(tail.subrange(0, e.len() as int) =~= e);
    assert(tail.subrange(e.len() as int, tail.len() as int) =~= rest);
    encode_utf8_valid_utf8(s);
    encode_utf8_decode_utf8(s);
}

proof fn lemma_vector_round_trip(v: VectorModel, rest: Seq<u8>)
    requires
        vector_fits(v),
    ensures
        dec_vector(enc_vector(v) + rest) == Some((v, rest)),
{
    let r6 = rest;
    let r5 = le_bytes(v.state_id as nat, 16) + r6;
    let r4 = enc_values(v.control) + r5;
    let r3 = enc_values(v.hidden) + r4;
    let r2 = enc_values(v.state) + r3;
    let r1 = enc_i64(v.timestamp) + r2;
    assert(enc_vector(v) + rest =~= le_bytes(v.node_id as nat, 16) + r1);
    lemma_id_round_trip(v.node_id, r1);
    lemma_i64_round_trip(v.timestamp, r2);
    lemma_values_round_trip(v.state, r3);
    lemma_values_round_trip(v.hidden, r4);
    lemma_values_round_trip(v.control, r5);
    lemma_id_round_trip(v.state_id, r6);
}

proof fn lemma_node_round_trip(x: NodeModel, rest: Seq<u8>)
    requires
        node_fits(x),
    ensures
        dec_node(enc_node(x) + rest) == Some((x, rest)),
{
    let r10 = rest;
    let r9 = enc_i64(x.temperature) + r10;
    let r8 = enc_i64(x.threshold) + r9;
    let r7 = enc_i64(x.last_update) + r8;
    let r6 = enc_dim(x.b_states) + r7;
    let r5 = enc_dim(x.b_inputs) + r6;
    let r4 = enc_rows(x.b) + r5;
    let r3 = enc_dim(x.a_size) + r4;
    let r2 = enc_rows(x.a) + r3;
    let r1 = enc_vector(x.current) + r2;
    assert(enc_node(x) + rest =~= text_field(x.node_type) + r1);
    lemma_text_round_trip(x.node_type, r1);
    lemma_vector_round_trip(x.current, r2);
    lemma_rows_round_trip(x.a, r3);
    lemma_dim_round_trip(x.a_size, r4);
    lemma_rows_round_trip(x.b, r5);
    lemma_dim_round_trip(x.b_inputs, r6);
    lemma_dim_round_trip(x.b_states, r7);
    lemma_i64_round_trip(x.last_update, r8);
    lemma_i64_round_trip(x.threshold, r9);
    lemma_i64_round_trip(x.temperature, r10);
}

proof fn lemma_entry_round_trip(e: (u128, NodeModel), rest: Seq<u8>)
    requires
        node_fits(e.1),
    ensures
        dec_entry(enc_entry(e) + rest) == Some((e, rest)),
{
    let r1 = enc_node(e.1) + rest;
    assert(enc_entry(e) + rest =~= le_bytes(e.0 as nat, 16) + r1);
    lemma_id_round_trip(e.0, r1);
    lemma_node_round_trip(e.1, rest);
}

/// Snapshot idempotence: restoring the snapshot of a ledger gives back the
/// very same ledger, so every later update yields the same vector and the
/// same ledger on the restored copy as on the ledger that was saved.
pub proof fn lemma_snapshot_restore(l: LedgerModel)
    requires
        ledger_fits(l),
    ensures
        parse_ledger(ledger_bytes(l)) == Some(l),
        forall|k: int, u: Seq<i64>, state_id: u128, now: i64|
            crate::state::apply_update(parse_ledger(ledger_bytes(l))->0, k, u, state_id, now)
                == #[trigger] crate::state::apply_update(l, k, u, state_id, now),
{
    let fe = entry_enc();
    let ge = entry_dec();
    let fv = vector_enc();
    let gv = vector_dec();
    let c3 = counted(l.immutable, fv);
    let c2 = counted(l.history, fv);
    assert(ledger_bytes(l) =~= counted(l.states, fe) + (c2 + c3));
    assert forall|i: int, r: Seq<u8>| 0 <= i < l.states.len() implies #[trigger] ge(#[trigger] fe(l.states[i]) + r)
        == Some((l.states[i], r)) by {
        lemma_entry_round_trip(l.states[i], r);
    }
    lemma_counted_round_trip(l.states, c2 + c3, fe, ge);
    assert forall|i: int, r: Seq<u8>| 0 <= i < l.history.len() implies #[trigger] gv(#[trigger] fv(l.history[i]) + r)
        == Some((l.history[i], r)) by {
        lemma_vector_round_trip(l.history[i], r);
    }
    lemma_counted_round_trip(l.history, c3, fv, gv);
    assert forall|i: int, r: Seq<u8>| 0 <= i < l.immutable.len() implies #[trigger] gv(
        #[trigger] fv(l.immutable[i]) + r,
    ) == Some((l.immutable[i], r)) by {
        lemma_vector_round_trip(l.immutable[i], r);
    }
    assert(c3 =~= c3 + Seq::<u8>::empty());
    lemma_counted_round_trip(l.immutable, Seq::empty(), fv, gv);
}

// ---------------------------------------------------------------------------
// Writing

proof fn lemma_enc_list_push<T>(v: Seq<T>, x: T, f: spec_fn(T) -> Seq<u8>)
    ensures
        enc_list(v.push(x), f) == enc_list(v, f) + f(x),
    decreases v.len(),
{
    if v.len() == 0 {
        assert(v.push(x).drop_first() =~= Seq::<T>::empty());
        assert(v.push(x)[0] == x);
        assert(enc_list(v.push(x).drop_first(), f) == Seq::<u8>::empty());
        assert(enc_list(v.push(x), f) =~= f(x));
        assert(enc_list(v, f) + f(x) =~= f(x));
    } else {
        lemma_enc_list_push(v.drop_first(), x, f);
        assert(v.push(x).drop_first() =~= v.drop_first().push(x));
        assert(enc_list(v.push(x), f) =~= f(v[0]) + (enc_list(v.drop_first(), f) + f(x)));
    }
}

fn write_i64(out: &mut Vec<u8>, x: i64)
    ensures
        final(out)@ == old(out)@ + enc_i64(x),
{
    let shifted: i128 = x as i128 + 0x8000_0000_0000_0000i128;
    push_le(out, shifted as u128, 8);
}

pub open spec fn vector_models(vs: Seq<StateVector>) -> Seq<VectorModel> {
    vs.map_values(|v: StateVector| v@)
}

pub open spec fn entry_models(es: Seq<StateEntry>) -> Seq<(u128, NodeModel)> {
    es.map_values(|e: StateEntry| (e.owner, e.state@))
}

proof fn lemma_usize_fits(n: usize)
    ensures
        fits(n as nat),
{
    lemma_pow256_facts();
}

fn write_values(out: &mut Vec<u8>, v: &Vec<i64>)
    ensures
        final(out)@ == old(out)@ + enc_values(v@),
        fits(v@.len()),
{
    push_le(out, v.len() as u128, 8);
    proof {
        lemma_usize_fits(v.len());
    }
    let ghost head = out@;
    let mut i: usize = 0;
    while i < v.len()
        invariant
            i <= v@.len(),
            out@ == head + enc_list(v@.subrange(0, i as int), i64_enc()),
        decreases v@.len() - i,
    {
        proof {
            assert(v@.subrange(0, i + 1) =~= v@.subrange(0, i as int).push(v@[i as int]));
            lemma_enc_list_push(v@.subrange(0, i as int), v@[i as int], i64_enc());
        }
        write_i64(out, v[i]);
        assert(out@ =~= head + enc_list(v@.subrange(0, i + 1), i64_enc()));
        i = i + 1;
    }
    assert(v@.subrange(0, v@.len() as int) =~= v@);
    assert(out@ =~= old(out)@ + enc_values(v@));
}

fn write_rows(out: &mut Vec<u8>, m: &Vec<Vec<i64>>)
    ensures
        final(out)@ == old(out)@ + enc_rows(rows_of(m@)),
        rows_fit(rows_of(m@)),
{
    push_le(out, m.len() as u128, 8);
    proof {
        lemma_usize_fits(m.len());
    }
    let ghost head = out@;
    let ghost rows = rows_of(m@);
    let mut i: usize = 0;
    while i < m.len()
        invariant
            i <= m@.len(),
            rows == rows_of(m@),
            out@ == head + enc_list(rows.subrange(0, i as int), values_enc()),
            forall|k: int| 0 <= k < i ==> fits(#[trigger] rows[k].len()),
        decreases m@.len() - i,
    {
        proof {
            assert(rows.subrange(0, i + 1) =~= rows.subrange(0, i as int).push(rows[i as int]));
            lemma_enc_list_push(rows.subrange(0, i as int), rows[i as int], values_enc());
        }
        write_values(out, &m[i]);
        assert(out@ =~= head + enc_list(rows.subrange(0, i + 1), values_enc()));
        i = i + 1;
    }
    assert(rows.subrange(0, m@.len() as int) =~= rows);
    assert(out@ =~= old(out)@ + enc_rows(rows));
}

fn write_vector(out: &mut Vec<u8>, v: &StateVector)
    ensures
        final(out)@ == old(out)@ + enc_vector(v@),
        vector_fits(v@),
{
    let ghost start = out@;
    push_le(out, v.node_id, 16);
    write_i64(out, v.timestamp);
    write_values(out, &v.state_data);
    write_values(out, &v.hidden_state);
    write_values(out, &v.control_input);
    push_le(out, v.state_id, 16);
    assert(out@ =~= start + enc_vector(v@));
}

#[verifier::rlimit(40)]
fn write_node(out: &mut Vec<u8>, x: &NodeState)
    requires
        node_wf(x@),
    ensures
        final(out)@ == old(out)@ + enc_node(x@),
        node_fits(x@),
{
    let ghost start = out@;
    push_text(out, &x.node_type);
    write_vector(out, &x.current_state);
    write_rows(out, &x.transition_matrix.matrix);
    push_le(out, x.transition_matrix.size as u128, 8);
    write_rows(out, &x.control_matrix.matrix);
    push_le(out, x.control_matrix.input_size as u128, 8);
    push_le(out, x.control_matrix.state_size as u128, 8);
    write_i64(out, x.last_update);
    write_i64(out, x.convergence_threshold);
    write_i64(out, x.temperature);
    assert(out@ =~= start + enc_node(x@));
}

fn write_vectors(out: &mut Vec<u8>, vs: &Vec<StateVector>)
    ensures
        final(out)@ == old(out)@ + counted(vs@.map_values(|v: StateVector| v@), vector_enc()),
        fits(vs@.len()),
        forall|k: int| 0 <= k < vs@.len() ==> vector_fits(#[trigger] vector_models(vs@)[k]),
{
    push_le(out, vs.len() as u128, 8);
    proof {
        lemma_usize_fits(vs.len());
    }
    let ghost head = out@;
    let ghost models = vs@.map_values(|v: StateVector| v@);
    let mut i: usize = 0;
    while i < vs.len()
        invariant
            i <= vs@.len(),
            models == vs@.map_values(|v: StateVector| v@),
            out@ == head + enc_list(models.subrange(0, i as int), vector_enc()),
            forall|k: int| 0 <= k < i ==> vector_fits(#[trigger] models[k]),
        decreases vs@.len() - i,
    {
        proof {
            assert(models.subrange(0, i + 1) =~= models.subrange(0, i as int).push(models[i as int]));
            lemma_enc_list_push(models.subrange(0, i as int), models[i as int], vector_enc());
        }
        write_vector(out, &vs[i]);
        assert(out@ =~= head + enc_list(models.subrange(0, i + 1), vector_enc()));
        i = i + 1;
    }
    assert(models.subrange(0, vs@.len() as int) =~= models);
    assert(out@ =~= old(out)@ + counted(models, vector_enc()));
}

fn write_entries(out: &mut Vec<u8>, es: &Vec<StateEntry>)
    requires
        forall|k: int| 0 <= k < es@.len() ==> node_wf(#[trigger] es@[k].state@),
    ensures
        final(out)@ == old(out)@ + counted(es@.map_values(|e: StateEntry| (e.owner, e.state@)), entry_enc()),
        fits(es@.len()),
        forall|k: int| 0 <= k < es@.len() ==> node_fits(#[trigger] entry_models(es@)[k].1),
{
    push_le(out, es.len() as u128, 8);
    proof {
        lemma_usize_fits(es.len());
    }
    let ghost head = out@;
    let ghost models = es@.map_values(|e: StateEntry| (e.owner, e.state@));
    let mut i: usize = 0;
    while i < es.len()
        invariant
            i <= es@.len(),
            models == es@.map_values(|e: StateEntry| (e.owner, e.state@)),
            out@ == head + enc_list(models.subrange(0, i as int), entry_enc()),
            forall|k: int| 0 <= k < es@.len() ==> node_wf(#[trigger] es@[k].state@),
            forall|k: int| 0 <= k < i ==> node_fits(#[trigger] models[k].1),
        decreases es@.len() - i,
    {
        proof {
            assert(models.subrange(0, i + 1) =~= models.subrange(0, i as int).push(models[i as int]));
            lemma_enc_list_push(models.subrange(0, i as int), models[i as int], entry_enc());
        }
        let ghost before = out@;
        push_le(out, es[i].owner, 16);
        assert(node_wf(es@[i as int].state@));
        write_node(out, &es[i].state);
        assert(out@ =~= before + enc_entry(models[i as int]));
        assert(out@ =~= head + enc_list(models.subrange(0, i + 1), entry_enc()));
        i = i + 1;
    }
    assert(models.subrange(0, es@.len() as int) =~= models);
    assert(out@ =~= old(out)@ + counted(models, entry_enc()));
}

/// The snapshot bytes of a ledger.
pub fn snapshot_bytes(l: &StateLedger) -> (r: Vec<u8>)
    requires
        ledger_wf(l@),
    ensures
        r@ == ledger_bytes(l@),
        ledger_fits(l@),
{
    let mut out: Vec<u8> = Vec::new();
    assert forall|k: int| 0 <= k < l.states@.len() implies node_wf(#[trigger] l.states@[k].state@) by {
        assert(l@.states[k].1 == l.states@[k].state@);
    }
    write_entries(&mut out, &l.states);
    write_vectors(&mut out, &l.state_history);
    write_vectors(&mut out, &l.immutable_ledger);
    assert(out@ =~= ledger_bytes(l@));
    assert(l@.states == entry_models(l.states@));
    assert(l@.history == vector_models(l.state_history@));
    assert(l@.immutable == vector_models(l.immutable_ledger@));
    out
}

// ---------------------------------------------------------------------------
// Reading

pub open spec fn tail_of(b: Seq<u8>, p: int) -> Seq<u8> {
    b.subrange(p, b.len() as int)
}

proof fn lemma_prepend_push<T>(xs: Seq<T>, x: T, d: Option<(Seq<T>, Seq<u8>)>)
    ensures
        prepend(xs, prepend(seq![x], d)) == prepend(xs.push(x), d),
{
    match d {
        Some((ys, r)) => {
            assert(xs + (seq![x] + ys) =~= xs.push(x) + ys);
        },
        None => {},
    }
}

/// Relies on std's `String::from_utf8`: `Ok` exactly for valid UTF-8, holding
/// the characters that the bytes encode.
#[verifier::external_body]
fn utf8_string(bytes: Vec<u8>) -> (r: Option<String>)
    ensures
        r is Some <==> valid_utf8(bytes@),
        r matches Some(s) ==> s@ == decode_utf8(bytes@),
{
    String::from_utf8(bytes).ok()
}

pub(crate) fn read_word(b: &[u8], pos: usize, n: usize) -> (r: Option<(u128, usize)>)
    requires
        pos <= b@.len(),
        n <= 16,
    ensures
        r is None ==> take_word(tail_of(b@, pos as int), n as nat) is None,
        r matches Some((x, p)) ==> p == pos + n && p <= b@.len() && take_word(tail_of(b@, pos as int), n as nat)
            == Some((x as nat, tail_of(b@, p as int))),
{
    if b.len() - pos < n {
        return None;
    }
    let x = read_le(b, pos, n);
    proof {
        let t = tail_of(b@, pos as int);
        assert(t.subrange(0, n as int) =~= b@.subrange(pos as int, pos + n));
        assert(t.subrange(n as int, t.len() as int) =~= tail_of(b@, pos + n));
    }
    Some((x, pos + n))
}

pub(crate) fn read_i64(b: &[u8], pos: usize) -> (r: Option<(i64, usize)>)
    requires
        pos <= b@.len(),
    ensures
        r is None ==> dec_i64(tail_of(b@, pos as int)) is None,
        r matches Some((x, p)) ==> pos <= p <= b@.len() && dec_i64(tail_of(b@, pos as int)) == Some(
            (x, tail_of(b@, p as int)),
        ),
{
    match read_word(b, pos, 8) {
        None => None,
        Some((w, p)) => {
            proof {
                lemma_le_value_bound(b@.subrange(pos as int, pos + 8));
                lemma_pow256_facts();
                assert(tail_of(b@, pos as int).subrange(0, 8) =~= b@.subrange(pos as int, pos + 8));
            }
            let x: i64 = (w as i128 - 0x8000_0000_0000_0000i128) as i64;
            Some((x, p))
        },
    }
}

fn read_values(b: &[u8], pos: usize) -> (r: Option<(Vec<i64>, usize)>)
    requires
        pos <= b@.len(),
    ensures
        r is None ==> dec_values(tail_of(b@, pos as int)) is None,
        r matches Some((v, p)) ==> pos <= p <= b@.len() && dec_values(tail_of(b@, pos as int)) == Some(
            (v@, tail_of(b@, p as int)),
        ),
{
    let (n, at0) = match read_word(b, pos, 8) {
        None => {
            return None;
        },
        Some(w) => w,
    };
    let mut out: Vec<i64> = Vec::new();
    let mut p = at0;
    let mut i: u128 = 0;
    while i < n
        invariant
            pos <= at0 <= p <= b@.len(),
            i <= n,
            take_word(tail_of(b@, pos as int), 8) == Some((n as nat, tail_of(b@, at0 as int))),
            dec_list(tail_of(b@, at0 as int), n as nat, i64_dec()) == prepend(
                out@,
                dec_list(tail_of(b@, p as int), (n - i) as nat, i64_dec()),
            ),
        decreases n - i,
    {
        match read_i64(b, p) {
            None => {
                return None;
            },
            Some((x, at2)) => {
                proof {
                    lemma_prepend_push(out@, x, dec_list(tail_of(b@, at2 as int), (n - i - 1) as nat, i64_dec()));
                }
                out.push(x);
                p = at2;
            },
        }
        i = i + 1;
    }
    assert(out@ + Seq::<i64>::empty() =~= out@);
    Some((out, p))
}

fn read_rows(b: &[u8], pos: usize) -> (r: Option<(Vec<Vec<i64>>, usize)>)
    requires
        pos <= b@.len(),
    ensures
        r is None ==> dec_rows(tail_of(b@, pos as int)) is None,
        r matches Some((m, p)) ==> pos <= p <= b@.len() && dec_rows(tail_of(b@, pos as int)) == Some(
            (rows_of(m@), tail_of(b@, p as int)),
        ),
{
    let (n, at0) = match read_word(b, pos, 8) {
        None => {
            return None;
        },
        Some(w) => w,
    };
    let mut out: Vec<Vec<i64>> = Vec::new();
    let mut p = at0;
    let mut i: u128 = 0;
    while i < n
        invariant
            pos <= at0 <= p <= b@.len(),
            i <= n,
            take_word(tail_of(b@, pos as int), 8) == Some((n as nat, tail_of(b@, at0 as int))),
            dec_list(tail_of(b@, at0 as int), n as nat, values_dec()) == prepend(
                rows_of(out@),
                dec_list(tail_of(b@, p as int), (n - i) as nat, values_dec()),
            ),
        decreases n - i,
    {
        match read_values(b, p) {
            None => {
                return None;
            },
            Some((row, at2)) => {
                proof {
                    lemma_prepend_push(
                        rows_of(out@),
                        row@,
                        dec_list(tail_of(b@, at2 as int), (n - i - 1) as nat, values_dec()),
                    );
                }
                let ghost before = out@;
                out.push(row);
                assert(rows_of(out@) =~= rows_of(before).push(row@));
                p = at2;
            },
        }
        i = i + 1;
    }
    assert(rows_of(out@) + Seq::<Seq<i64>>::empty() =~= rows_of(out@));
    Some((out, p))
}

fn read_dim(b: &[u8], pos: usize) -> (r: Option<(usize, usize)>)
    requires
        pos <= b@.len(),
    ensures
        r is None ==> dec_dim(tail_of(b@, pos as int)) is None,
        r matches Some((x, p)) ==> pos <= p <= b@.len() && dec_dim(tail_of(b@, pos as int)) == Some(
            (x, tail_of(b@, p as int)),
        ),
{
    match read_word(b, pos, 8) {
        None => None,
        Some((w, p)) => {
            if w > MAX_DIM as u128 {
                None
            } else {
                Some((w as usize, p))
            }
        },
    }
}

pub(crate) fn read_id(b: &[u8], pos: usize) -> (r: Option<(u128, usize)>)
    requires
        pos <= b@.len(),
    ensures
        r is None ==> dec_id(tail_of(b@, pos as int)) is None,
        r matches Some((x, p)) ==> pos <= p <= b@.len() && dec_id(tail_of(b@, pos as int)) == Some(
            (x, tail_of(b@, p as int)),
        ),
{
    read_word(b, pos, 16)
}

pub(crate) fn read_text(b: &[u8], pos: usize) -> (r: Option<(String, usize)>)
    requires
        pos <= b@.len(),
    ensures
        r is None ==> dec_text(tail_of(b@, pos as int)) is None,
        r matches Some((s, p)) ==> pos <= p <= b@.len() && dec_text(tail_of(b@, pos as int)) == Some(
            (s@, tail_of(b@, p as int)),
        ),
{
    let (n, at0) = match read_word(b, pos, 8) {
        None => {
            return None;
        },
        Some(w) => w,
    };
    if ((b.len() - at0) as u128) < n {
        return None;
    }
    let len = n as usize;
    let blen = b.len();
    let mut bytes: Vec<u8> = Vec::new();
    let mut i: usize = 0;
    while i < len
        invariant
            blen == b@.len(),
            at0 + len <= b@.len(),
            i <= len,
            bytes@ == b@.subrange(at0 as int, at0 + i),
        decreases len - i,
    {
        bytes.push(b[at0 + i]);
        assert(b@.subrange(at0 as int, at0 + i + 1) =~= b@.subrange(at0 as int, at0 + i).push(b@[at0 + i]));
        i = i + 1;
    }
    proof {
        let t = tail_of(b@, at0 as int);
        assert(t.subrange(0, len as int) =~= bytes@);
        assert(t.subrange(len as int, t.len() as int) =~= tail_of(b@, at0 + len));
    }
    match utf8_string(bytes) {
        None => None,
        Some(s) => Some((s, at0 + len)),
    }
}

fn read_vector(b: &[u8], pos: usize) -> (r: Option<(StateVector, usize)>)
    requires
        pos <= b@.len(),
    ensures
        r is None ==> dec_vector(tail_of(b@, pos as int)) is None,
        r matches Some((v, p)) ==> pos <= p <= b@.len() && dec_vector(tail_of(b@, pos as int)) == Some(
            (v@, tail_of(b@, p as int)),
        ),
{
    let (node_id, at1) = match read_id(b, pos) {
        None => {
            return None;
        },
        Some(x) => x,
    };
    let (timestamp, at2) = match read_i64(b, at1) {
        None => {
            return None;
        },
        Some(x) => x,
    };
    let (state_data, at3) = match read_values(b, at2) {
        None => {
            return None;
        },
        Some(x) => x,
    };
    let (hidden_state, at4) = match read_values(b, at3) {
        None => {
            return None;
        },
        Some(x) => x,
    };
    let (control_input, at5) = match read_values(b, at4) {
        None => {
            return None;
        },
        Some(x) => x,
    };
    let (state_id, at6) = match read_id(b, at5) {
        None => {
            return None;
        },
        Some(x) => x,
    };
    Some((StateVector { node_id, timestamp, state_data, hidden_state, control_input, state_id }, at6))
}

fn read_node(b: &[u8], pos: usize) -> (r: Option<(NodeState, usize)>)
    requires
        pos <= b@.len(),
    ensures
        r is None ==> dec_node(tail_of(b@, pos as int)) is None,
        r matches Some((x, p)) ==> pos <= p <= b@.len() && dec_node(tail_of(b@, pos as int)) == Some(
            (x@, tail_of(b@, p as int)),
        ),
{
    let (node_type, at1) = match read_text(b, pos) {
        None => {
            return None;
        },
        Some(x) => x,
    };
    let (current_state, at2) = match read_vector(b, at1) {
        None => {
            return None;
        },
        Some(x) => x,
    };
    let (a, at3) = match read_rows(b, at2) {
        None => {
            return None;
        },
        Some(x) => x,
    };
    let (a_size, at4) = match read_dim(b, at3) {
        None => {
            return None;
        },
        Some(x) => x,
    };
    let (bm, at5) = match read_rows(b, at4) {
        None => {
            return None;
        },
        Some(x) => x,
    };
    let (input_size, at6) = match read_dim(b, at5) {
        None => {
            return None;
        },
        Some(x) => x,
    };
    let (state_size, at7) = match read_dim(b, at6) {
        None => {
            return None;
        },
        Some(x) => x,
    };
    let (last_update, at8) = match read_i64(b, at7) {
        None => {
            return None;
        },
        Some(x) => x,
    };
    let (convergence_threshold, at9) = match read_i64(b, at8) {
        None => {
            return None;
        },
        Some(x) => x,
    };
    let (temperature, at10) = match read_i64(b, at9) {
        None => {
            return None;
        },
        Some(x) => x,
    };
    let x = NodeState {
        node_type,
        current_state,
        transition_matrix: TransitionMatrix { matrix: a, size: a_size },
        control_matrix: ControlMatrix { matrix: bm, input_size, state_size },
        last_update,
        convergence_threshold,
        temperature,
    };
    Some((x, at10))
}

fn read_entries(b: &[u8], pos: usize) -> (r: Option<(Vec<StateEntry>, usize)>)
    requires
        pos <= b@.len(),
    ensures
        r is None ==> dec_counted(tail_of(b@, pos as int), entry_dec()) is None,
        r matches Some((es, p)) ==> pos <= p <= b@.len() && dec_counted(tail_of(b@, pos as int), entry_dec()) == Some(
            (es@.map_values(|e: StateEntry| (e.owner, e.state@)), tail_of(b@, p as int)),
        ),
{
    let (n, at0) = match read_word(b, pos, 8) {
        None => {
            return None;
        },
        Some(w) => w,
    };
    let mut out: Vec<StateEntry> = Vec::new();
    let mut p = at0;
    let mut i: u128 = 0;
    while i < n
        invariant
            pos <= at0 <= p <= b@.len(),
            i <= n,
            take_word(tail_of(b@, pos as int), 8) == Some((n as nat, tail_of(b@, at0 as int))),
            dec_list(tail_of(b@, at0 as int), n as nat, entry_dec()) == prepend(
                out@.map_values(|e: StateEntry| (e.owner, e.state@)),
                dec_list(tail_of(b@, p as int), (n - i) as nat, entry_dec()),
            ),
        decreases n - i,
    {
        let (owner, at1) = match read_id(b, p) {
            None => {
                return None;
            },
            Some(x) => x,
        };
        let (state, at2) = match read_node(b, at1) {
            None => {
                return None;
            },
            Some(x) => x,
        };
        proof {
            assert(dec_entry(tail_of(b@, p as int)) == Some(((owner, state@), tail_of(b@, at2 as int))));
            lemma_prepend_push(
                out@.map_values(|e: StateEntry| (e.owner, e.state@)),
                (owner, state@),
                dec_list(tail_of(b@, at2 as int), (n - i - 1) as nat, entry_dec()),
            );
        }
        let ghost before = out@;
        out.push(StateEntry { owner, state });
        assert(out@.map_values(|e: StateEntry| (e.owner, e.state@)) =~= before.map_values(
            |e: StateEntry| (e.owner, e.state@),
        ).push((owner, state@)));
        p = at2;
        i = i + 1;
    }
    assert(out@.map_values(|e: StateEntry| (e.owner, e.state@)) + Seq::<(u128, NodeModel)>::empty()
        =~= out@.map_values(|e: StateEntry| (e.owner, e.state@)));
    Some((out, p))
}

fn read_vectors(b: &[u8], pos: usize) -> (r: Option<(Vec<StateVector>, usize)>)
    requires
        pos <= b@.len(),
    ensures
        r is None ==> dec_counted(tail_of(b@, pos as int), vector_dec()) is None,
        r matches Some((vs, p)) ==> pos <= p <= b@.len() && dec_counted(tail_of(b@, pos as int), vector_dec()) == Some(
            (vs@.map_values(|v: StateVector| v@), tail_of(b@, p as int)),
        ),
{
    let (n, at0) = match read_word(b, pos, 8) {
        None => {
            return None;
        },
        Some(w) => w,
    };
    let mut out: Vec<StateVector> = Vec::new();
    let mut p = at0;
    let mut i: u128 = 0;
    while i < n
        invariant
            pos <= at0 <= p <= b@.len(),
            i <= n,
            take_word(tail_of(b@, pos as int), 8) == Some((n as nat, tail_of(b@, at0 as int))),
            dec_list(tail_of(b@, at0 as int), n as nat, vector_dec()) == prepend(
                out@.map_values(|v: StateVector| v@),
                dec_list(tail_of(b@, p as int), (n - i) as nat, vector_dec()),
            ),
        decreases n - i,
    {
        let (v, at2) = match read_vector(b, p) {
            None => {
                return None;
            },
            Some(x) => x,
        };
        proof {
            lemma_prepend_push(
                out@.map_values(|v: StateVector| v@),
                v@,
                dec_list(tail_of(b@, at2 as int), (n - i - 1) as nat, vector_dec()),
            );
        }
        let ghost before = out@;
        let ghost vm = v@;
        out.push(v);
        assert(out@.map_values(|v: StateVector| v@) =~= before.map_values(|v: StateVector| v@).push(vm));
        p = at2;
        i = i + 1;
    }
    assert(out@.map_values(|v: StateVector| v@) + Seq::<VectorModel>::empty() =~= out@.map_values(
        |v: StateVector| v@,
    ));
    Some((out, p))
}

/// The ledger that snapshot bytes denote; `None` for malformed bytes.
pub fn parse_snapshot(b: &[u8]) -> (r: Option<StateLedger>)
    ensures
        r is None ==> parse_ledger(b@) is None,
        r matches Some(l) ==> parse_ledger(b@) == Some(l@),
{
    assert(tail_of(b@, 0) =~= b@);
    let (states, at1) = match read_entries(b, 0) {
        None => {
            return None;
        },
        Some(x) => x,
    };
    let (state_history, at2) = match read_vectors(b, at1) {
        None => {
            return None;
        },
        Some(x) => x,
    };
    let (immutable_ledger, at3) = match read_vectors(b, at2) {
        None => {
            return None;
        },
        Some(x) => x,
    };
    if at3 != b.len() {
        return None;
    }
    Some(StateLedger { states, state_history, immutable_ledger })
}

// ---------------------------------------------------------------------------
// Validation

fn matrix_ok(m: &Vec<Vec<i64>>, rows: usize, cols: usize, bound: i64) -> (r: bool)
    requires
        bound >= 0,
    ensures
        r == matrix_wf(rows_of(m@), rows as nat, cols as nat, bound as int),
{
    if m.len() != rows {
        return false;
    }
    let ghost rm = rows_of(m@);
    let mut i: usize = 0;
    while i < rows
        invariant
            rm == rows_of(m@),
            m@.len() == rows,
            bound >= 0,
            i <= rows,
            forall|k: int| 0 <= k < i ==> #[trigger] rm[k].len() == cols,
            forall|k: int, j: int| 0 <= k < i && 0 <= j < cols ==> -bound <= #[trigger] rm[k][j] <= bound,
        decreases rows - i,
    {
        let row = &m[i];
        assert(rm[i as int] == row@);
        if row.len() != cols {
            return false;
        }
        let mut j: usize = 0;
        while j < cols
            invariant
                rm == rows_of(m@),
                m@.len() == rows,
                bound >= 0,
                i < rows,
                row@ == rm[i as int],
                row@.len() == cols,
                j <= cols,
                forall|l: int| 0 <= l < j ==> -bound <= #[trigger] row@[l] <= bound,
            decreases cols - j,
        {
            if row[j] < -bound || row[j] > bound {
                assert(!(-bound <= rm[i as int][j as int] <= bound));
                return false;
            }
            j = j + 1;
        }
        i = i + 1;
    }
    true
}

fn state_ok(h: &Vec<i64>) -> (r: bool)
    ensures
        r == bounded_state(h@),
{
    let mut i: usize = 0;
    while i < h.len()
        invariant
            i <= h@.len(),
            forall|k: int| 0 <= k < i ==> -10_000_000 <= #[trigger] h@[k] <= 10_000_000,
        decreases h@.len() - i,
    {
        if h[i] < -10_000_000 || h[i] > 10_000_000 {
            return false;
        }
        i = i + 1;
    }
    true
}

fn node_ok(x: &NodeState) -> (r: bool)
    ensures
        r == node_wf(x@),
{
    let n = x.transition_matrix.size;
    let m = x.control_matrix.input_size;
    n == x.current_state.state_data.len() && x.control_matrix.state_size == n && n <= MAX_DIM && m <= MAX_DIM
        && matrix_ok(&x.transition_matrix.matrix, n, n, TRANSITION_BOUND) && matrix_ok(&x.control_matrix.matrix, n, m, CONTROL_BOUND) && state_ok(
        &x.current_state.state_data,
    ) && x.convergence_threshold >= 1 && x.temperature == 0
}

fn ledger_ok(l: &StateLedger) -> (r: bool)
    ensures
        r == ledger_wf(l@),
{
    let ghost s = l@.states;
    let mut i: usize = 0;
    while i < l.states.len()
        invariant
            s == l@.states,
            i <= s.len(),
            forall|a: int, c: int| 0 <= a < c < s.len() && a < i ==> (#[trigger] s[a]).0 != (#[trigger] s[c]).0,
            forall|k: int| 0 <= k < i ==> node_wf(#[trigger] s[k].1),
        decreases s.len() - i,
    {
        assert(s[i as int].1 == l.states@[i as int].state@);
        if !node_ok(&l.states[i].state) {
            return false;
        }
        let mut j: usize = i + 1;
        while j < l.states.len()
            invariant
                s == l@.states,
                i < j <= s.len(),
                forall|c: int| i < c < j ==> s[i as int].0 != (#[trigger] s[c]).0,
            decreases s.len() - j,
        {
            if l.states[i].owner == l.states[j].owner {
                assert(s[i as int].0 == s[j as int].0);
                return false;
            }
            j = j + 1;
        }
        i = i + 1;
    }
    true
}

impl StateManager {
    /// The snapshot bytes of the whole ledger.
    pub fn create_snapshot(&self) -> (r: Vec<u8>)
        requires
            self.wf(),
        ensures
            r@ == ledger_bytes(self.ledger@),
            parse_ledger(r@) == Some(self.ledger@),
    {
        let r = snapshot_bytes(&self.ledger);
        proof {
            lemma_snapshot_restore(self.ledger@);
        }
        r
    }

    /// Replaces the ledger by the one that `snapshot` holds. Malformed bytes,
    /// or a ledger that breaks the engine's invariant, are a serialization
    /// fault and leave the ledger as it was.
    pub fn load_snapshot(&mut self, snapshot: &[u8]) -> (r: Result<(), StateError>)
        requires
            old(self).wf(),
        ensures
            final(self).wf(),
            r is Ok <==> (parse_ledger(snapshot@) is Some && ledger_wf(parse_ledger(snapshot@)->0)),
            r is Ok ==> parse_ledger(snapshot@) == Some(final(self).ledger@),
            r is Err ==> r == Err::<(), StateError>(StateError::SerializationFault) && final(self).ledger@ == old(
                self,
            ).ledger@,
    {
        match parse_snapshot(snapshot) {
            None => Err(StateError::SerializationFault),
            Some(l) => {
                if !ledger_ok(&l) {
                    return Err(StateError::SerializationFault);
                }
                self.ledger = l;
                Ok(())
            },
        }
    }
}

} // verus!
