//! Little-endian integer encodings shared by the canonical directive form
//! and ledger snapshots.

use vstd::prelude::*;

verus! {

pub open spec fn pow256(n: nat) -> nat
    decreases n,
{
    if n == 0 {
        1
    } else {
        256 * pow256((n - 1) as nat)
    }
}

/// The `n` low bytes of `x`, least significant first.
pub open spec fn le_bytes(x: nat, n: nat) -> Seq<u8>
    decreases n,
{
    if n == 0 {
        Seq::empty()
    } else {
        seq![(x % 256) as u8] + le_bytes(x / 256, (n - 1) as nat)
    }
}

/// The number that a little-endian byte sequence denotes.
pub open spec fn le_value(b: Seq<u8>) -> nat
    decreases b.len(),
{
    if b.len() == 0 {
        0
    } else {
        b[0] as nat + 256 * le_value(b.drop_first())
    }
}

/// A signed 64-bit value shifted into the unsigned range, order kept.
pub open spec fn offset_i64(x: i64) -> nat {
    (x + 0x8000_0000_0000_0000int) as nat
}

pub proof fn lemma_pow256_pos(n: nat)
    ensures
        pow256(n) >= 1,
    decreases n,
{
    if n > 0 {
        lemma_pow256_pos((n - 1) as nat);
    }
}

pub proof fn lemma_le_bytes_len(x: nat, n: nat)
    ensures
        le_bytes(x, n).len() == n,
    decreases n,
{
    if n > 0 {
        lemma_le_bytes_len(x / 256, (n - 1) as nat);
    }
}

pub proof fn lemma_le_value_bound(b: Seq<u8>)
    ensures
        le_value(b) < pow256(b.len()),
    decreases b.len(),
{
    if b.len() > 0 {
        lemma_le_value_bound(b.drop_first());
        let r = le_value(b.drop_first());
        let p = pow256((b.len() - 1) as nat);
        assert(b[0] as nat + 256 * r < 256 * p) by (nonlinear_arith)
            requires
                r < p,
                b[0] < 256,
        ;
    }
}

/// Decoding undoes encoding for every value that fits in `n` bytes.
pub proof fn lemma_le_round_trip(x: nat, n: nat)
    requires
        x < pow256(n),
    ensures
        le_value(le_bytes(x, n)) == x,
    decreases n,
{
    if n > 0 {
        let q = x / 256;
        let p = pow256((n - 1) as nat);
        assert(q < p) by (nonlinear_arith)
            requires
                x < 256 * p,
                q == x / 256,
        ;
        lemma_le_round_trip(q, (n - 1) as nat);
        assert(le_bytes(x, n).drop_first() =~= le_bytes(q, (n - 1) as nat));
    } else {
        assert(x == 0);
    }
}

/// Two values that fit in `n` bytes have equal encodings only if equal.
pub proof fn lemma_le_prefix(x1: nat, r1: Seq<u8>, x2: nat, r2: Seq<u8>, n: nat)
    requires
        x1 < pow256(n),
        x2 < pow256(n),
        le_bytes(x1, n) + r1 == le_bytes(x2, n) + r2,
    ensures
        x1 == x2,
        r1 == r2,
{
    lemma_le_bytes_len(x1, n);
    lemma_le_bytes_len(x2, n);
    let s = le_bytes(x1, n) + r1;
    assert(s.subrange(0, n as int) =~= le_bytes(x1, n));
    assert((le_bytes(x2, n) + r2).subrange(0, n as int) =~= le_bytes(x2, n));
    lemma_le_round_trip(x1, n);
    lemma_le_round_trip(x2, n);
    assert(s.subrange(n as int, s.len() as int) =~= r1);
    assert((le_bytes(x2, n) + r2).subrange(n as int, s.len() as int) =~= r2);
}

/// Appends the `n` low bytes of `x`, least significant first.
pub fn push_le(out: &mut Vec<u8>, x: u128, n: usize)
    ensures
        final(out)@ == old(out)@ + le_bytes(x as nat, n as nat),
{
    let mut v: u128 = x;
    let mut i: usize = 0;
    while i < n
        invariant
            i <= n,
            out@ + le_bytes(v as nat, (n - i) as nat) == old(out)@ + le_bytes(x as nat, n as nat),
        decreases n - i,
    {
        let ghost before = out@;
        out.push((v % 256) as u8);
        proof {
            let rest = le_bytes((v / 256) as nat, (n - i - 1) as nat);
            assert(le_bytes(v as nat, (n - i) as nat) == seq![(v as nat % 256) as u8] + rest);
            assert(out@ + rest =~= before + le_bytes(v as nat, (n - i) as nat));
        }
        v = v / 256;
        i = i + 1;
    }
    assert(out@ =~= old(out)@ + le_bytes(x as nat, n as nat));
}

/// Reads the little-endian number held by `b[pos..pos + n]`.
pub fn read_le(b: &[u8], pos: usize, n: usize) -> (r: u128)
    requires
        pos + n <= b@.len(),
        n <= 16,
    ensures
        r as nat == le_value(b@.subrange(pos as int, pos + n)),
{
    let len = b.len();
    let mut acc: u128 = 0;
    let mut k: usize = n;
    proof {
        assert(b@.subrange(pos + n, pos + n).len() == 0);
    }
    while k > 0
        invariant
            k <= n,
            n <= 16,
            pos + n <= b@.len(),
            len == b@.len(),
            acc as nat == le_value(b@.subrange(pos + k, pos + n)),
        decreases k,
    {
        let ghost tail = b@.subrange(pos + k, pos + n);
        let ghost whole = b@.subrange(pos + k - 1, pos + n);
        proof {
            lemma_le_value_bound(tail);
            assert(whole.drop_first() =~= tail);
            assert(tail.len() <= 15);
            lemma_pow256_mono(tail.len(), 15);
            reveal_with_fuel(pow256, 16);
            assert(pow256(15) == 0x1_0000_0000_0000_0000_0000_0000_0000nat * 0x100);
            assert(acc < 0x1_0000_0000_0000_0000_0000_0000_0000nat * 0x100);
        }
        let byte = b[pos + (k - 1)];
        acc = byte as u128 + 256 * acc;
        k = k - 1;
    }
    acc
}

pub proof fn lemma_pow256_mono(a: nat, b: nat)
    requires
        a <= b,
    ensures
        pow256(a) <= pow256(b),
    decreases b,
{
    if a < b {
        lemma_pow256_mono(a, (b - 1) as nat);
        lemma_pow256_pos((b - 1) as nat);
    }
}

} // verus!
