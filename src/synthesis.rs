//! Folds agent responses into one coordinator decision by a fixed
//! three-tier threshold rule.

use vstd::prelude::*;
use vstd::string::StringSliceAdditionalSpecFns;
use crate::protocol::{BarkResponse, ResponseStatus, TargetNode};

verus! {

// ---------------------------------------------------------------------------
// Decimal numbers

/// The exact number `mantissa / 10^scale`.
#[derive(Debug, Clone, Copy, PartialEq, Eq, Structural)]
pub struct Decimal {
    pub mantissa: i64,
    pub scale: u32,
}

pub open spec fn pow10(n: nat) -> nat
    decreases n,
{
    if n == 0 {
        1
    } else {
        10 * pow10((n - 1) as nat)
    }
}

impl Decimal {
    /// At most eighteen digits and nineteen decimal places.
    pub open spec fn wf(&self) -> bool {
        &&& self.scale <= 19
        &&& -1_000_000_000_000_000_000 < self.mantissa < 1_000_000_000_000_000_000
    }
}

/// Whether `d` is strictly less than `centi / 100`.
pub open spec fn below(d: Decimal, centi: int) -> bool {
    d.mantissa * 100 < centi * pow10(d.scale as nat)
}

/// Whether `d` is strictly greater than `centi / 100`.
pub open spec fn above(d: Decimal, centi: int) -> bool {
    d.mantissa * 100 > centi * pow10(d.scale as nat)
}

/// Whether `a` is strictly less than `b`.
pub open spec fn less(a: Decimal, b: Decimal) -> bool {
    a.mantissa * pow10(b.scale as nat) < b.mantissa * pow10(a.scale as nat)
}

pub open spec fn is_digit_byte(c: u8) -> bool {
    48 <= c <= 57
}

pub open spec fn dot_count(s: Seq<u8>) -> nat
    decreases s.len(),
{
    if s.len() == 0 {
        0
    } else {
        dot_count(s.drop_last()) + if s.last() == 46 {
            1nat
        } else {
            0nat
        }
    }
}

pub open spec fn digit_count(s: Seq<u8>) -> nat
    decreases s.len(),
{
    if s.len() == 0 {
        0
    } else {
        digit_count(s.drop_last()) + if is_digit_byte(s.last()) {
            1nat
        } else {
            0nat
        }
    }
}

/// The number that the digits of `s` spell, any dot skipped.
pub open spec fn digits_value(s: Seq<u8>) -> nat
    decreases s.len(),
{
    if s.len() == 0 {
        0
    } else if is_digit_byte(s.last()) {
        digits_value(s.drop_last()) * 10 + (s.last() - 48) as nat
    } else {
        digits_value(s.drop_last())
    }
}

/// How many bytes follow the last dot (all of them when there is none).
pub open spec fn frac_len(s: Seq<u8>) -> nat
    decreases s.len(),
{
    if s.len() == 0 {
        0
    } else if s.last() == 46 {
        0
    } else {
        frac_len(s.drop_last()) + 1
    }
}

/// Digits with at most one inner dot, eighteen digits at most.
pub open spec fn plain_number(body: Seq<u8>) -> bool {
    &&& body.len() > 0
    &&& forall|k: int| 0 <= k < body.len() ==> is_digit_byte(#[trigger] body[k]) || body[k] == 46
    &&& dot_count(body) <= 1
    &&& body[0] != 46
    &&& body.last() != 46
    &&& digit_count(body) <= 18
}

/// The decimal that a number text such as `-2.90` denotes; `None` for an
/// exponent, more than eighteen digits, or anything that is no number.
pub open spec fn decimal_of(t: Seq<u8>) -> Option<Decimal> {
    let neg = t.len() > 0 && t[0] == 45;
    let body = if neg {
        t.drop_first()
    } else {
        t
    };
    if plain_number(body) {
        let m = digits_value(body) as int;
        Some(
            Decimal {
                mantissa: (if neg {
                    -m
                } else {
                    m
                }) as i64,
                scale: (if dot_count(body) == 1 {
                    frac_len(body)
                } else {
                    0
                }) as u32,
            },
        )
    } else {
        None
    }
}

proof fn lemma_pow10_18()
    ensures
        pow10(18) == 1_000_000_000_000_000_000,
{
    reveal_with_fuel(pow10, 19);
}

/// Scans the unsigned part of a number text, `t[start..]`: its mantissa and
/// scale when it is a plain number.
fn scan_number(t: &[u8], start: usize, end: usize) -> (r: Option<(i64, u32)>)
    requires
        start < end <= t@.len(),
    ensures
        ({
            let body = t@.subrange(start as int, end as int);
            &&& r is Some <==> plain_number(body)
            &&& r matches Some((m, s)) ==> {
                &&& m == digits_value(body)
                &&& s == (if dot_count(body) == 1 {
                    frac_len(body)
                } else {
                    0
                })
                &&& 0 <= m < 1_000_000_000_000_000_000
                &&& s <= 19
            }
        }),
{
    let n = end;
    let ghost body = t@.subrange(start as int, n as int);
    let mut i: usize = start;
    let mut dots: u64 = 0;
    let mut digits: u64 = 0;
    let mut mant: i64 = 0;
    let mut frac: u64 = 0;
    while i < n
        invariant
            start <= i <= n,
            n == end,
            end <= t@.len(),
            body == t@.subrange(start as int, n as int),
            ({
                let p = t@.subrange(start as int, i as int);
                &&& dots == dot_count(p)
                &&& digits == digit_count(p)
                &&& mant == digits_value(p)
                &&& frac == frac_len(p)
                &&& frac <= i - start
                &&& i - start == digits + dots
                &&& digits <= 18
                &&& dots <= 1
                &&& mant < pow10(digits as nat)
                &&& forall|k: int| 0 <= k < p.len() ==> is_digit_byte(#[trigger] p[k]) || p[k] == 46
            }),
        decreases n - i,
    {
        let c = t[i];
        let ghost p = t@.subrange(start as int, i as int);
        let ghost q = t@.subrange(start as int, i + 1);
        assert(q.drop_last() =~= p);
        assert(q.last() == c);
        assert(q =~= body.subrange(0, q.len() as int));
        assert(body[(i - start) as int] == t@[i as int]);
        if c == 46 {
            if dots == 1 {
                proof {
                    assert(dot_count(q) == 2);
                    lemma_prefix_counts(body, q);
                }
                return None;
            }
            dots = 1;
            frac = 0;
        } else if 48 <= c && c <= 57 {
            if digits == 18 {
                proof {
                    assert(digit_count(q) == 19);
                    lemma_prefix_counts(body, q);
                }
                return None;
            }
            proof {
                assert(mant * 10 + (c - 48) < pow10((digits + 1) as nat)) by (nonlinear_arith)
                    requires
                        mant < pow10(digits as nat),
                        pow10((digits + 1) as nat) == 10 * pow10(digits as nat),
                        48 <= c <= 57,
                ;
                lemma_pow10_18();
                lemma_pow10_mono((digits + 1) as nat, 18);
            }
            mant = mant * 10 + (c - 48) as i64;
            digits = digits + 1;
            frac = frac + 1;
        } else {
            proof {
                let k = (i - start) as int;
                assert(!(is_digit_byte(body[k]) || body[k] == 46));
            }
            return None;
        }
        proof {
            let q2 = t@.subrange(start as int, i + 1);
            assert forall|k: int| 0 <= k < q2.len() implies is_digit_byte(#[trigger] q2[k]) || q2[k] == 46 by {
                if k < p.len() {
                    assert(q2[k] == p[k]);
                }
            }
        }
        i = i + 1;
    }
    assert(t@.subrange(start as int, n as int) == body);
    if t[start] == 46 || t[n - 1] == 46 {
        proof {
            assert(body[0] == t@[start as int]);
            assert(body.last() == t@[n - 1]);
        }
        return None;
    }
    proof {
        assert(body[0] == t@[start as int]);
        assert(body.last() == t@[n - 1]);
        lemma_pow10_18();
        lemma_pow10_mono(digits as nat, 18);
    }
    let scale: u32 = if dots == 1 {
        frac as u32
    } else {
        0
    };
    Some((mant, scale))
}

/// The decimal that `t[lo..hi]` denotes (see `decimal_of`).
fn decimal_between(t: &[u8], lo: usize, hi: usize) -> (r: Option<Decimal>)
    requires
        lo <= hi <= t@.len(),
    ensures
        r == decimal_of(t@.subrange(lo as int, hi as int)),
        r matches Some(d) ==> d.wf(),
{
    let ghost sub = t@.subrange(lo as int, hi as int);
    let neg = hi > lo && t[lo] == 45;
    let start: usize = if neg {
        lo + 1
    } else {
        lo
    };
    let ghost body = if neg {
        sub.drop_first()
    } else {
        sub
    };
    assert(body =~= t@.subrange(start as int, hi as int));
    if start == hi {
        return None;
    }
    match scan_number(t, start, hi) {
        None => None,
        Some((m, scale)) => {
            let mantissa: i64 = if neg {
                -m
            } else {
                m
            };
            Some(Decimal { mantissa, scale })
        },
    }
}

/// Reads a plain number text such as `6.2`, `-0.5` or `72`.
pub fn parse_decimal(text: &str) -> (r: Option<Decimal>)
    ensures
        r == decimal_of(text.spec_bytes()),
        r matches Some(d) ==> d.wf(),
{
    let t = text.as_bytes();
    assert(t@.subrange(0, t@.len() as int) =~= t@);
    decimal_between(t, 0, t.len())
}

pub open spec fn is_exponent_mark(c: u8) -> bool {
    c == 101 || c == 69
}

/// Position of the first `e` or `E`, or -1.
pub open spec fn first_exponent_mark(t: Seq<u8>) -> int
    decreases t.len(),
{
    if t.len() == 0 {
        -1
    } else if is_exponent_mark(t[0]) {
        0
    } else {
        let r = first_exponent_mark(t.drop_first());
        if r < 0 {
            -1
        } else {
            r + 1
        }
    }
}

proof fn lemma_first_exponent_mark(t: Seq<u8>, i: int)
    requires
        0 <= i <= t.len(),
        forall|k: int| 0 <= k < i ==> !is_exponent_mark(#[trigger] t[k]),
        i == t.len() || is_exponent_mark(t[i]),
    ensures
        first_exponent_mark(t) == if i < t.len() {
            i
        } else {
            -1
        },
    decreases i,
{
    if i > 0 {
        let u = t.drop_first();
        assert forall|k: int| 0 <= k < i - 1 implies !is_exponent_mark(#[trigger] u[k]) by {
            assert(u[k] == t[k + 1]);
        }
        if i < t.len() {
            assert(u[i - 1] == t[i]);
        }
        lemma_first_exponent_mark(u, i - 1);
        assert(!is_exponent_mark(t[0]));
    }
}

pub open spec fn all_digits(s: Seq<u8>) -> bool {
    forall|k: int| 0 <= k < s.len() ==> is_digit_byte(#[trigger] s[k])
}

/// The digits of an exponent text, after an optional sign.
pub open spec fn exponent_digits(x: Seq<u8>) -> Seq<u8> {
    if x.len() > 0 && (x[0] == 45 || x[0] == 43) {
        x.drop_first()
    } else {
        x
    }
}

/// The value of an exponent text: an optional sign and one to three digits.
pub open spec fn exponent_of(x: Seq<u8>) -> Option<int> {
    let ds = exponent_digits(x);
    if 1 <= ds.len() <= 3 && all_digits(ds) {
        Some(
            if x[0] == 45 {
                -(digits_value(ds) as int)
            } else {
                digits_value(ds) as int
            },
        )
    } else {
        None
    }
}

/// `d · 10^e`, when it is still a decimal of eighteen digits and at most
/// nineteen places.
pub open spec fn with_exponent(d: Decimal, e: int) -> Option<Decimal> {
    let ns = d.scale - e;
    if 0 <= ns <= 19 {
        Some(Decimal { mantissa: d.mantissa, scale: ns as u32 })
    } else if ns < 0 && -ns <= 18 && -1_000_000_000_000_000_000 < d.mantissa * pow10((-ns) as nat)
        < 1_000_000_000_000_000_000 {
        Some(Decimal { mantissa: (d.mantissa * pow10((-ns) as nat)) as i64, scale: 0 })
    } else {
        None
    }
}

/// The decimal that a JSON number text denotes, exponent forms such as
/// `1e-7` included; `None` for anything else, or for a value that needs more
/// than eighteen digits or nineteen places.
pub open spec fn number_of(t: Seq<u8>) -> Option<Decimal> {
    let k = first_exponent_mark(t);
    if k < 0 {
        decimal_of(t)
    } else {
        match (decimal_of(t.subrange(0, k)), exponent_of(t.subrange(k + 1, t.len() as int))) {
            (Some(d), Some(e)) => with_exponent(d, e),
            _ => None,
        }
    }
}

fn exponent_between(t: &[u8], lo: usize, hi: usize) -> (r: Option<i64>)
    requires
        lo <= hi <= t@.len(),
    ensures
        r matches Some(e) ==> exponent_of(t@.subrange(lo as int, hi as int)) == Some(e as int),
        r is None ==> exponent_of(t@.subrange(lo as int, hi as int)) is None,
        r matches Some(e) ==> -999 <= e <= 999,
{
    let ghost x = t@.subrange(lo as int, hi as int);
    let signed = hi > lo && (t[lo] == 45 || t[lo] == 43);
    let start: usize = if signed {
        lo + 1
    } else {
        lo
    };
    let ghost ds = if signed {
        x.drop_first()
    } else {
        x
    };
    assert(ds =~= t@.subrange(start as int, hi as int));
    if hi - start < 1 || hi - start > 3 {
        return None;
    }
    let mut v: i64 = 0;
    let mut i: usize = start;
    while i < hi
        invariant
            lo <= start <= i <= hi <= t@.len(),
            hi - start <= 3,
            ds == t@.subrange(start as int, hi as int),
            x == t@.subrange(lo as int, hi as int),
            ds == exponent_digits(x),
            forall|k: int| start <= k < i ==> is_digit_byte(#[trigger] t@[k]),
            v == digits_value(t@.subrange(start as int, i as int)),
            0 <= v < pow10((i - start) as nat),
        decreases hi - i,
    {
        let c = t[i];
        if c < 48 || c > 57 {
            assert(!is_digit_byte(ds[(i - start) as int]));
            assert(exponent_of(x) is None);
            return None;
        }
        let ghost p = t@.subrange(start as int, i as int);
        let ghost q = t@.subrange(start as int, i + 1);
        assert(q.drop_last() =~= p);
        proof {
            reveal_with_fuel(pow10, 4);
            assert(v * 10 + (c - 48) < pow10((i + 1 - start) as nat)) by (nonlinear_arith)
                requires
                    v < pow10((i - start) as nat),
                    pow10((i + 1 - start) as nat) == 10 * pow10((i - start) as nat),
                    48 <= c <= 57,
            ;
            assert(pow10(3) == 1000);
            lemma_pow10_mono((i + 1 - start) as nat, 3);
        }
        v = v * 10 + (c - 48) as i64;
        i = i + 1;
    }
    assert forall|k: int| 0 <= k < ds.len() implies is_digit_byte(#[trigger] ds[k]) by {
        assert(ds[k] == t@[start + k]);
    }
    proof {
        reveal_with_fuel(pow10, 4);
        lemma_pow10_mono((hi - start) as nat, 3);
    }
    if signed && t[lo] == 45 {
        Some(-v)
    } else {
        Some(v)
    }
}

fn apply_exponent(d: Decimal, e: i64) -> (r: Option<Decimal>)
    requires
        d.wf(),
        -999 <= e <= 999,
    ensures
        r == with_exponent(d, e as int),
        r matches Some(x) ==> x.wf(),
{
    let ns: i64 = d.scale as i64 - e;
    if 0 <= ns && ns <= 19 {
        return Some(Decimal { mantissa: d.mantissa, scale: ns as u32 });
    }
    if ns < 0 && ns >= -18 {
        let p = pow10_exec((-ns) as u32);
        proof {
            lemma_pow10_mono((-ns) as nat, 18);
            lemma_pow10_18();
            assert(-1_000_000_000_000_000_000 * p <= d.mantissa * p <= 1_000_000_000_000_000_000 * p)
                by (nonlinear_arith)
                requires
                    -1_000_000_000_000_000_000 < d.mantissa < 1_000_000_000_000_000_000,
                    p >= 0,
            ;
        }
        let prod: i128 = d.mantissa as i128 * p as i128;
        if -1_000_000_000_000_000_000 < prod && prod < 1_000_000_000_000_000_000 {
            return Some(Decimal { mantissa: prod as i64, scale: 0 });
        }
    }
    None
}

/// Reads a JSON number text such as `6.2`, `-0.5`, `72` or `1e-7`.
pub fn parse_number(text: &str) -> (r: Option<Decimal>)
    ensures
        r == number_of(text.spec_bytes()),
        r matches Some(d) ==> d.wf(),
{
    let t = text.as_bytes();
    let n = t.len();
    let mut i: usize = 0;
    while i < n && t[i] != 101 && t[i] != 69
        invariant
            i <= n == t@.len(),
            forall|k: int| 0 <= k < i ==> !is_exponent_mark(#[trigger] t@[k]),
        decreases n - i,
    {
        i = i + 1;
    }
    proof {
        lemma_first_exponent_mark(t@, i as int);
    }
    if i == n {
        assert(t@.subrange(0, n as int) =~= t@);
        return decimal_between(t, 0, n);
    }
    match (decimal_between(t, 0, i), exponent_between(t, i + 1, n)) {
        (Some(d), Some(e)) => apply_exponent(d, e),
        _ => None,
    }
}

pub proof fn lemma_pow10_mono(a: nat, b: nat)
    requires
        a <= b,
    ensures
        pow10(a) <= pow10(b),
    decreases b,
{
    if a < b {
        lemma_pow10_mono(a, (b - 1) as nat);
    }
}

proof fn lemma_counts_mono(s: Seq<u8>, k: int)
    requires
        0 <= k <= s.len(),
    ensures
        dot_count(s.subrange(0, k)) <= dot_count(s),
        digit_count(s.subrange(0, k)) <= digit_count(s),
    decreases s.len() - k,
{
    if k < s.len() {
        lemma_counts_mono(s, k + 1);
        assert(s.subrange(0, k + 1).drop_last() =~= s.subrange(0, k));
    } else {
        assert(s.subrange(0, k) =~= s);
    }
}

/// A prefix whose counts already break the rule rules out the whole text.
proof fn lemma_prefix_counts(body: Seq<u8>, q: Seq<u8>)
    requires
        q.len() <= body.len(),
        q == body.subrange(0, q.len() as int),
    ensures
        dot_count(q) <= dot_count(body),
        digit_count(q) <= digit_count(body),
{
    lemma_counts_mono(body, q.len() as int);
}

// ---------------------------------------------------------------------------
// Decision rule

/// Financial runway below 3.00 months is a high risk.
pub const RUNWAY_HIGH_CENTI: i64 = 300;

/// Financial runway below 6.00 months is a medium risk.
pub const RUNWAY_MEDIUM_CENTI: i64 = 600;

/// Biological load above 85.00 percent is a high risk.
pub const LOAD_HIGH_CENTI: i64 = 8500;

/// Biological load above 75.00 percent is a medium risk.
pub const LOAD_MEDIUM_CENTI: i64 = 7500;

#[derive(Debug, Clone, Copy, PartialEq, Eq, Structural)]
pub enum RiskLevel {
    Low,
    Medium,
    High,
}

#[derive(Debug, Clone, Copy, PartialEq, Eq, Structural)]
pub enum Verdict {
    Go,
    Caution,
    Hold,
}

/// The named decision factors.
#[derive(Debug, Clone, Copy, PartialEq, Eq, Structural)]
pub enum Factor {
    /// Months of financial runway, from the wealth agent's `runway_months`.
    FinancialRunway,
    /// Biological load in percent, from the vitality agent's `bioload_percentage`.
    BiologicalLoad,
}

/// One factor's reading, the tier it fell in, and the thresholds applied.
#[derive(Debug, Clone, Copy, PartialEq, Eq, Structural)]
pub struct Finding {
    pub factor: Factor,
    pub value: Decimal,
    pub tier: RiskLevel,
    pub high_threshold_centi: i64,
    pub medium_threshold_centi: i64,
}

/// The verdict, the overall risk, and the findings that produced them.
#[derive(Debug, Clone)]
pub struct CouncilDecision {
    pub verdict: Verdict,
    pub risk: RiskLevel,
    pub findings: Vec<Finding>,
}

pub open spec fn runway_tier(r: Decimal) -> RiskLevel {
    if below(r, RUNWAY_HIGH_CENTI as int) {
        RiskLevel::High
    } else if below(r, RUNWAY_MEDIUM_CENTI as int) {
        RiskLevel::Medium
    } else {
        RiskLevel::Low
    }
}

pub open spec fn load_tier(l: Decimal) -> RiskLevel {
    if above(l, LOAD_HIGH_CENTI as int) {
        RiskLevel::High
    } else if above(l, LOAD_MEDIUM_CENTI as int) {
        RiskLevel::Medium
    } else {
        RiskLevel::Low
    }
}

pub open spec fn rank(t: RiskLevel) -> int {
    match t {
        RiskLevel::Low => 0,
        RiskLevel::Medium => 1,
        RiskLevel::High => 2,
    }
}

pub open spec fn worse(a: RiskLevel, b: RiskLevel) -> RiskLevel {
    if rank(a) >= rank(b) {
        a
    } else {
        b
    }
}

/// The overall risk: the worst tier among the factors that were reported.
pub open spec fn overall_risk(runway: Option<Decimal>, load: Option<Decimal>) -> RiskLevel {
    let r = match runway {
        Some(x) => runway_tier(x),
        None => RiskLevel::Low,
    };
    let l = match load {
        Some(x) => load_tier(x),
        None => RiskLevel::Low,
    };
    worse(r, l)
}

pub open spec fn verdict_for(risk: RiskLevel) -> Verdict {
    match risk {
        RiskLevel::High => Verdict::Hold,
        RiskLevel::Medium => Verdict::Caution,
        RiskLevel::Low => Verdict::Go,
    }
}

pub open spec fn runway_finding(r: Decimal) -> Finding {
    Finding {
        factor: Factor::FinancialRunway,
        value: r,
        tier: runway_tier(r),
        high_threshold_centi: RUNWAY_HIGH_CENTI,
        medium_threshold_centi: RUNWAY_MEDIUM_CENTI,
    }
}

pub open spec fn load_finding(l: Decimal) -> Finding {
    Finding {
        factor: Factor::BiologicalLoad,
        value: l,
        tier: load_tier(l),
        high_threshold_centi: LOAD_HIGH_CENTI,
        medium_threshold_centi: LOAD_MEDIUM_CENTI,
    }
}

pub open spec fn findings_for(runway: Option<Decimal>, load: Option<Decimal>) -> Seq<Finding> {
    let a = match runway {
        Some(x) => seq![runway_finding(x)],
        None => Seq::empty(),
    };
    let b = match load {
        Some(x) => seq![load_finding(x)],
        None => Seq::empty(),
    };
    a + b
}

fn pow10_exec(n: u32) -> (r: u128)
    requires
        n <= 19,
    ensures
        r == pow10(n as nat),
{
    let mut r: u128 = 1;
    let mut i: u32 = 0;
    while i < n
        invariant
            i <= n <= 19,
            r == pow10(i as nat),
        decreases n - i,
    {
        proof {
            lemma_pow10_mono((i + 1) as nat, 19);
            reveal_with_fuel(pow10, 20);
        }
        r = r * 10;
        i = i + 1;
    }
    r
}

proof fn lemma_pow10_19()
    ensures
        pow10(19) == 10_000_000_000_000_000_000,
{
    reveal_with_fuel(pow10, 20);
}

/// Whether `d` is strictly less than `centi / 100`.
pub fn is_below(d: Decimal, centi: i64) -> (r: bool)
    requires
        d.wf(),
        -1_000_000 <= centi <= 1_000_000,
    ensures
        r == below(d, centi as int),
{
    let p = pow10_exec(d.scale);
    proof {
        lemma_pow10_mono(d.scale as nat, 19);
        lemma_pow10_19();
        assert(-1_000_000 * p <= centi * p <= 1_000_000 * p) by (nonlinear_arith)
            requires
                -1_000_000 <= centi <= 1_000_000,
                p >= 0,
        ;
    }
    (d.mantissa as i128) * 100 < (centi as i128) * (p as i128)
}

/// Whether `d` is strictly greater than `centi / 100`.
pub fn is_above(d: Decimal, centi: i64) -> (r: bool)
    requires
        d.wf(),
        -1_000_000 <= centi <= 1_000_000,
    ensures
        r == above(d, centi as int),
{
    let p = pow10_exec(d.scale);
    proof {
        lemma_pow10_mono(d.scale as nat, 19);
        lemma_pow10_19();
        assert(-1_000_000 * p <= centi * p <= 1_000_000 * p) by (nonlinear_arith)
            requires
                -1_000_000 <= centi <= 1_000_000,
                p >= 0,
        ;
    }
    (d.mantissa as i128) * 100 > (centi as i128) * (p as i128)
}

/// Whether `a` is strictly less than `b`.
pub fn is_less(a: Decimal, b: Decimal) -> (r: bool)
    requires
        a.wf(),
        b.wf(),
    ensures
        r == less(a, b),
{
    let pa = pow10_exec(a.scale);
    let pb = pow10_exec(b.scale);
    proof {
        lemma_pow10_mono(a.scale as nat, 19);
        lemma_pow10_mono(b.scale as nat, 19);
        lemma_pow10_19();
        assert(-1_000_000_000_000_000_000 * pb <= a.mantissa * pb <= 1_000_000_000_000_000_000 * pb)
            by (nonlinear_arith)
            requires
                -1_000_000_000_000_000_000 < a.mantissa < 1_000_000_000_000_000_000,
                pb >= 0,
        ;
        assert(-1_000_000_000_000_000_000 * pa <= b.mantissa * pa <= 1_000_000_000_000_000_000 * pa)
            by (nonlinear_arith)
            requires
                -1_000_000_000_000_000_000 < b.mantissa < 1_000_000_000_000_000_000,
                pa >= 0,
        ;
    }
    (a.mantissa as i128) * (pb as i128) < (b.mantissa as i128) * (pa as i128)
}

fn runway_tier_exec(r: Decimal) -> (t: RiskLevel)
    requires
        r.wf(),
    ensures
        t == runway_tier(r),
{
    if is_below(r, RUNWAY_HIGH_CENTI) {
        RiskLevel::High
    } else if is_below(r, RUNWAY_MEDIUM_CENTI) {
        RiskLevel::Medium
    } else {
        RiskLevel::Low
    }
}

fn load_tier_exec(l: Decimal) -> (t: RiskLevel)
    requires
        l.wf(),
    ensures
        t == load_tier(l),
{
    if is_above(l, LOAD_HIGH_CENTI) {
        RiskLevel::High
    } else if is_above(l, LOAD_MEDIUM_CENTI) {
        RiskLevel::Medium
    } else {
        RiskLevel::Low
    }
}

/// The three-tier rule: any factor in its high tier holds; else any factor
/// in its medium tier asks for caution; else go. A factor that no agent
/// reported plays no part.
pub fn generate_council_decision(runway: Option<Decimal>, load: Option<Decimal>) -> (d: CouncilDecision)
    requires
        runway matches Some(r) ==> r.wf(),
        load matches Some(l) ==> l.wf(),
    ensures
        d.risk == overall_risk(runway, load),
        d.verdict == verdict_for(overall_risk(runway, load)),
        d.findings@ == findings_for(runway, load),
{
    let mut findings: Vec<Finding> = Vec::new();
    let mut risk = RiskLevel::Low;
    match runway {
        Some(r) => {
            let t = runway_tier_exec(r);
            findings.push(
                Finding {
                    factor: Factor::FinancialRunway,
                    value: r,
                    tier: t,
                    high_threshold_centi: RUNWAY_HIGH_CENTI,
                    medium_threshold_centi: RUNWAY_MEDIUM_CENTI,
                },
            );
            risk = t;
        },
        None => {},
    }
    match load {
        Some(l) => {
            let t = load_tier_exec(l);
            findings.push(
                Finding {
                    factor: Factor::BiologicalLoad,
                    value: l,
                    tier: t,
                    high_threshold_centi: LOAD_HIGH_CENTI,
                    medium_threshold_centi: LOAD_MEDIUM_CENTI,
                },
            );
            let worse_now = match (risk, t) {
                (RiskLevel::High, _) => RiskLevel::High,
                (_, RiskLevel::High) => RiskLevel::High,
                (RiskLevel::Medium, _) => RiskLevel::Medium,
                (_, RiskLevel::Medium) => RiskLevel::Medium,
                _ => RiskLevel::Low,
            };
            risk = worse_now;
        },
        None => {},
    }
    assert(findings@ =~= findings_for(runway, load));
    let verdict = match risk {
        RiskLevel::High => Verdict::Hold,
        RiskLevel::Medium => Verdict::Caution,
        RiskLevel::Low => Verdict::Go,
    };
    CouncilDecision { verdict, risk, findings }
}

/// Synthesis thresholds: a runway below its high threshold holds, and one at
/// or above it does not; a load above its high threshold holds, and one at or
/// below it does not, whatever the other factor.
pub proof fn lemma_high_thresholds(runway: Decimal, load: Decimal)
    ensures
        verdict_for(overall_risk(Some(runway), None)) == Verdict::Hold <==> below(runway, RUNWAY_HIGH_CENTI as int),
        verdict_for(overall_risk(None, Some(load))) == Verdict::Hold <==> above(load, LOAD_HIGH_CENTI as int),
        below(runway, RUNWAY_HIGH_CENTI as int) ==> verdict_for(overall_risk(Some(runway), Some(load))) == Verdict::Hold,
        above(load, LOAD_HIGH_CENTI as int) ==> verdict_for(overall_risk(Some(runway), Some(load))) == Verdict::Hold,
        !below(runway, RUNWAY_HIGH_CENTI as int) && !above(load, LOAD_HIGH_CENTI as int) ==> verdict_for(
            overall_risk(Some(runway), Some(load)),
        ) != Verdict::Hold,
{
}

// ---------------------------------------------------------------------------
// Folding responses

/// The text of the JSON number stored under `key` in the top-level object of
/// `payload`; `None` when the payload is no JSON object or holds no number
/// under that key.
pub uninterp spec fn json_number_text(payload: Seq<char>, key: Seq<char>) -> Option<Seq<char>>;

/// Relies on serde_json's `from_str::<Value>`, `Map::get` and the `Display`
/// of `serde_json::Number`: the number stored under `key`, as text.
#[verifier::external_body]
fn number_field(payload: &str, key: &str) -> (r: Option<String>)
    ensures
        r is None <==> json_number_text(payload@, key@) is None,
        r matches Some(t) ==> json_number_text(payload@, key@) == Some(t@),
{
    match serde_json::from_str::<serde_json::Value>(payload) {
        Ok(serde_json::Value::Object(map)) => match map.get(key) {
            Some(serde_json::Value::Number(n)) => Some(n.to_string()),
            _ => None,
        },
        _ => None,
    }
}

/// The decimal stored under `key` in a JSON payload.
pub open spec fn factor_in(payload: Seq<char>, key: Seq<char>) -> Option<Decimal> {
    match json_number_text(payload, key) {
        Some(t) => number_of(vstd::utf8::encode_utf8(t)),
        None => None,
    }
}

/// The reading of a factor that a response carries: only a successful
/// response from the factor's agent counts.
pub open spec fn reading(r: BarkResponse, source: TargetNode, key: Seq<char>) -> Option<Decimal> {
    if r.status == ResponseStatus::Success && r.source_node == source {
        factor_in(r.payload@, key)
    } else {
        None
    }
}

pub open spec fn lowest(a: Option<Decimal>, b: Option<Decimal>) -> Option<Decimal> {
    match (a, b) {
        (Some(x), Some(y)) => if less(y, x) || (!less(x, y) && y.scale < x.scale) {
            Some(y)
        } else {
            Some(x)
        },
        (Some(x), None) => Some(x),
        (None, y) => y,
    }
}

pub open spec fn highest(a: Option<Decimal>, b: Option<Decimal>) -> Option<Decimal> {
    match (a, b) {
        (Some(x), Some(y)) => if less(x, y) || (!less(y, x) && y.scale < x.scale) {
            Some(y)
        } else {
            Some(x)
        },
        (Some(x), None) => Some(x),
        (None, y) => y,
    }
}

pub open spec fn runway_key() -> Seq<char> {
    "runway_months"@
}

pub open spec fn load_key() -> Seq<char> {
    "bioload_percentage"@
}

/// The shortest runway that the wealth agent reported.
pub open spec fn runway_reading(rs: Seq<BarkResponse>) -> Option<Decimal>
    decreases rs.len(),
{
    if rs.len() == 0 {
        None
    } else {
        lowest(runway_reading(rs.drop_last()), reading(rs.last(), TargetNode::LexWth, runway_key()))
    }
}

/// The highest load that the vitality agent reported.
pub open spec fn load_reading(rs: Seq<BarkResponse>) -> Option<Decimal>
    decreases rs.len(),
{
    if rs.len() == 0 {
        None
    } else {
        highest(load_reading(rs.drop_last()), reading(rs.last(), TargetNode::LexVit, load_key()))
    }
}

pub open spec fn success_count(rs: Seq<BarkResponse>) -> nat
    decreases rs.len(),
{
    if rs.len() == 0 {
        0
    } else {
        success_count(rs.drop_last()) + if rs.last().status == ResponseStatus::Success {
            1nat
        } else {
            0nat
        }
    }
}

/// The coordinator's answer to an analysis directive.
#[derive(Debug, Clone)]
pub struct Synthesis {
    pub request_id: u128,
    /// `Success` with a decision, or `Failure` when no agent produced usable output.
    pub status: ResponseStatus,
    pub response_count: usize,
    pub success_count: usize,
    pub decision: Option<CouncilDecision>,
}

/// The decimal stored under `key` in a JSON payload.
pub fn read_factor(payload: &str, key: &str) -> (r: Option<Decimal>)
    ensures
        r == factor_in(payload@, key@),
        r matches Some(d) ==> d.wf(),
{
    match number_field(payload, key) {
        None => None,
        Some(t) => parse_number(t.as_str()),
    }
}

fn lowest_exec(a: Option<Decimal>, b: Option<Decimal>) -> (r: Option<Decimal>)
    requires
        a matches Some(x) ==> x.wf(),
        b matches Some(y) ==> y.wf(),
    ensures
        r == lowest(a, b),
        r matches Some(z) ==> z.wf(),
{
    match (a, b) {
        (Some(x), Some(y)) => if is_less(y, x) || (!is_less(x, y) && y.scale < x.scale) {
            Some(y)
        } else {
            Some(x)
        },
        (Some(x), None) => Some(x),
        (None, y) => y,
    }
}

fn highest_exec(a: Option<Decimal>, b: Option<Decimal>) -> (r: Option<Decimal>)
    requires
        a matches Some(x) ==> x.wf(),
        b matches Some(y) ==> y.wf(),
    ensures
        r == highest(a, b),
        r matches Some(z) ==> z.wf(),
{
    match (a, b) {
        (Some(x), Some(y)) => if is_less(x, y) || (!is_less(y, x) && y.scale < x.scale) {
            Some(y)
        } else {
            Some(x)
        },
        (Some(x), None) => Some(x),
        (None, y) => y,
    }
}

proof fn lemma_same_value_same_scale(x: Decimal, y: Decimal)
    requires
        !less(x, y),
        !less(y, x),
        x.scale == y.scale,
    ensures
        x == y,
{
    let p = pow10(x.scale as nat);
    lemma_pow10_pos(x.scale as nat);
    assert(x.mantissa * p == y.mantissa * p);
    assert(x.mantissa == y.mantissa) by (nonlinear_arith)
        requires
            x.mantissa * p == y.mantissa * p,
            p > 0,
    ;
}

proof fn lemma_pow10_pos(n: nat)
    ensures
        pow10(n) > 0,
    decreases n,
{
    if n > 0 {
        lemma_pow10_pos((n - 1) as nat);
    }
}

/// The readings are combined symmetrically: which of two readings is kept
/// does not depend on the order in which they arrive.
pub proof fn lemma_readings_order_free(a: Option<Decimal>, b: Option<Decimal>)
    ensures
        lowest(a, b) == lowest(b, a),
        highest(a, b) == highest(b, a),
{
    match (a, b) {
        (Some(x), Some(y)) => {
            if !less(x, y) && !less(y, x) && x.scale == y.scale {
                lemma_same_value_same_scale(x, y);
            }
            if less(x, y) && less(y, x) {
                lemma_pow10_pos(x.scale as nat);
                lemma_pow10_pos(y.scale as nat);
            }
        },
        _ => {},
    }
}

/// Folds the successful responses into one decision. The shortest reported
/// runway and the highest reported load are judged by the three-tier rule;
/// with no successful response at all the answer is a failure.
pub fn synthesize_analysis_response(request_id: u128, responses: &Vec<BarkResponse>) -> (s: Synthesis)
    ensures
        s.request_id == request_id,
        s.response_count == responses@.len(),
        s.success_count == success_count(responses@),
        success_count(responses@) == 0 ==> s.status == ResponseStatus::Failure && s.decision is None,
        success_count(responses@) > 0 ==> s.status == ResponseStatus::Success && (s.decision matches Some(d) && {
            let runway = runway_reading(responses@);
            let load = load_reading(responses@);
            &&& d.risk == overall_risk(runway, load)
            &&& d.verdict == verdict_for(overall_risk(runway, load))
            &&& d.findings@ == findings_for(runway, load)
        }),
{
    let mut runway: Option<Decimal> = None;
    let mut load: Option<Decimal> = None;
    let mut successes: usize = 0;
    let mut i: usize = 0;
    while i < responses.len()
        invariant
            i <= responses@.len(),
            successes == success_count(responses@.subrange(0, i as int)),
            successes <= i,
            runway == runway_reading(responses@.subrange(0, i as int)),
            load == load_reading(responses@.subrange(0, i as int)),
            runway matches Some(x) ==> x.wf(),
            load matches Some(x) ==> x.wf(),
        decreases responses@.len() - i,
    {
        let r = &responses[i];
        let ghost pre = responses@.subrange(0, i as int);
        let ghost next = responses@.subrange(0, i + 1);
        assert(next.drop_last() =~= pre);
        assert(next.last() == *r);
        if r.status == ResponseStatus::Success {
            successes = successes + 1;
            match r.source_node {
                TargetNode::LexWth => {
                    let x = read_factor(r.payload.as_str(), "runway_months");
                    runway = lowest_exec(runway, x);
                },
                TargetNode::LexVit => {
                    let x = read_factor(r.payload.as_str(), "bioload_percentage");
                    load = highest_exec(load, x);
                },
                _ => {},
            }
        }
        i = i + 1;
    }
    assert(responses@.subrange(0, responses@.len() as int) =~= responses@);
    if successes == 0 {
        return Synthesis {
            request_id,
            status: ResponseStatus::Failure,
            response_count: responses.len(),
            success_count: 0,
            decision: None,
        };
    }
    let decision = generate_council_decision(runway, load);
    Synthesis {
        request_id,
        status: ResponseStatus::Success,
        response_count: responses.len(),
        success_count: successes,
        decision: Some(decision),
    }
}

} // verus!
