//! Maps a directive's declared intent to the agents that must receive it.

use vstd::prelude::*;
use vstd::string::StringSliceAdditionalSpecFns;
use crate::protocol::{BarkDirective, DirectiveKind, DirectiveView, TargetNode};

verus! {

/// Whether `word` occurs in `text` as a contiguous run of bytes.
pub open spec fn occurs(text: Seq<u8>, word: Seq<u8>) -> bool {
    exists|i: int|
        0 <= i && i + word.len() <= text.len() && #[trigger] text.subrange(i, i + word.len()) == word
}

/// Whether `text` holds one of the routing keywords of agent `a`.
pub open spec fn mentions(text: Seq<u8>, a: TargetNode) -> bool {
    match a {
        TargetNode::LexWth => occurs(text, "runway".spec_bytes()) || occurs(text, "financial".spec_bytes())
            || occurs(text, "wealth".spec_bytes()),
        TargetNode::LexVit => occurs(text, "bioload".spec_bytes()) || occurs(text, "vital".spec_bytes())
            || occurs(text, "health".spec_bytes()) || occurs(text, "stress".spec_bytes())
            || occurs(text, "sleep".spec_bytes()),
        TargetNode::LexEnt => occurs(text, "pivot".spec_bytes()) || occurs(text, "strategy".spec_bytes())
            || occurs(text, "enterprise".spec_bytes()),
        TargetNode::LexKno => occurs(text, "knowledge".spec_bytes()) || occurs(text, "information".spec_bytes())
            || occurs(text, "data".spec_bytes()),
        TargetNode::LexCrt => occurs(text, "create".spec_bytes()) || occurs(text, "generate".spec_bytes())
            || occurs(text, "output".spec_bytes()),
        TargetNode::LexOrd => occurs(text, "plan".spec_bytes()) || occurs(text, "schedule".spec_bytes())
            || occurs(text, "logistics".spec_bytes()),
        TargetNode::LexKin => occurs(text, "social".spec_bytes()) || occurs(text, "relationship".spec_bytes())
            || occurs(text, "kinship".spec_bytes()),
        TargetNode::LexGrw => occurs(text, "learn".spec_bytes()) || occurs(text, "growth".spec_bytes())
            || occurs(text, "capability".spec_bytes()),
        TargetNode::LexSan => occurs(text, "environment".spec_bytes()) || occurs(text, "sanctuary".spec_bytes())
            || occurs(text, "infrastructure".spec_bytes()),
        TargetNode::LexLei => occurs(text, "leisure".spec_bytes()) || occurs(text, "recovery".spec_bytes())
            || occurs(text, "restoration".spec_bytes()),
        TargetNode::LexOut => occurs(text, "communication".spec_bytes()) || occurs(text, "influence".spec_bytes())
            || occurs(text, "outreach".spec_bytes()),
        TargetNode::LexLeg => occurs(text, "legacy".spec_bytes()) || occurs(text, "history".spec_bytes())
            || occurs(text, "meta".spec_bytes()),
        TargetNode::LexMon => false,
    }
}

/// The order in which keyword categories are tried.
pub open spec fn category_order() -> Seq<TargetNode> {
    seq![
        TargetNode::LexWth,
        TargetNode::LexVit,
        TargetNode::LexEnt,
        TargetNode::LexKno,
        TargetNode::LexCrt,
        TargetNode::LexOrd,
        TargetNode::LexKin,
        TargetNode::LexGrw,
        TargetNode::LexSan,
        TargetNode::LexLei,
        TargetNode::LexOut,
        TargetNode::LexLeg,
    ]
}

/// The agents among the first `n` categories that `text` mentions, in order.
pub open spec fn hits_upto(text: Seq<u8>, n: nat) -> Seq<TargetNode>
    decreases n,
{
    if n == 0 {
        Seq::empty()
    } else {
        let a = category_order()[n - 1];
        let prev = hits_upto(text, (n - 1) as nat);
        if mentions(text, a) {
            prev.push(a)
        } else {
            prev
        }
    }
}

/// The agent that receives a payload that mentions no category.
pub open spec fn default_agent() -> TargetNode {
    TargetNode::LexKno
}

/// The agents that an analysis payload goes to: every agent whose category
/// the text mentions, or the default agent when none is mentioned.
pub open spec fn analysis_targets(text: Seq<u8>) -> Seq<TargetNode> {
    let hits = hits_upto(text, 12);
    if hits.len() == 0 {
        seq![default_agent()]
    } else {
        hits
    }
}

/// The lower-case form of a text, as `str::to_lowercase` gives it.
pub uninterp spec fn lower_of(s: Seq<char>) -> Seq<char>;

/// Relies on std's `str::to_lowercase`: the result depends on the text alone.
#[verifier::external_body]
fn lowercase(s: &str) -> (r: String)
    ensures
        r@ == lower_of(s@),
{
    s.to_lowercase()
}

/// The agents that must receive a directive. Analysis directives go to the
/// agents whose keywords occur in the lower-cased payload; execution plans go
/// to the logistics agent; output validation to the knowledge and creation
/// agents; other kinds to the declared target. A directive addressed to a
/// specific agent (anyone but the coordinator) always reaches that agent.
pub open spec fn routed(d: DirectiveView) -> Seq<TargetNode> {
    let base = match d.kind {
        DirectiveKind::ANALYZE => analysis_targets(encode_utf8_of(lower_of(d.payload))),
        DirectiveKind::EXECUTE_PLAN => seq![TargetNode::LexOrd],
        DirectiveKind::VALIDATE_OUTPUT => seq![TargetNode::LexKno, TargetNode::LexCrt],
        _ => seq![d.target_agent],
    };
    if d.target_agent != TargetNode::LexMon && !base.contains(d.target_agent) {
        base.push(d.target_agent)
    } else {
        base
    }
}

pub open spec fn encode_utf8_of(s: Seq<char>) -> Seq<u8> {
    vstd::utf8::encode_utf8(s)
}

proof fn lemma_hits_upto(text: Seq<u8>, n: nat, a: TargetNode)
    requires
        n <= 12,
    ensures
        hits_upto(text, n).contains(a) <==> (mentions(text, a) && category_order().subrange(0, n as int).contains(a)),
    decreases n,
{
    if n > 0 {
        lemma_hits_upto(text, (n - 1) as nat, a);
        let prev = hits_upto(text, (n - 1) as nat);
        let c = category_order()[n - 1];
        let pre = category_order().subrange(0, n as int);
        assert(pre =~= category_order().subrange(0, n - 1).push(c));
        if mentions(text, c) {
            assert(hits_upto(text, n) == prev.push(c));
            if prev.push(c).contains(a) {
                if a != c {
                    let k = choose|k: int| 0 <= k < prev.push(c).len() && prev.push(c)[k] == a;
                    assert(prev[k] == a);
                }
            }
            if prev.contains(a) {
                let k = choose|k: int| 0 <= k < prev.len() && prev[k] == a;
                assert(prev.push(c)[k] == a);
            }
            assert(prev.push(c)[prev.len() as int] == c);
        }
        if pre.contains(a) && a != c {
            let k = choose|k: int| 0 <= k < pre.len() && pre[k] == a;
            assert(category_order().subrange(0, n - 1)[k] == a);
        }
        if category_order().subrange(0, n - 1).contains(a) {
            let k = choose|k: int| 0 <= k < n - 1 && #[trigger] category_order().subrange(0, n - 1)[k] == a;
            assert(pre[k] == a);
        }
        assert(pre[n - 1] == c);
    }
}

/// Position of an agent in the category order (the coordinator has none).
pub open spec fn category_slot(a: TargetNode) -> int {
    match a {
        TargetNode::LexWth => 0,
        TargetNode::LexVit => 1,
        TargetNode::LexEnt => 2,
        TargetNode::LexKno => 3,
        TargetNode::LexCrt => 4,
        TargetNode::LexOrd => 5,
        TargetNode::LexKin => 6,
        TargetNode::LexGrw => 7,
        TargetNode::LexSan => 8,
        TargetNode::LexLei => 9,
        TargetNode::LexOut => 10,
        TargetNode::LexLeg => 11,
        TargetNode::LexMon => -1,
    }
}

proof fn lemma_category_order_distinct()
    ensures
        category_order().no_duplicates(),
{
    let o = category_order();
    assert forall|i: int| 0 <= i < 12 implies #[trigger] category_slot(o[i]) == i by {
        if i == 0 {
        } else if i == 1 {
        } else if i == 2 {
        } else if i == 3 {
        } else if i == 4 {
        } else if i == 5 {
        } else if i == 6 {
        } else if i == 7 {
        } else if i == 8 {
        } else if i == 9 {
        } else if i == 10 {
        } else {
        }
    }
    assert forall|i: int, j: int| 0 <= i < o.len() && 0 <= j < o.len() && i != j implies o[i] != o[j] by {
        assert(category_slot(o[i]) == i);
        assert(category_slot(o[j]) == j);
    }
}

proof fn lemma_hits_distinct(text: Seq<u8>, n: nat)
    requires
        n <= 12,
    ensures
        hits_upto(text, n).no_duplicates(),
    decreases n,
{
    if n > 0 {
        lemma_hits_distinct(text, (n - 1) as nat);
        let c = category_order()[n - 1];
        let prev = hits_upto(text, (n - 1) as nat);
        if mentions(text, c) {
            lemma_hits_upto(text, (n - 1) as nat, c);
            lemma_category_order_distinct();
            if category_order().subrange(0, n - 1).contains(c) {
                let k = choose|k: int| 0 <= k < n - 1 && #[trigger] category_order().subrange(0, n - 1)[k] == c;
                assert(category_order()[k] == category_order()[n - 1]);
            }
            assert(!prev.contains(c));
            let q = prev.push(c);
            assert forall|i: int, j: int| 0 <= i < q.len() && 0 <= j < q.len() && i != j implies q[i] != q[j] by {
                if i < prev.len() && j < prev.len() {
                    assert(q[i] == prev[i] && q[j] == prev[j]);
                } else if i < prev.len() {
                    assert(q[i] == prev[i]);
                } else if j < prev.len() {
                    assert(q[j] == prev[j]);
                }
            }
        }
    }
}

/// Routing never names an agent twice.
pub proof fn lemma_routed_distinct(d: DirectiveView)
    ensures
        routed(d).no_duplicates(),
{
    lemma_hits_distinct(encode_utf8_of(lower_of(d.payload)), 12);
    let base = match d.kind {
        DirectiveKind::ANALYZE => analysis_targets(encode_utf8_of(lower_of(d.payload))),
        DirectiveKind::EXECUTE_PLAN => seq![TargetNode::LexOrd],
        DirectiveKind::VALIDATE_OUTPUT => seq![TargetNode::LexKno, TargetNode::LexCrt],
        _ => seq![d.target_agent],
    };
    assert(base.no_duplicates());
    if d.target_agent != TargetNode::LexMon && !base.contains(d.target_agent) {
        let q = base.push(d.target_agent);
        assert forall|i: int, j: int| 0 <= i < q.len() && 0 <= j < q.len() && i != j implies q[i] != q[j] by {
            if i < base.len() && j < base.len() {
                assert(q[i] == base[i] && q[j] == base[j]);
            } else if i < base.len() {
                assert(q[i] == base[i]);
            } else if j < base.len() {
                assert(q[j] == base[j]);
            }
        }
    }
}

/// An analysis payload reaches agent `a` exactly when the payload mentions one
/// of `a`'s keywords, or when it mentions none at all and `a` is the default
/// agent.
pub proof fn lemma_analysis_routing_exact(text: Seq<u8>, a: TargetNode)
    ensures
        analysis_targets(text).contains(a) <==> (mentions(text, a) || ((forall|b: TargetNode|
            !#[trigger] mentions(text, b)) && a == default_agent())),
{
    assert(category_order().subrange(0, 12) =~= category_order());
    lemma_hits_upto(text, 12, a);
    let hits = hits_upto(text, 12);
    if hits.len() == 0 {
        assert forall|b: TargetNode| !#[trigger] mentions(text, b) by {
            lemma_hits_upto(text, 12, b);
            if mentions(text, b) {
                assert(b != TargetNode::LexMon);
                assert(category_order().contains(b)) by {
                    match b {
                        TargetNode::LexWth => assert(category_order()[0] == b),
                        TargetNode::LexVit => assert(category_order()[1] == b),
                        TargetNode::LexEnt => assert(category_order()[2] == b),
                        TargetNode::LexKno => assert(category_order()[3] == b),
                        TargetNode::LexCrt => assert(category_order()[4] == b),
                        TargetNode::LexOrd => assert(category_order()[5] == b),
                        TargetNode::LexKin => assert(category_order()[6] == b),
                        TargetNode::LexGrw => assert(category_order()[7] == b),
                        TargetNode::LexSan => assert(category_order()[8] == b),
                        TargetNode::LexLei => assert(category_order()[9] == b),
                        TargetNode::LexOut => assert(category_order()[10] == b),
                        TargetNode::LexLeg => assert(category_order()[11] == b),
                        TargetNode::LexMon => {},
                    }
                }
            }
        }
        assert(seq![default_agent()][0] == default_agent());
    } else {
        if mentions(text, a) {
            assert(category_order().contains(a)) by {
                match a {
                    TargetNode::LexWth => assert(category_order()[0] == a),
                    TargetNode::LexVit => assert(category_order()[1] == a),
                    TargetNode::LexEnt => assert(category_order()[2] == a),
                    TargetNode::LexKno => assert(category_order()[3] == a),
                    TargetNode::LexCrt => assert(category_order()[4] == a),
                    TargetNode::LexOrd => assert(category_order()[5] == a),
                    TargetNode::LexKin => assert(category_order()[6] == a),
                    TargetNode::LexGrw => assert(category_order()[7] == a),
                    TargetNode::LexSan => assert(category_order()[8] == a),
                    TargetNode::LexLei => assert(category_order()[9] == a),
                    TargetNode::LexOut => assert(category_order()[10] == a),
                    TargetNode::LexLeg => assert(category_order()[11] == a),
                    TargetNode::LexMon => {},
                }
            }
        }
        let b0 = hits[0];
        lemma_hits_upto(text, 12, b0);
        assert(hits.contains(b0));
    }
}

/// Routing never yields an empty set, and a directive addressed to a specific
/// agent (anyone but the coordinator) always includes that agent.
pub proof fn lemma_routing_complete(d: DirectiveView)
    ensures
        routed(d).len() > 0,
        d.target_agent != TargetNode::LexMon ==> routed(d).contains(d.target_agent),
{
    let base = match d.kind {
        DirectiveKind::ANALYZE => analysis_targets(encode_utf8_of(lower_of(d.payload))),
        DirectiveKind::EXECUTE_PLAN => seq![TargetNode::LexOrd],
        DirectiveKind::VALIDATE_OUTPUT => seq![TargetNode::LexKno, TargetNode::LexCrt],
        _ => seq![d.target_agent],
    };
    assert(base.len() > 0);
    if d.target_agent != TargetNode::LexMon && !base.contains(d.target_agent) {
        assert(base.push(d.target_agent)[base.len() as int] == d.target_agent);
    }
}

/// Whether `word` occurs in `text` at position `i`.
fn matches_at(text: &[u8], word: &[u8], i: usize) -> (r: bool)
    requires
        i + word@.len() <= text@.len(),
    ensures
        r == (text@.subrange(i as int, i + word@.len()) == word@),
{
    let n = text.len();
    let m = word.len();
    let mut j: usize = 0;
    while j < m
        invariant
            n == text@.len(),
            j <= m,
            m == word@.len(),
            i + m <= text@.len(),
            text@.subrange(i as int, i + j) == word@.subrange(0, j as int),
        decreases m - j,
    {
        if text[i + j] != word[j] {
            assert(text@.subrange(i as int, i + m)[j as int] != word@[j as int]);
            return false;
        }
        assert(text@.subrange(i as int, i + j + 1) =~= word@.subrange(0, j + 1));
        j = j + 1;
    }
    assert(word@.subrange(0, m as int) =~= word@);
    true
}

/// Whether `word` occurs in `text`.
pub fn occurs_in(text: &[u8], word: &[u8]) -> (r: bool)
    ensures
        r == occurs(text@, word@),
{
    let n = text.len();
    let m = word.len();
    if m > n {
        return false;
    }
    let mut i: usize = 0;
    while i <= n - m
        invariant
            n == text@.len(),
            m == word@.len(),
            m <= n,
            forall|k: int| 0 <= k < i ==> #[trigger] text@.subrange(k, k + m) != word@,
        decreases n - m + 1 - i,
    {
        if matches_at(text, word, i) {
            return true;
        }
        if i == n - m {
            return false;
        }
        i = i + 1;
    }
    false
}

/// Whether `text` holds one of the routing keywords of agent `a`.
fn mentions_exec(text: &[u8], a: TargetNode) -> (r: bool)
    ensures
        r == mentions(text@, a),
{
    match a {
        TargetNode::LexWth => occurs_in(text, "runway".as_bytes()) || occurs_in(text, "financial".as_bytes())
            || occurs_in(text, "wealth".as_bytes()),
        TargetNode::LexVit => occurs_in(text, "bioload".as_bytes()) || occurs_in(text, "vital".as_bytes())
            || occurs_in(text, "health".as_bytes()) || occurs_in(text, "stress".as_bytes())
            || occurs_in(text, "sleep".as_bytes()),
        TargetNode::LexEnt => occurs_in(text, "pivot".as_bytes()) || occurs_in(text, "strategy".as_bytes())
            || occurs_in(text, "enterprise".as_bytes()),
        TargetNode::LexKno => occurs_in(text, "knowledge".as_bytes()) || occurs_in(text, "information".as_bytes())
            || occurs_in(text, "data".as_bytes()),
        TargetNode::LexCrt => occurs_in(text, "create".as_bytes()) || occurs_in(text, "generate".as_bytes())
            || occurs_in(text, "output".as_bytes()),
        TargetNode::LexOrd => occurs_in(text, "plan".as_bytes()) || occurs_in(text, "schedule".as_bytes())
            || occurs_in(text, "logistics".as_bytes()),
        TargetNode::LexKin => occurs_in(text, "social".as_bytes()) || occurs_in(text, "relationship".as_bytes())
            || occurs_in(text, "kinship".as_bytes()),
        TargetNode::LexGrw => occurs_in(text, "learn".as_bytes()) || occurs_in(text, "growth".as_bytes())
            || occurs_in(text, "capability".as_bytes()),
        TargetNode::LexSan => occurs_in(text, "environment".as_bytes()) || occurs_in(text, "sanctuary".as_bytes())
            || occurs_in(text, "infrastructure".as_bytes()),
        TargetNode::LexLei => occurs_in(text, "leisure".as_bytes()) || occurs_in(text, "recovery".as_bytes())
            || occurs_in(text, "restoration".as_bytes()),
        TargetNode::LexOut => occurs_in(text, "communication".as_bytes()) || occurs_in(text, "influence".as_bytes())
            || occurs_in(text, "outreach".as_bytes()),
        TargetNode::LexLeg => occurs_in(text, "legacy".as_bytes()) || occurs_in(text, "history".as_bytes())
            || occurs_in(text, "meta".as_bytes()),
        TargetNode::LexMon => false,
    }
}

fn category_at(i: usize) -> (r: TargetNode)
    requires
        i < 12,
    ensures
        r == category_order()[i as int],
{
    if i == 0 {
        TargetNode::LexWth
    } else if i == 1 {
        TargetNode::LexVit
    } else if i == 2 {
        TargetNode::LexEnt
    } else if i == 3 {
        TargetNode::LexKno
    } else if i == 4 {
        TargetNode::LexCrt
    } else if i == 5 {
        TargetNode::LexOrd
    } else if i == 6 {
        TargetNode::LexKin
    } else if i == 7 {
        TargetNode::LexGrw
    } else if i == 8 {
        TargetNode::LexSan
    } else if i == 9 {
        TargetNode::LexLei
    } else if i == 10 {
        TargetNode::LexOut
    } else {
        TargetNode::LexLeg
    }
}

/// The analysis targets of an already lower-cased payload text.
pub fn determine_analysis_targets(payload: &str) -> (r: Vec<TargetNode>)
    ensures
        r@ == analysis_targets(payload.spec_bytes()),
{
    let text = payload.as_bytes();
    let mut targets: Vec<TargetNode> = Vec::new();
    let mut i: usize = 0;
    while i < 12
        invariant
            i <= 12,
            text@ == payload.spec_bytes(),
            targets@ == hits_upto(text@, i as nat),
        decreases 12 - i,
    {
        let a = category_at(i);
        if mentions_exec(text, a) {
            targets.push(a);
        }
        i = i + 1;
    }
    if targets.len() == 0 {
        targets.push(TargetNode::LexKno);
    }
    targets
}

fn contains_node(v: &Vec<TargetNode>, a: TargetNode) -> (r: bool)
    ensures
        r == v@.contains(a),
{
    let mut i: usize = 0;
    while i < v.len()
        invariant
            i <= v@.len(),
            forall|k: int| 0 <= k < i ==> v@[k] != a,
        decreases v@.len() - i,
    {
        if v[i] == a {
            assert(v@[i as int] == a);
            return true;
        }
        i = i + 1;
    }
    false
}

/// The agents that must receive `d`.
pub fn route(d: &BarkDirective) -> (r: Vec<TargetNode>)
    ensures
        r@ == routed(d@),
        r@.no_duplicates(),
{
    proof {
        lemma_routed_distinct(d@);
    }
    let mut base: Vec<TargetNode> = match d.kind {
        DirectiveKind::ANALYZE => {
            let lowered = lowercase(d.payload.as_str());
            let t = determine_analysis_targets(lowered.as_str());
            assert(t@ == analysis_targets(encode_utf8_of(lower_of(d@.payload))));
            t
        },
        DirectiveKind::EXECUTE_PLAN => vec![TargetNode::LexOrd],
        DirectiveKind::VALIDATE_OUTPUT => vec![TargetNode::LexKno, TargetNode::LexCrt],
        _ => vec![d.target_agent],
    };
    assert(base@ =~= match d.kind {
        DirectiveKind::ANALYZE => analysis_targets(encode_utf8_of(lower_of(d@.payload))),
        DirectiveKind::EXECUTE_PLAN => seq![TargetNode::LexOrd],
        DirectiveKind::VALIDATE_OUTPUT => seq![TargetNode::LexKno, TargetNode::LexCrt],
        _ => seq![d.target_agent],
    });
    if d.target_agent != TargetNode::LexMon && !contains_node(&base, d.target_agent) {
        base.push(d.target_agent);
    }
    base
}

} // verus!
