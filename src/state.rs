//! Deterministic state-space recurrence per agent, with an append-only
//! history and an immutable ledger of converged states.
//!
//! Values are fixed-point numbers in millionths: the integer 1_000_000 stands
//! for 1.0. Every update computes `h_t = A·h_(t-1) + B·u_t`, truncates toward
//! zero to whole millionths and clamps each component to [-10.0, 10.0].

use vstd::prelude::*;
use vstd::string::StringSliceAdditionalSpecFns;
use crate::protocol::{fresh_uuid, unix_millis};

verus! {

/// One unit of the fixed-point scale.
pub const SCALE: i64 = 1_000_000;

/// Largest magnitude of a state component (10.0).
pub const STATE_BOUND: i64 = 10_000_000;

/// Largest magnitude of a transition coefficient that a ledger may hold.
pub const TRANSITION_BOUND: i64 = 100_000_000_000_000;

/// Largest magnitude of a control coefficient that a ledger may hold.
pub const CONTROL_BOUND: i64 = 1_000_000_000;

/// Largest state or input dimension: matrix indices fit in 32 bits. A
/// matrix with that many rows already needs more than 2^64 bytes.
pub const MAX_DIM: usize = 4_294_967_295;

/// The convergence threshold of a fresh registration: one millionth.
pub const CONVERGENCE_THRESHOLD: i64 = 1;

// ---------------------------------------------------------------------------
// Data

/// The latent state of an agent at one point in time.
#[derive(Debug)]
pub struct StateVector {
    pub node_id: u128,
    pub timestamp: i64,
    pub state_data: Vec<i64>,
    pub hidden_state: Vec<i64>,
    pub control_input: Vec<i64>,
    pub state_id: u128,
}

pub struct VectorModel {
    pub node_id: u128,
    pub timestamp: i64,
    pub state: Seq<i64>,
    pub hidden: Seq<i64>,
    pub control: Seq<i64>,
    pub state_id: u128,
}

impl View for StateVector {
    type V = VectorModel;

    open spec fn view(&self) -> VectorModel {
        VectorModel {
            node_id: self.node_id,
            timestamp: self.timestamp,
            state: self.state_data@,
            hidden: self.hidden_state@,
            control: self.control_input@,
            state_id: self.state_id,
        }
    }
}

pub open spec fn rows_of(m: Seq<Vec<i64>>) -> Seq<Seq<i64>> {
    m.map_values(|r: Vec<i64>| r@)
}

/// The transition matrix A, `size` by `size`.
#[derive(Debug)]
pub struct TransitionMatrix {
    pub matrix: Vec<Vec<i64>>,
    pub size: usize,
}

/// The control matrix B, `state_size` rows of `input_size` columns.
#[derive(Debug)]
pub struct ControlMatrix {
    pub matrix: Vec<Vec<i64>>,
    pub input_size: usize,
    pub state_size: usize,
}

/// One agent's state-space model and current state.
#[derive(Debug)]
pub struct NodeState {
    pub node_type: String,
    pub current_state: StateVector,
    pub transition_matrix: TransitionMatrix,
    pub control_matrix: ControlMatrix,
    pub last_update: i64,
    pub convergence_threshold: i64,
    /// Always zero: no stochastic perturbation anywhere in the update.
    pub temperature: i64,
}

pub struct NodeModel {
    pub node_type: Seq<char>,
    pub current: VectorModel,
    pub a: Seq<Seq<i64>>,
    pub a_size: usize,
    pub b: Seq<Seq<i64>>,
    pub b_inputs: usize,
    pub b_states: usize,
    pub last_update: i64,
    pub threshold: i64,
    pub temperature: i64,
}

impl View for NodeState {
    type V = NodeModel;

    open spec fn view(&self) -> NodeModel {
        NodeModel {
            node_type: self.node_type@,
            current: self.current_state@,
            a: rows_of(self.transition_matrix.matrix@),
            a_size: self.transition_matrix.size,
            b: rows_of(self.control_matrix.matrix@),
            b_inputs: self.control_matrix.input_size,
            b_states: self.control_matrix.state_size,
            last_update: self.last_update,
            threshold: self.convergence_threshold,
            temperature: self.temperature,
        }
    }
}

/// A registered agent-state instance and its owner id.
#[derive(Debug)]
pub struct StateEntry {
    pub owner: u128,
    pub state: NodeState,
}

/// Every registered instance, every state ever produced, and the converged
/// states.
#[derive(Debug)]
pub struct StateLedger {
    pub states: Vec<StateEntry>,
    pub state_history: Vec<StateVector>,
    pub immutable_ledger: Vec<StateVector>,
}

pub struct LedgerModel {
    pub states: Seq<(u128, NodeModel)>,
    pub history: Seq<VectorModel>,
    pub immutable: Seq<VectorModel>,
}

impl View for StateLedger {
    type V = LedgerModel;

    open spec fn view(&self) -> LedgerModel {
        LedgerModel {
            states: self.states@.map_values(|e: StateEntry| (e.owner, e.state@)),
            history: self.state_history@.map_values(|v: StateVector| v@),
            immutable: self.immutable_ledger@.map_values(|v: StateVector| v@),
        }
    }
}

/// Errors of the state engine.
#[derive(Debug, Clone, Copy, PartialEq, Eq, Structural)]
pub enum StateError {
    UnknownStateOwner,
    DuplicateStateOwner,
    DimensionTooLarge,
    SerializationFault,
}

// ---------------------------------------------------------------------------
// Well-formedness

pub open spec fn matrix_wf(m: Seq<Seq<i64>>, rows: nat, cols: nat, bound: int) -> bool {
    &&& m.len() == rows
    &&& forall|i: int| 0 <= i < rows ==> #[trigger] m[i].len() == cols
    &&& forall|i: int, j: int| 0 <= i < rows && 0 <= j < cols ==> -bound <= #[trigger] m[i][j] <= bound
}

pub open spec fn bounded_state(h: Seq<i64>) -> bool {
    forall|i: int| 0 <= i < h.len() ==> -STATE_BOUND <= #[trigger] h[i] <= STATE_BOUND
}

pub open spec fn node_wf(x: NodeModel) -> bool {
    &&& x.a_size == x.current.state.len()
    &&& x.b_states == x.a_size
    &&& x.a_size <= MAX_DIM
    &&& x.b_inputs <= MAX_DIM
    &&& matrix_wf(x.a, x.a_size as nat, x.a_size as nat, TRANSITION_BOUND as int)
    &&& matrix_wf(x.b, x.a_size as nat, x.b_inputs as nat, CONTROL_BOUND as int)
    &&& bounded_state(x.current.state)
    &&& x.threshold >= 1
    &&& x.temperature == 0
}

pub open spec fn owners_unique(s: Seq<(u128, NodeModel)>) -> bool {
    forall|i: int, j: int| 0 <= i < j < s.len() ==> (#[trigger] s[i]).0 != (#[trigger] s[j]).0
}

pub open spec fn ledger_wf(l: LedgerModel) -> bool {
    &&& owners_unique(l.states)
    &&& forall|i: int| 0 <= i < l.states.len() ==> node_wf(#[trigger] l.states[i].1)
}

/// Position of `owner` among the registered instances, or -1.
pub open spec fn index_of(s: Seq<(u128, NodeModel)>, owner: u128) -> int {
    if exists|i: int| 0 <= i < s.len() && (#[trigger] s[i]).0 == owner {
        choose|i: int| 0 <= i < s.len() && (#[trigger] s[i]).0 == owner
    } else {
        -1
    }
}

// ---------------------------------------------------------------------------
// The recurrence

/// `sum_{j < k} row[j] * v[j]`.
pub open spec fn dot(row: Seq<i64>, v: Seq<i64>, k: int) -> int
    decreases k,
{
    if k <= 0 {
        0
    } else {
        dot(row, v, k - 1) + row[k - 1] * v[k - 1]
    }
}

/// Division by a positive divisor, rounded toward zero.
pub open spec fn trunc_div(x: int, d: int) -> int {
    if x >= 0 {
        x / d
    } else {
        -((-x) / d)
    }
}

pub open spec fn clamp_state(x: int) -> int {
    if x > STATE_BOUND {
        STATE_BOUND as int
    } else if x < -STATE_BOUND {
        -STATE_BOUND as int
    } else {
        x
    }
}

pub open spec fn min_len(a: int, b: int) -> int {
    if a < b {
        a
    } else {
        b
    }
}

/// Component `i` of `A·h + B·u`, rescaled and clamped. Inputs beyond B's
/// columns are ignored and missing inputs count as zero.
pub open spec fn next_component(a: Seq<Seq<i64>>, b: Seq<Seq<i64>>, h: Seq<i64>, u: Seq<i64>, i: int) -> int {
    clamp_state(
        trunc_div(dot(a[i], h, h.len() as int) + dot(b[i], u, min_len(u.len() as int, b[i].len() as int)), SCALE as int),
    )
}

pub open spec fn next_state(a: Seq<Seq<i64>>, b: Seq<Seq<i64>>, h: Seq<i64>, u: Seq<i64>) -> Seq<i64> {
    Seq::new(h.len(), |i: int| next_component(a, b, h, u, i) as i64)
}

/// Every component moved by less than the threshold.
/// The largest change over the components both vectors have (zero when
/// there are none) is below the threshold.
pub open spec fn converged(prev: Seq<i64>, next: Seq<i64>, threshold: i64) -> bool {
    &&& 0 < threshold
    &&& forall|i: int|
        0 <= i < min_len(prev.len() as int, next.len() as int) ==> -threshold < #[trigger] next[i] - prev[i]
            < threshold
}

/// Entry `(i, j)` of the transition matrix of a fresh registration:
/// 0.98 + 0.0001·i on the diagonal, 0.01·(i + 1) just above it.
pub open spec fn transition_entry(i: int, j: int) -> i64 {
    if i == j {
        (980_000 + 100 * i) as i64
    } else if j == i + 1 {
        (10_000 * (i + 1)) as i64
    } else {
        0
    }
}

/// Entry `(i, j)` of the control matrix of a fresh registration:
/// 0.1 on the diagonal, 0.02·(i + j)/(n + m) elsewhere.
pub open spec fn control_entry(n: int, m: int, i: int, j: int) -> i64 {
    if i == j {
        100_000
    } else {
        ((20_000 * (i + j)) / (n + m)) as i64
    }
}

pub open spec fn transition_for(n: nat) -> Seq<Seq<i64>> {
    Seq::new(n, |i: int| Seq::new(n, |j: int| transition_entry(i, j)))
}

pub open spec fn control_for(n: nat, m: nat) -> Seq<Seq<i64>> {
    Seq::new(n, |i: int| Seq::new(m, |j: int| control_entry(n as int, m as int, i, j)))
}

pub open spec fn zeros(n: nat) -> Seq<i64> {
    Seq::new(n, |i: int| 0i64)
}

/// The state after feeding `us`, in order, to a fresh registration of sizes
/// `n` and `m`.
pub open spec fn trajectory(n: nat, m: nat, us: Seq<Seq<i64>>) -> Seq<i64>
    decreases us.len(),
{
    if us.len() == 0 {
        zeros(n)
    } else {
        next_state(transition_for(n), control_for(n, m), trajectory(n, m, us.drop_last()), us.last())
    }
}

/// The model of a fresh registration.
pub open spec fn registered(node_type: Seq<char>, owner: u128, n: usize, m: usize, state_id: u128, now: i64) -> NodeModel {
    NodeModel {
        node_type,
        current: VectorModel {
            node_id: owner,
            timestamp: now,
            state: zeros(n as nat),
            hidden: zeros(n as nat),
            control: zeros(m as nat),
            state_id,
        },
        a: transition_for(n as nat),
        a_size: n,
        b: control_for(n as nat, m as nat),
        b_inputs: m,
        b_states: n,
        last_update: now,
        threshold: CONVERGENCE_THRESHOLD,
        temperature: 0,
    }
}

/// The vector that an update of instance `x` with input `u` produces.
pub open spec fn next_vector(x: NodeModel, owner: u128, u: Seq<i64>, state_id: u128, now: i64) -> VectorModel {
    VectorModel {
        node_id: owner,
        timestamp: now,
        state: next_state(x.a, x.b, x.current.state, u),
        hidden: x.current.hidden,
        control: u,
        state_id,
    }
}

/// The ledger after updating the instance at position `k` with input `u`.
pub open spec fn apply_update(l: LedgerModel, k: int, u: Seq<i64>, state_id: u128, now: i64) -> LedgerModel {
    let owner = l.states[k].0;
    let x = l.states[k].1;
    let v = next_vector(x, owner, u, state_id, now);
    LedgerModel {
        states: l.states.update(k, (owner, NodeModel { current: v, last_update: now, ..x })),
        history: l.history.push(v),
        immutable: if converged(x.current.state, v.state, x.threshold) {
            l.immutable.push(v)
        } else {
            l.immutable
        },
    }
}

// ---------------------------------------------------------------------------
// Executable pieces

fn copy_values(v: &Vec<i64>) -> (r: Vec<i64>)
    ensures
        r@ == v@,
{
    let mut out: Vec<i64> = Vec::new();
    let mut i: usize = 0;
    while i < v.len()
        invariant
            i <= v@.len(),
            out@ == v@.subrange(0, i as int),
        decreases v@.len() - i,
    {
        out.push(v[i]);
        assert(v@.subrange(0, i + 1) =~= v@.subrange(0, i as int).push(v@[i as int]));
        i = i + 1;
    }
    assert(v@.subrange(0, v@.len() as int) =~= v@);
    out
}

fn copy_vector(v: &StateVector) -> (r: StateVector)
    ensures
        r@ == v@,
{
    StateVector {
        node_id: v.node_id,
        timestamp: v.timestamp,
        state_data: copy_values(&v.state_data),
        hidden_state: copy_values(&v.hidden_state),
        control_input: copy_values(&v.control_input),
        state_id: v.state_id,
    }
}

fn zero_values(n: usize) -> (r: Vec<i64>)
    ensures
        r@ == zeros(n as nat),
{
    let mut out: Vec<i64> = Vec::new();
    let mut i: usize = 0;
    while i < n
        invariant
            i <= n,
            out@ =~= zeros(i as nat),
        decreases n - i,
    {
        out.push(0);
        i = i + 1;
    }
    out
}

/// The transition matrix of a fresh registration of size `n`.
fn create_deterministic_transition_matrix(n: usize) -> (r: TransitionMatrix)
    requires
        n <= MAX_DIM,
    ensures
        rows_of(r.matrix@) == transition_for(n as nat),
        r.size == n,
{
    let mut rows: Vec<Vec<i64>> = Vec::new();
    let mut i: usize = 0;
    while i < n
        invariant
            i <= n <= MAX_DIM,
            rows@.len() == i,
            forall|k: int| 0 <= k < i ==> (#[trigger] rows@[k])@ == transition_for(n as nat)[k],
        decreases n - i,
    {
        let mut row: Vec<i64> = Vec::new();
        let mut j: usize = 0;
        while j < n
            invariant
                i < n <= MAX_DIM,
                j <= n,
                row@.len() == j,
                forall|l: int| 0 <= l < j ==> row@[l] == transition_entry(i as int, l),
            decreases n - j,
        {
            let x: i64 = if i == j {
                980_000 + 100 * (i as i64)
            } else if j == i + 1 {
                10_000 * ((i + 1) as i64)
            } else {
                0
            };
            row.push(x);
            j = j + 1;
        }
        assert(row@ =~= transition_for(n as nat)[i as int]);
        rows.push(row);
        i = i + 1;
    }
    assert(rows_of(rows@) =~= transition_for(n as nat));
    TransitionMatrix { matrix: rows, size: n }
}

/// The control matrix of a fresh registration with `n` states and `m` inputs.
fn create_control_matrix(n: usize, m: usize) -> (r: ControlMatrix)
    requires
        n <= MAX_DIM,
        m <= MAX_DIM,
    ensures
        rows_of(r.matrix@) == control_for(n as nat, m as nat),
        r.input_size == m,
        r.state_size == n,
{
    let mut rows: Vec<Vec<i64>> = Vec::new();
    let mut i: usize = 0;
    while i < n
        invariant
            i <= n <= MAX_DIM,
            m <= MAX_DIM,
            rows@.len() == i,
            forall|k: int| 0 <= k < i ==> (#[trigger] rows@[k])@ == control_for(n as nat, m as nat)[k],
        decreases n - i,
    {
        let mut row: Vec<i64> = Vec::new();
        let mut j: usize = 0;
        while j < m
            invariant
                i < n <= MAX_DIM,
                j <= m <= MAX_DIM,
                row@.len() == j,
                forall|l: int| 0 <= l < j ==> row@[l] == control_entry(n as int, m as int, i as int, l),
            decreases m - j,
        {
            let x: i64 = if i == j {
                100_000
            } else {
                (20_000 * (i as i64 + j as i64)) / (n as i64 + m as i64)
            };
            row.push(x);
            j = j + 1;
        }
        assert(row@ =~= control_for(n as nat, m as nat)[i as int]);
        rows.push(row);
        i = i + 1;
    }
    assert(rows_of(rows@) =~= control_for(n as nat, m as nat));
    ControlMatrix { matrix: rows, input_size: m, state_size: n }
}

proof fn lemma_registered_wf(node_type: Seq<char>, owner: u128, n: usize, m: usize, state_id: u128, now: i64)
    requires
        n <= MAX_DIM,
        m <= MAX_DIM,
    ensures
        node_wf(registered(node_type, owner, n, m, state_id, now)),
{
    let x = registered(node_type, owner, n, m, state_id, now);
    assert forall|i: int, j: int| 0 <= i < n && 0 <= j < n implies -TRANSITION_BOUND <= #[trigger] x.a[i][j]
        <= TRANSITION_BOUND by {
        assert(x.a[i][j] == transition_entry(i, j));
    }
    assert forall|i: int, j: int| 0 <= i < n && 0 <= j < m implies -CONTROL_BOUND <= #[trigger] x.b[i][j]
        <= CONTROL_BOUND by {
        assert(x.b[i][j] == control_entry(n as int, m as int, i, j));
        if i != j {
            assert(0 <= 20_000 * (i + j) / (n + m) <= 20_000) by (nonlinear_arith)
                requires
                    0 <= i < n,
                    0 <= j < m,
            ;
        }
    }
}

/// `h_t = A·h_(t-1) + B·u_t`, truncated to whole millionths and clamped.
fn compute_next_state(a: &Vec<Vec<i64>>, b: &Vec<Vec<i64>>, m: usize, h: &Vec<i64>, u: &Vec<i64>) -> (r: Vec<i64>)
    requires
        h@.len() <= MAX_DIM,
        m <= MAX_DIM,
        matrix_wf(rows_of(a@), h@.len() as nat, h@.len() as nat, TRANSITION_BOUND as int),
        matrix_wf(rows_of(b@), h@.len() as nat, m as nat, CONTROL_BOUND as int),
        bounded_state(h@),
    ensures
        r@ == next_state(rows_of(a@), rows_of(b@), h@, u@),
        bounded_state(r@),
{
    let n = h.len();
    let ghost ra = rows_of(a@);
    let ghost rb = rows_of(b@);
    let mut out: Vec<i64> = Vec::new();
    let mut i: usize = 0;
    while i < n
        invariant
            n == h@.len() <= MAX_DIM,
            m <= MAX_DIM,
            ra == rows_of(a@),
            rb == rows_of(b@),
            matrix_wf(ra, n as nat, n as nat, TRANSITION_BOUND as int),
            matrix_wf(rb, n as nat, m as nat, CONTROL_BOUND as int),
            bounded_state(h@),
            i <= n,
            out@.len() == i,
            forall|k: int| 0 <= k < i ==> #[trigger] out@[k] == next_component(ra, rb, h@, u@, k),
        decreases n - i,
    {
        let row = &a[i];
        assert(ra[i as int] == row@);
        let mut acc: i128 = 0;
        let mut j: usize = 0;
        while j < n
            invariant
                n == h@.len() <= MAX_DIM,
                i < n,
                row@ == ra[i as int],
                matrix_wf(ra, n as nat, n as nat, TRANSITION_BOUND as int),
                bounded_state(h@),
                j <= n,
                acc == dot(row@, h@, j as int),
                -(j as int) * 1_000_000_000_000_000_000_000 <= acc <= (j as int) * 1_000_000_000_000_000_000_000,
            decreases n - j,
        {
            let x = row[j];
            let y = h[j];
            proof {
                assert(-TRANSITION_BOUND <= ra[i as int][j as int] <= TRANSITION_BOUND);
                assert(-1_000_000_000_000_000_000_000 <= x * y <= 1_000_000_000_000_000_000_000) by (nonlinear_arith)
                    requires
                        -100_000_000_000_000 <= x <= 100_000_000_000_000,
                        -10_000_000 <= y <= 10_000_000,
                ;
            }
            acc = acc + (x as i128) * (y as i128);
            j = j + 1;
        }
        let brow = &b[i];
        assert(rb[i as int] == brow@);
        let k = if u.len() < brow.len() {
            u.len()
        } else {
            brow.len()
        };
        let ghost base = acc;
        let mut j: usize = 0;
        while j < k
            invariant
                i < n <= MAX_DIM,
                m <= MAX_DIM,
                brow@ == rb[i as int],
                matrix_wf(rb, n as nat, m as nat, CONTROL_BOUND as int),
                k <= u@.len(),
                k <= brow@.len(),
                j <= k,
                -(n as int) * 1_000_000_000_000_000_000_000 <= base <= (n as int) * 1_000_000_000_000_000_000_000,
                acc == base + dot(brow@, u@, j as int),
                -(j as int) * 10_000_000_000_000_000_000_000_000_000 <= acc - base
                    <= (j as int) * 10_000_000_000_000_000_000_000_000_000,
            decreases k - j,
        {
            let x = brow[j];
            let y = u[j];
            proof {
                assert(-CONTROL_BOUND <= rb[i as int][j as int] <= CONTROL_BOUND);
                assert(-10_000_000_000_000_000_000_000_000_000 <= x * y <= 10_000_000_000_000_000_000_000_000_000)
                    by (nonlinear_arith)
                    requires
                        -1_000_000_000 <= x <= 1_000_000_000,
                        -9_223_372_036_854_775_808 <= y <= 9_223_372_036_854_775_807,
                ;
            }
            acc = acc + (x as i128) * (y as i128);
            j = j + 1;
        }
        let scaled: i128 = if acc >= 0 {
            acc / 1_000_000
        } else {
            -((-acc) / 1_000_000)
        };
        let v: i64 = if scaled > 10_000_000 {
            10_000_000
        } else if scaled < -10_000_000 {
            -10_000_000
        } else {
            scaled as i64
        };
        assert(v == next_component(ra, rb, h@, u@, i as int));
        out.push(v);
        i = i + 1;
    }
    assert(out@ =~= next_state(ra, rb, h@, u@));
    out
}

/// Whether every component moved by less than `threshold`.
fn check_convergence(prev: &Vec<i64>, next: &Vec<i64>, threshold: i64) -> (r: bool)
    ensures
        r == converged(prev@, next@, threshold),
{
    if threshold <= 0 {
        return false;
    }
    let k: usize = if prev.len() < next.len() {
        prev.len()
    } else {
        next.len()
    };
    let mut i: usize = 0;
    while i < k
        invariant
            k == min_len(prev@.len() as int, next@.len() as int),
            threshold > 0,
            i <= k,
            forall|k: int| 0 <= k < i ==> -threshold < #[trigger] next@[k] - prev@[k] < threshold,
        decreases k - i,
    {
        let d: i128 = next[i] as i128 - prev[i] as i128;
        if d <= -(threshold as i128) || d >= threshold as i128 {
            return false;
        }
        i = i + 1;
    }
    true
}

// ---------------------------------------------------------------------------
// The engine

/// Owns the ledger of one process.
pub struct StateManager {
    pub ledger: StateLedger,
    pub deterministic_mode: bool,
}

impl StateManager {
    pub open spec fn wf(&self) -> bool {
        ledger_wf(self.ledger@)
    }

    /// An engine with an empty ledger.
    pub fn new() -> (r: StateManager)
        ensures
            r.wf(),
            r.ledger@.states.len() == 0,
            r.ledger@.history.len() == 0,
            r.ledger@.immutable.len() == 0,
            r.deterministic_mode,
    {
        let r = StateManager {
            ledger: StateLedger { states: Vec::new(), state_history: Vec::new(), immutable_ledger: Vec::new() },
            deterministic_mode: true,
        };
        assert(r.ledger@.states =~= Seq::empty());
        r
    }

    /// Position of `owner` in the ledger, if registered.
    pub fn find(&self, owner: u128) -> (r: Option<usize>)
        requires
            self.wf(),
        ensures
            r is None <==> index_of(self.ledger@.states, owner) == -1,
            r matches Some(k) ==> k == index_of(self.ledger@.states, owner) && k < self.ledger@.states.len(),
            index_of(self.ledger@.states, owner) == -1 || (0 <= index_of(self.ledger@.states, owner) < self.ledger@.states.len()
                && self.ledger@.states[index_of(self.ledger@.states, owner)].0 == owner),
    {
        let ghost s = self.ledger@.states;
        let mut i: usize = 0;
        while i < self.ledger.states.len()
            invariant
                s == self.ledger@.states,
                owners_unique(s),
                i <= s.len(),
                forall|k: int| 0 <= k < i ==> (#[trigger] s[k]).0 != owner,
            decreases s.len() - i,
        {
            if self.ledger.states[i].owner == owner {
                proof {
                    assert(s[i as int].0 == owner);
                    let c = index_of(s, owner);
                    assert(s[c].0 == owner);
                    assert(owners_unique(s));
                    if c != i as int {
                        assert(s[c].0 != s[i as int].0);
                    }
                }
                return Some(i);
            }
            i = i + 1;
        }
        None
    }

    /// Registers an instance under a given owner id, with matrices that
    /// depend on the sizes alone and a zero state.
    pub fn register_node_with(
        &mut self,
        node_type: String,
        state_size: usize,
        input_size: usize,
        owner: u128,
        state_id: u128,
        now: i64,
    ) -> (r: Result<u128, StateError>)
        requires
            old(self).wf(),
        ensures
            final(self).wf(),
            final(self).deterministic_mode == old(self).deterministic_mode,
            (state_size > MAX_DIM || input_size > MAX_DIM) ==> r == Err::<u128, StateError>(
                StateError::DimensionTooLarge,
            ),
            (state_size <= MAX_DIM && input_size <= MAX_DIM && index_of(old(self).ledger@.states, owner) != -1) ==> r
                == Err::<u128, StateError>(StateError::DuplicateStateOwner),
            r is Err ==> final(self).ledger@ == old(self).ledger@,
            (state_size <= MAX_DIM && input_size <= MAX_DIM && index_of(old(self).ledger@.states, owner) == -1) ==> {
                &&& r == Ok::<u128, StateError>(owner)
                &&& final(self).ledger@ == with_registration(
                    old(self).ledger@,
                    owner,
                    registered(node_type@, owner, state_size, input_size, state_id, now),
                )
            },
    {
        if state_size > MAX_DIM || input_size > MAX_DIM {
            return Err(StateError::DimensionTooLarge);
        }
        if self.find(owner).is_some() {
            return Err(StateError::DuplicateStateOwner);
        }
        let transition_matrix = create_deterministic_transition_matrix(state_size);
        let control_matrix = create_control_matrix(state_size, input_size);
        let current_state = StateVector {
            node_id: owner,
            timestamp: now,
            state_data: zero_values(state_size),
            hidden_state: zero_values(state_size),
            control_input: zero_values(input_size),
            state_id,
        };
        let node = NodeState {
            node_type,
            current_state,
            transition_matrix,
            control_matrix,
            last_update: now,
            convergence_threshold: CONVERGENCE_THRESHOLD,
            temperature: 0,
        };
        let ghost before = self.ledger@;
        proof {
            lemma_registered_wf(node_type@, owner, state_size, input_size, state_id, now);
            assert(node@ == registered(node_type@, owner, state_size, input_size, state_id, now));
        }
        self.ledger.states.push(StateEntry { owner, state: node });
        proof {
            let s = self.ledger@.states;
            assert(s =~= before.states.push((owner, node@)));
            assert forall|i: int, j: int| 0 <= i < j < s.len() implies (#[trigger] s[i]).0 != (#[trigger] s[j]).0 by {
                if j == s.len() - 1 {
                    if s[i].0 == owner {
                        assert(before.states[i].0 == owner);
                    }
                }
            }
            assert forall|i: int| 0 <= i < s.len() implies node_wf(#[trigger] s[i].1) by {
                if i < before.states.len() {
                    assert(s[i] == before.states[i]);
                }
            }
        }
        Ok(owner)
    }

    /// Registers an instance under a fresh owner id.
    pub fn register_node(&mut self, node_type: String, state_size: usize, input_size: usize) -> (r: Result<
        u128,
        StateError,
    >)
        requires
            old(self).wf(),
        ensures
            final(self).wf(),
            (state_size > MAX_DIM || input_size > MAX_DIM) <==> r == Err::<u128, StateError>(
                StateError::DimensionTooLarge,
            ),
            state_size <= MAX_DIM && input_size <= MAX_DIM && old(self).ledger@.states.len() == 0 ==> r is Ok,
            r matches Err(e) ==> e == StateError::DimensionTooLarge || (e == StateError::DuplicateStateOwner
                && old(self).ledger@.states.len() > 0),
            r is Err ==> final(self).ledger@ == old(self).ledger@,
            r matches Ok(owner) ==> index_of(old(self).ledger@.states, owner) == -1 && (exists|state_id: u128, now: i64|
                final(self).ledger@ == with_registration(
                    old(self).ledger@,
                    owner,
                    registered(node_type@, owner, state_size, input_size, state_id, now),
                )),
    {
        let owner = fresh_uuid();
        let state_id = fresh_uuid();
        let now = unix_millis();
        let ghost kind = node_type@;
        let r = self.register_node_with(node_type, state_size, input_size, owner, state_id, now);
        proof {
            if old(self).ledger@.states.len() == 0 {
                lemma_index_of_empty(old(self).ledger@.states, owner);
            }
            if r is Ok {
                assert(self.ledger@ == with_registration(
                    old(self).ledger@,
                    owner,
                    registered(kind, owner, state_size, input_size, state_id, now),
                ));
                assert(exists|sid: u128, t: i64|
                    self.ledger@ == with_registration(
                        old(self).ledger@,
                        owner,
                        registered(kind, owner, state_size, input_size, sid, t),
                    ));
            }
        }
        r
    }

    /// Feeds `control_input` to the instance of `owner`, stamping the new
    /// vector with `state_id` and `now`; unknown owners are an error.
    pub fn update_state_with(&mut self, owner: u128, control_input: Vec<i64>, state_id: u128, now: i64) -> (r: Result<
        StateVector,
        StateError,
    >)
        requires
            old(self).wf(),
        ensures
            final(self).wf(),
            final(self).deterministic_mode == old(self).deterministic_mode,
            index_of(old(self).ledger@.states, owner) == -1 <==> r is Err,
            r matches Err(e) ==> e == StateError::UnknownStateOwner && final(self).ledger@ == old(self).ledger@,
            r matches Ok(v) ==> {
                let k = index_of(old(self).ledger@.states, owner);
                &&& final(self).ledger@ == apply_update(old(self).ledger@, k, control_input@, state_id, now)
                &&& v@ == next_vector(old(self).ledger@.states[k].1, owner, control_input@, state_id, now)
            },
    {
        let found = self.find(owner);
        let k = match found {
            None => {
                return Err(StateError::UnknownStateOwner);
            },
            Some(k) => k,
        };
        let ghost before = self.ledger@;
        let ghost x = before.states[k as int].1;
        let mut entry = self.ledger.states.remove(k);
        assert(entry.state@ == x && entry.owner == owner);
        let next = compute_next_state(
            &entry.state.transition_matrix.matrix,
            &entry.state.control_matrix.matrix,
            entry.state.control_matrix.input_size,
            &entry.state.current_state.state_data,
            &control_input,
        );
        let is_converged = check_convergence(
            &entry.state.current_state.state_data,
            &next,
            entry.state.convergence_threshold,
        );
        let v = StateVector {
            node_id: owner,
            timestamp: now,
            state_data: next,
            hidden_state: copy_values(&entry.state.current_state.hidden_state),
            control_input,
            state_id,
        };
        assert(v@ == next_vector(x, owner, v.control_input@, state_id, now));
        let for_history = copy_vector(&v);
        let result = copy_vector(&v);
        if is_converged {
            let for_ledger = copy_vector(&v);
            self.ledger.immutable_ledger.push(for_ledger);
        }
        entry.state.current_state = v;
        entry.state.last_update = now;
        let ghost new_x = entry.state@;
        self.ledger.states.insert(k, entry);
        self.ledger.state_history.push(for_history);
        proof {
            let s = self.ledger@.states;
            assert(s =~= before.states.update(k as int, (owner, new_x)));
            assert(self.ledger@.history =~= before.history.push(result@));
            if is_converged {
                assert(self.ledger@.immutable =~= before.immutable.push(result@));
            } else {
                assert(self.ledger@.immutable =~= before.immutable);
            }
            assert forall|i: int, j: int| 0 <= i < j < s.len() implies (#[trigger] s[i]).0 != (#[trigger] s[j]).0 by {
                assert(s[i].0 == before.states[i].0);
                assert(s[j].0 == before.states[j].0);
            }
            assert forall|i: int| 0 <= i < s.len() implies node_wf(#[trigger] s[i].1) by {
                if i != k {
                    assert(s[i] == before.states[i]);
                }
            }
        }
        Ok(result)
    }

    /// Feeds `control_input` to the instance of `owner`; the new vector gets
    /// a fresh id and the current time.
    pub fn update_state(&mut self, owner: u128, control_input: Vec<i64>) -> (r: Result<StateVector, StateError>)
        requires
            old(self).wf(),
        ensures
            final(self).wf(),
            index_of(old(self).ledger@.states, owner) == -1 <==> r is Err,
            r matches Err(e) ==> e == StateError::UnknownStateOwner && final(self).ledger@ == old(self).ledger@,
            r matches Ok(v) ==> {
                let k = index_of(old(self).ledger@.states, owner);
                &&& final(self).ledger@ == apply_update(old(self).ledger@, k, control_input@, v.state_id, v.timestamp)
                &&& v@ == next_vector(old(self).ledger@.states[k].1, owner, control_input@, v.state_id, v.timestamp)
            },
    {
        let state_id = fresh_uuid();
        let now = unix_millis();
        self.update_state_with(owner, control_input, state_id, now)
    }

    /// The instance of `owner`.
    pub fn get_node_state(&self, owner: u128) -> (r: Result<&NodeState, StateError>)
        requires
            self.wf(),
        ensures
            index_of(self.ledger@.states, owner) == -1 <==> r is Err,
            r matches Err(e) ==> e == StateError::UnknownStateOwner,
            r matches Ok(x) ==> x@ == self.ledger@.states[index_of(self.ledger@.states, owner)].1,
    {
        match self.find(owner) {
            None => Err(StateError::UnknownStateOwner),
            Some(k) => Ok(&self.ledger.states[k].state),
        }
    }

    /// The converged states, oldest first.
    pub fn get_immutable_ledger(&self) -> (r: &[StateVector])
        ensures
            r@.map_values(|v: StateVector| v@) == self.ledger@.immutable,
    {
        self.ledger.immutable_ledger.as_slice()
    }
}

impl Default for StateManager {
    fn default() -> (r: StateManager)
        ensures
            r.wf(),
            r.ledger@.states.len() == 0,
            r.ledger@.history.len() == 0,
            r.ledger@.immutable.len() == 0,
            r.deterministic_mode,
    {
        StateManager::new()
    }
}

/// The preset initial values of the agent kinds that have one, in millionths.
pub open spec fn preset_for(kind: Seq<u8>) -> Option<Seq<i64>> {
    if kind == "LEX-VIT".spec_bytes() {
        Some(seq![72_000_000i64, 65_000_000, 25_000_000, 85_000_000])
    } else if kind == "LEX-WTH".spec_bytes() {
        Some(seq![6_000_000i64, 45_000_000_000, -2_500_000_000i64, 3_200_000_000])
    } else if kind == "LEX-MON".spec_bytes() {
        Some(seq![15_000_000i64, 95_000_000, 0, 0])
    } else {
        None
    }
}

fn same_bytes(a: &[u8], b: &[u8]) -> (r: bool)
    ensures
        r == (a@ == b@),
{
    if a.len() != b.len() {
        return false;
    }
    let mut i: usize = 0;
    while i < a.len()
        invariant
            a@.len() == b@.len(),
            i <= a@.len(),
            a@.subrange(0, i as int) == b@.subrange(0, i as int),
        decreases a@.len() - i,
    {
        if a[i] != b[i] {
            return false;
        }
        assert(a@.subrange(0, i + 1) =~= b@.subrange(0, i + 1));
        i = i + 1;
    }
    assert(a@ =~= a@.subrange(0, a@.len() as int));
    assert(b@ =~= b@.subrange(0, b@.len() as int));
    true
}

/// Initial values for an agent kind: the first `size` (at most four) preset
/// values of a kind that has presets, else `size` zeros. Millionths.
pub fn generate_deterministic_init(size: usize, node_type: &str) -> (r: Vec<i64>)
    ensures
        r@ == match preset_for(node_type.spec_bytes()) {
            Some(p) => p.subrange(0, min_len(size as int, 4)),
            None => zeros(size as nat),
        },
{
    let t = node_type.as_bytes();
    let preset: Vec<i64> = if same_bytes(t, "LEX-VIT".as_bytes()) {
        vec![72_000_000, 65_000_000, 25_000_000, 85_000_000]
    } else if same_bytes(t, "LEX-WTH".as_bytes()) {
        vec![6_000_000, 45_000_000_000, -2_500_000_000, 3_200_000_000]
    } else if same_bytes(t, "LEX-MON".as_bytes()) {
        vec![15_000_000, 95_000_000, 0, 0]
    } else {
        return zero_values(size);
    };
    let k: usize = if size < 4 {
        size
    } else {
        4
    };
    let mut out: Vec<i64> = Vec::new();
    let mut i: usize = 0;
    while i < k
        invariant
            k <= 4,
            preset@.len() == 4,
            i <= k,
            out@ == preset@.subrange(0, i as int),
        decreases k - i,
    {
        out.push(preset[i]);
        assert(preset@.subrange(0, i + 1) =~= preset@.subrange(0, i as int).push(preset@[i as int]));
        i = i + 1;
    }
    proof {
        let p = preset_for(node_type.spec_bytes());
        assert(p is Some);
        assert(preset@ =~= p->0);
    }
    out
}

/// The ledger after feeding the inputs `us`, in order, to the instance at
/// position `k`, the update `t` stamped with `stamps[t]` (state id, time).
pub open spec fn feed(l: LedgerModel, k: int, us: Seq<Seq<i64>>, stamps: Seq<(u128, i64)>) -> LedgerModel
    decreases us.len(),
{
    if us.len() == 0 || stamps.len() != us.len() {
        l
    } else {
        let prev = feed(l, k, us.drop_last(), stamps.drop_last());
        apply_update(prev, k, us.last(), stamps.last().0, stamps.last().1)
    }
}

proof fn lemma_feed_registered(
    l: LedgerModel,
    node_type: Seq<char>,
    owner: u128,
    n: usize,
    m: usize,
    state_id: u128,
    now: i64,
    us: Seq<Seq<i64>>,
    stamps: Seq<(u128, i64)>,
)
    requires
        us.len() == stamps.len(),
    ensures
        ({
            let l1 = with_registration(l, owner, registered(node_type, owner, n, m, state_id, now));
            let k = l.states.len() as int;
            let f = feed(l1, k, us, stamps);
            &&& f.states.len() == l1.states.len()
            &&& f.states[k].0 == owner
            &&& f.states[k].1.a == transition_for(n as nat)
            &&& f.states[k].1.b == control_for(n as nat, m as nat)
            &&& f.states[k].1.current.state == trajectory(n as nat, m as nat, us)
        }),
    decreases us.len(),
{
    let l1 = with_registration(l, owner, registered(node_type, owner, n, m, state_id, now));
    let k = l.states.len() as int;
    if us.len() > 0 {
        lemma_feed_registered(l, node_type, owner, n, m, state_id, now, us.drop_last(), stamps.drop_last());
        let prev = feed(l1, k, us.drop_last(), stamps.drop_last());
        assert(feed(l1, k, us, stamps) == apply_update(prev, k, us.last(), stamps.last().0, stamps.last().1));
    } else {
        assert(l1.states[k].1.current.state == zeros(n as nat));
    }
}

/// Determinism: an instance registered with `n` states and `m` inputs and
/// then fed the inputs `us` holds the state `trajectory(n, m, us)`, whatever
/// else its ledger holds and whatever ids and times stamp the updates. Two
/// engines that register the same sizes and feed the same inputs in the same
/// order therefore hold identical states after every step.
pub proof fn lemma_deterministic_engines(
    l1: LedgerModel,
    l2: LedgerModel,
    node_type: Seq<char>,
    owner1: u128,
    owner2: u128,
    n: usize,
    m: usize,
    state_id1: u128,
    state_id2: u128,
    now1: i64,
    now2: i64,
    us: Seq<Seq<i64>>,
    stamps1: Seq<(u128, i64)>,
    stamps2: Seq<(u128, i64)>,
)
    requires
        us.len() == stamps1.len(),
        us.len() == stamps2.len(),
    ensures
        ({
            let k1 = l1.states.len() as int;
            let k2 = l2.states.len() as int;
            let f1 = feed(with_registration(l1, owner1, registered(node_type, owner1, n, m, state_id1, now1)), k1, us, stamps1);
            let f2 = feed(with_registration(l2, owner2, registered(node_type, owner2, n, m, state_id2, now2)), k2, us, stamps2);
            &&& f1.states[k1].1.current.state == trajectory(n as nat, m as nat, us)
            &&& f2.states[k2].1.current.state == trajectory(n as nat, m as nat, us)
        }),
{
    lemma_feed_registered(l1, node_type, owner1, n, m, state_id1, now1, us, stamps1);
    lemma_feed_registered(l2, node_type, owner2, n, m, state_id2, now2, us, stamps2);
}

/// Convergence is lasting: for an instance with the registered threshold of
/// one millionth, once an update with some input (such as the zero input)
/// converges and is appended to the immutable ledger, the next update with
/// the same input converges too and is appended as well.
pub proof fn lemma_convergence_persists(
    l: LedgerModel,
    k: int,
    u: Seq<i64>,
    state_id1: u128,
    now1: i64,
    state_id2: u128,
    now2: i64,
)
    requires
        0 <= k < l.states.len(),
        l.states[k].1.threshold == CONVERGENCE_THRESHOLD,
        apply_update(l, k, u, state_id1, now1).immutable.len() == l.immutable.len() + 1,
    ensures
        ({
            let l1 = apply_update(l, k, u, state_id1, now1);
            let l2 = apply_update(l1, k, u, state_id2, now2);
            &&& converged(l1.states[k].1.current.state, l2.states[k].1.current.state, CONVERGENCE_THRESHOLD)
            &&& l2.immutable == l1.immutable.push(l2.states[k].1.current)
        }),
{
    let x = l.states[k].1;
    let h = x.current.state;
    let h1 = next_state(x.a, x.b, h, u);
    assert(converged(h, h1, x.threshold));
    assert(h1 =~= h) by {
        assert forall|i: int| 0 <= i < h.len() implies h1[i] == h[i] by {
            assert(-1 < h1[i] - h[i] < 1);
        }
    }
    let l1 = apply_update(l, k, u, state_id1, now1);
    assert(l1.states[k].1.a == x.a && l1.states[k].1.b == x.b);
    assert(l1.states[k].1.current.state == h1);
}

/// One update of a fresh registration's recurrence with the zero input.
pub open spec fn zero_step(n: nat, m: nat, h: Seq<i64>) -> Seq<i64> {
    next_state(transition_for(n), control_for(n, m), h, zeros(m))
}

/// `t` successive zero-input updates.
pub open spec fn zero_steps(n: nat, m: nat, h: Seq<i64>, t: nat) -> Seq<i64>
    decreases t,
{
    if t == 0 {
        h
    } else {
        zero_step(n, m, zero_steps(n, m, h, (t - 1) as nat))
    }
}

/// Every component from position `k` on is zero.
pub open spec fn zero_from(h: Seq<i64>, k: int) -> bool {
    forall|j: int| k <= j < h.len() ==> #[trigger] h[j] == 0
}

proof fn lemma_dot_zero_input(row: Seq<i64>, u: Seq<i64>, k: int)
    requires
        forall|j: int| 0 <= j < u.len() ==> #[trigger] u[j] == 0,
        k <= u.len(),
    ensures
        dot(row, u, k) == 0,
    decreases k,
{
    if k > 0 {
        lemma_dot_zero_input(row, u, k - 1);
        assert(u[k - 1] == 0);
    }
}

proof fn lemma_dot_transition(n: nat, i: int, h: Seq<i64>, k: int)
    requires
        0 <= i < n,
        0 <= k <= n,
        n <= MAX_DIM,
        h.len() == n,
    ensures
        dot(transition_for(n)[i], h, k) == (if i < k {
            (980_000 + 100 * i) * h[i]
        } else {
            0
        }) + (if i + 1 < k {
            (10_000 * (i + 1)) * h[i + 1]
        } else {
            0
        }),
    decreases k,
{
    if k > 0 {
        lemma_dot_transition(n, i, h, k - 1);
        let row = transition_for(n)[i];
        let e = row[k - 1];
        assert(dot(row, h, k) == dot(row, h, k - 1) + e * h[k - 1]);
        assert(e == transition_entry(i, k - 1));
        if k - 1 == i {
            assert(e == 980_000 + 100 * i);
        } else if k - 1 == i + 1 {
            assert(e == 10_000 * (i + 1));
        } else {
            assert(e == 0);
            let x = h[k - 1] as int;
            assert(0 * x == 0) by (nonlinear_arith);
        }
    }
}

proof fn lemma_zero_step_component(n: nat, m: nat, h: Seq<i64>, i: int)
    requires
        h.len() == n,
        0 <= i < n,
        n <= MAX_DIM,
    ensures
        zero_step(n, m, h)[i] == clamp_state(
            trunc_div(
                (980_000 + 100 * i) * h[i] + (if i + 1 < n {
                    (10_000 * (i + 1)) * h[i + 1]
                } else {
                    0
                }),
                SCALE as int,
            ),
        ),
{
    lemma_dot_transition(n, i, h, n as int);
    let row = control_for(n, m)[i];
    assert(row.len() == m);
    lemma_dot_zero_input(row, zeros(m), m as int);
}

proof fn lemma_decay(a: int, x: int)
    requires
        0 < a < 1_000_000,
        -STATE_BOUND <= x <= STATE_BOUND,
    ensures
        x == 0 ==> clamp_state(trunc_div(a * x, 1_000_000)) == 0,
        x > 0 ==> 0 <= clamp_state(trunc_div(a * x, 1_000_000)) < x,
        x < 0 ==> x < clamp_state(trunc_div(a * x, 1_000_000)) <= 0,
{
    if x > 0 {
        assert(0 <= (a * x) / 1_000_000 < x) by (nonlinear_arith)
            requires
                0 < a < 1_000_000,
                x > 0,
        ;
    } else if x < 0 {
        assert(a * x == -(a * (-x))) by (nonlinear_arith);
        assert(0 <= (a * (-x)) / 1_000_000 < -x) by (nonlinear_arith)
            requires
                0 < a < 1_000_000,
                -x > 0,
        ;
    } else {
        assert(a * x == 0) by (nonlinear_arith)
            requires
                x == 0,
        ;
    }
}

proof fn lemma_zero_step_bounded(n: nat, m: nat, h: Seq<i64>)
    requires
        h.len() == n,
        n <= MAX_DIM,
    ensures
        zero_step(n, m, h).len() == n,
        bounded_state(zero_step(n, m, h)),
{
}

proof fn lemma_zero_from_step(n: nat, m: nat, h: Seq<i64>, k: int)
    requires
        h.len() == n,
        n <= MAX_DIM,
        0 <= k,
        zero_from(h, k),
    ensures
        zero_from(zero_step(n, m, h), k),
{
    assert forall|j: int| k <= j < n implies #[trigger] zero_step(n, m, h)[j] == 0 by {
        lemma_zero_step_component(n, m, h, j);
        assert(h[j] == 0);
        if j + 1 < n {
            assert(h[j + 1] == 0);
        }
    }
}

proof fn lemma_zero_steps_bounded(n: nat, m: nat, h: Seq<i64>, t: nat)
    requires
        h.len() == n,
        n <= MAX_DIM,
        bounded_state(h),
    ensures
        zero_steps(n, m, h, t).len() == n,
        bounded_state(zero_steps(n, m, h, t)),
    decreases t,
{
    if t > 0 {
        lemma_zero_steps_bounded(n, m, h, (t - 1) as nat);
        lemma_zero_step_bounded(n, m, zero_steps(n, m, h, (t - 1) as nat));
    }
}

proof fn lemma_zero_from_persists(n: nat, m: nat, h: Seq<i64>, k: int, t0: nat, s: nat)
    requires
        h.len() == n,
        n <= MAX_DIM,
        bounded_state(h),
        0 <= k,
        zero_from(zero_steps(n, m, h, t0), k),
    ensures
        zero_from(zero_steps(n, m, h, t0 + s), k),
    decreases s,
{
    if s > 0 {
        lemma_zero_from_persists(n, m, h, k, t0, (s - 1) as nat);
        lemma_zero_steps_bounded(n, m, h, (t0 + s - 1) as nat);
        lemma_zero_from_step(n, m, zero_steps(n, m, h, (t0 + s - 1) as nat), k);
        assert(zero_steps(n, m, h, t0 + s) == zero_step(n, m, zero_steps(n, m, h, (t0 + s - 1) as nat)));
    }
}

pub open spec fn magnitude(x: int) -> int {
    if x < 0 {
        -x
    } else {
        x
    }
}

proof fn lemma_decay_run(n: nat, m: nat, h: Seq<i64>, k: int, t0: nat, s: nat)
    requires
        n <= 200,
        h.len() == n,
        bounded_state(h),
        0 <= k < n,
        zero_from(zero_steps(n, m, h, t0), k + 1),
    ensures
        magnitude(zero_steps(n, m, h, t0 + s)[k] as int) <= if magnitude(zero_steps(n, m, h, t0)[k] as int) > s {
            magnitude(zero_steps(n, m, h, t0)[k] as int) - s
        } else {
            0
        },
    decreases s,
{
    if s > 0 {
        lemma_decay_run(n, m, h, k, t0, (s - 1) as nat);
        let g = zero_steps(n, m, h, (t0 + s - 1) as nat);
        lemma_zero_steps_bounded(n, m, h, (t0 + s - 1) as nat);
        lemma_zero_from_persists(n, m, h, k + 1, t0, (s - 1) as nat);
        lemma_zero_step_component(n, m, g, k);
        if k + 1 < n {
            assert(g[k + 1] == 0);
        }
        lemma_decay(980_000 + 100 * k, g[k] as int);
        assert(zero_steps(n, m, h, t0 + s) == zero_step(n, m, g));
    }
}

proof fn lemma_settles(n: nat, m: nat, h: Seq<i64>, k: int)
    requires
        n <= 200,
        h.len() == n,
        bounded_state(h),
        0 <= k <= n,
    ensures
        zero_from(zero_steps(n, m, h, ((n - k) * 10_000_001) as nat), k),
    decreases n - k,
{
    if k < n {
        lemma_settles(n, m, h, k + 1);
        let t1 = ((n - k - 1) * 10_000_001) as nat;
        lemma_zero_steps_bounded(n, m, h, t1);
        lemma_decay_run(n, m, h, k, t1, 10_000_001);
        lemma_zero_from_persists(n, m, h, k + 1, t1, 10_000_001);
        assert(t1 + 10_000_001 == ((n - k) * 10_000_001) as nat);
        let g = zero_steps(n, m, h, t1);
        assert(-STATE_BOUND <= g[k] <= STATE_BOUND);
    }
}

/// Convergence under zero input, for state sizes up to 200 (where every
/// diagonal coefficient of a fresh registration is below one): from any
/// bounded state, after `n · 10_000_001` zero-input updates the state is
/// zero, and the next zero-input update converges. (With the registered
/// matrices and the zero input, the engine's update computes `zero_step`.)
pub proof fn lemma_zero_input_converges(n: nat, m: nat, h: Seq<i64>)
    requires
        n <= 200,
        h.len() == n,
        bounded_state(h),
    ensures
        zero_steps(n, m, h, n * 10_000_001) == zeros(n),
        converged(
            zero_steps(n, m, h, n * 10_000_001),
            zero_steps(n, m, h, n * 10_000_001 + 1),
            CONVERGENCE_THRESHOLD,
        ),
{
    lemma_settles(n, m, h, 0);
    let t = n * 10_000_001;
    let z = zero_steps(n, m, h, t);
    lemma_zero_steps_bounded(n, m, h, t);
    assert(z =~= zeros(n));
    lemma_zero_from_step(n, m, z, 0);
    lemma_zero_step_bounded(n, m, z);
    assert(zero_steps(n, m, h, t + 1) == zero_step(n, m, z));
}

proof fn lemma_index_of_empty(s: Seq<(u128, NodeModel)>, owner: u128)
    requires
        s.len() == 0,
    ensures
        index_of(s, owner) == -1,
{
}

/// The ledger with one more registered instance.
pub open spec fn with_registration(l: LedgerModel, owner: u128, x: NodeModel) -> LedgerModel {
    LedgerModel { states: l.states.push((owner, x)), ..l }
}

} // verus!
