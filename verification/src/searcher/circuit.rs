use vstd::prelude::*;

verus! {

// ---------------------------------------------------------------------------
// Registers, gates and initial states
// ---------------------------------------------------------------------------

/// A register: the indices of the qubits it holds, in order. Position `i` of a
/// register is its qubit `qubits[i]`.
pub struct QubitRegister {
    pub qubits: Vec<u64>,
}

impl View for QubitRegister {
    type V = Seq<u64>;

    open spec fn view(&self) -> Seq<u64> {
        self.qubits@
    }
}

/// A gate on qubit indices.
pub enum Gate {
    /// Flips one qubit.
    Not(u64),
    /// Hadamard on one qubit.
    Hadamard(u64),
    /// Flips the target when every control qubit is set.
    ControlledNot(Vec<u64>, u64),
    /// Exchanges two qubits.
    Swap(u64, u64),
}

/// The mathematical form of a gate.
pub enum GateSpec {
    Not(u64),
    Hadamard(u64),
    ControlledNot(Seq<u64>, u64),
    Swap(u64, u64),
}

impl View for Gate {
    type V = GateSpec;

    open spec fn view(&self) -> GateSpec {
        match self {
            Gate::Not(q) => GateSpec::Not(*q),
            Gate::Hadamard(q) => GateSpec::Hadamard(*q),
            Gate::ControlledNot(cs, t) => GateSpec::ControlledNot(cs@, *t),
            Gate::Swap(a, b) => GateSpec::Swap(*a, *b),
        }
    }
}

/// An initial state for a group of qubits: the basis state `|value>`.
pub struct InitState {
    pub qubits: Vec<u64>,
    pub value: u64,
}

/// The circuit under construction: how many qubits have been handed out (they
/// carry the indices `0..allocated`) and the gates applied so far, in order.
pub struct CircuitBuilder {
    next_qubit: u64,
    gates: Vec<Gate>,
}

// ---------------------------------------------------------------------------
// Spec helpers
// ---------------------------------------------------------------------------

/// `n` consecutive qubit indices starting at `start`.
pub open spec fn fresh(start: nat, n: nat) -> Seq<u64> {
    Seq::new(n, |i: int| (start + i) as u64)
}

/// The qubits of each register of `rs`.
pub open spec fn register_views(rs: Seq<QubitRegister>) -> Seq<Seq<u64>> {
    rs.map_values(|r: QubitRegister| r@)
}

/// Every qubit of `qs` lies below `bound`.
pub open spec fn all_below(qs: Seq<u64>, bound: nat) -> bool {
    forall|i: int| 0 <= i < qs.len() ==> qs[i] < bound
}

/// No qubit occurs twice in `qs`.
pub open spec fn distinct(qs: Seq<u64>) -> bool {
    forall|i: int, j: int| 0 <= i < qs.len() && 0 <= j < qs.len() && i != j ==> qs[i] != qs[j]
}

/// `a` and `b` share no qubit.
pub open spec fn disjoint(a: Seq<u64>, b: Seq<u64>) -> bool {
    forall|i: int, j: int| 0 <= i < a.len() && 0 <= j < b.len() ==> a[i] != b[j]
}

pub open spec fn not_gates(qs: Seq<u64>) -> Seq<GateSpec> {
    Seq::new(qs.len(), |i: int| GateSpec::Not(qs[i]))
}

pub open spec fn hadamard_gates(qs: Seq<u64>) -> Seq<GateSpec> {
    Seq::new(qs.len(), |i: int| GateSpec::Hadamard(qs[i]))
}

/// One controlled-not per target, all with the same controls.
pub open spec fn fan_gates(controls: Seq<u64>, targets: Seq<u64>) -> Seq<GateSpec> {
    Seq::new(targets.len(), |i: int| GateSpec::ControlledNot(controls, targets[i]))
}

pub open spec fn swap_gates(a: Seq<u64>, b: Seq<u64>) -> Seq<GateSpec> {
    Seq::new(a.len(), |i: int| GateSpec::Swap(a[i], b[i]))
}

// ---------------------------------------------------------------------------
// Classical semantics
// ---------------------------------------------------------------------------

/// A classical state: the value of every qubit.
pub open spec fn flip(s: spec_fn(u64) -> bool, q: u64) -> spec_fn(u64) -> bool {
    |x: u64| if x == q { !s(x) } else { s(x) }
}

/// Every qubit of `qs` is set in `s`.
pub open spec fn all_on(s: spec_fn(u64) -> bool, qs: Seq<u64>) -> bool {
    forall|k: int| 0 <= k < qs.len() ==> #[trigger] s(qs[k])
}

/// The action of a gate on classical basis states. A Hadamard gate has no such
/// action; it is mapped to the identity so that the function is total, and the
/// laws below speak only of gate sequences without Hadamard gates.
pub open spec fn classical_step(g: GateSpec, s: spec_fn(u64) -> bool) -> spec_fn(u64) -> bool {
    match g {
        GateSpec::Not(q) => flip(s, q),
        GateSpec::Hadamard(_) => s,
        GateSpec::ControlledNot(cs, t) => if all_on(s, cs) {
            flip(s, t)
        } else {
            s
        },
        GateSpec::Swap(a, b) => |x: u64|
            if x == a {
                s(b)
            } else if x == b {
                s(a)
            } else {
                s(x)
            },
    }
}

/// The classical state after applying `gates` in order to `s`.
pub open spec fn run(gates: Seq<GateSpec>, s: spec_fn(u64) -> bool) -> spec_fn(u64) -> bool
    decreases gates.len(),
{
    if gates.len() == 0 {
        s
    } else {
        classical_step(gates.last(), run(gates.drop_last(), s))
    }
}

/// Running two gate sequences one after the other is running their
/// concatenation.
pub proof fn lemma_run_append(a: Seq<GateSpec>, b: Seq<GateSpec>, s: spec_fn(u64) -> bool)
    ensures
        run(a + b, s) == run(b, run(a, s)),
    decreases b.len(),
{
    if b.len() == 0 {
        assert(a + b =~= a);
    } else {
        assert((a + b).drop_last() =~= a + b.drop_last());
        assert((a + b).last() == b.last());
        lemma_run_append(a, b.drop_last(), s);
    }
}

/// Not gates on distinct qubits flip exactly those qubits.
pub proof fn lemma_run_not_gates(qs: Seq<u64>, s: spec_fn(u64) -> bool, q: u64)
    requires
        distinct(qs),
    ensures
        run(not_gates(qs), s)(q) == (s(q) != qs.contains(q)),
    decreases qs.len(),
{
    if qs.len() > 0 {
        let p = qs.drop_last();
        assert(not_gates(qs).drop_last() =~= not_gates(p));
        lemma_run_not_gates(p, s, q);
        if q == qs.last() {
            assert(!p.contains(q));
        } else {
            assert(qs.contains(q) == p.contains(q)) by {
                if qs.contains(q) {
                    let k = choose|k: int| 0 <= k < qs.len() && qs[k] == q;
                    assert(p[k] == q);
                }
            }
        }
    }
}

/// Controlled-not gates whose targets are distinct and never among the
/// controls: each target is flipped when all of its controls are set in the
/// starting state, and every other qubit keeps its value.
pub open spec fn controlled_effect(
    ctrls: Seq<Seq<u64>>,
    targets: Seq<u64>,
    s: spec_fn(u64) -> bool,
    q: u64,
) -> bool {
    if targets.contains(q) {
        s(q) != all_on(s, ctrls[targets.index_of(q)])
    } else {
        s(q)
    }
}

pub open spec fn controlled_gates(ctrls: Seq<Seq<u64>>, targets: Seq<u64>) -> Seq<GateSpec> {
    Seq::new(targets.len(), |i: int| GateSpec::ControlledNot(ctrls[i], targets[i]))
}

/// The targets are distinct and none of them occurs among any controls.
pub open spec fn targets_apart(ctrls: Seq<Seq<u64>>, targets: Seq<u64>) -> bool {
    &&& ctrls.len() == targets.len()
    &&& distinct(targets)
    &&& forall|i: int, j: int| 0 <= i < ctrls.len() && 0 <= j < targets.len() ==> !#[trigger] ctrls[i].contains(#[trigger] targets[j])
}

proof fn lemma_distinct_index_of(qs: Seq<u64>, k: int)
    requires
        distinct(qs),
        0 <= k < qs.len(),
    ensures
        qs.index_of(qs[k]) == k,
{
    let j = qs.index_of(qs[k]);
    assert(qs.contains(qs[k]));
}

pub proof fn lemma_run_controlled(ctrls: Seq<Seq<u64>>, targets: Seq<u64>, s: spec_fn(u64) -> bool, q: u64)
    requires
        targets_apart(ctrls, targets),
    ensures
        run(controlled_gates(ctrls, targets), s)(q) == controlled_effect(ctrls, targets, s, q),
    decreases targets.len(),
{
    if targets.len() > 0 {
        let n = targets.len() - 1;
        let pc = ctrls.drop_last();
        let pt = targets.drop_last();
        assert(controlled_gates(ctrls, targets).drop_last() =~= controlled_gates(pc, pt));
        assert(targets_apart(pc, pt));
        let mid = run(controlled_gates(pc, pt), s);
        // The controls of the last gate still hold their starting values.
        assert forall|k: int| 0 <= k < ctrls[n].len() implies #[trigger] mid(ctrls[n][k]) == s(ctrls[n][k]) by {
            let c = ctrls[n][k];
            lemma_run_controlled(pc, pt, s, c);
            if pt.contains(c) {
                let j = choose|j: int| 0 <= j < pt.len() && pt[j] == c;
                assert(ctrls[n].contains(targets[j]));
            }
        }
        assert(all_on(mid, ctrls[n]) == all_on(s, ctrls[n])) by {
            let cs = ctrls[n];
            if all_on(mid, cs) {
                assert forall|k: int| 0 <= k < cs.len() implies #[trigger] s(cs[k]) by {
                    assert(mid(cs[k]));
                }
            }
            if all_on(s, cs) {
                assert forall|k: int| 0 <= k < cs.len() implies #[trigger] mid(cs[k]) by {
                    assert(s(cs[k]));
                }
            }
        }
        lemma_run_controlled(pc, pt, s, q);
        let t = targets[n];
        assert(!pt.contains(t));
        if q == t {
            lemma_distinct_index_of(targets, n);
        } else if pt.contains(q) {
            let j = choose|j: int| 0 <= j < pt.len() && pt[j] == q;
            lemma_distinct_index_of(pt, j);
            lemma_distinct_index_of(targets, j);
            assert(targets.contains(q));
        } else {
            assert(!targets.contains(q)) by {
                if targets.contains(q) {
                    let j = choose|j: int| 0 <= j < targets.len() && targets[j] == q;
                    assert(j != n);
                    assert(pt[j] == q);
                }
            }
        }
    }
}

/// Swaps of pairwise distinct qubits exchange each pair.
pub open spec fn swap_effect(a: Seq<u64>, b: Seq<u64>, s: spec_fn(u64) -> bool, q: u64) -> bool {
    if a.contains(q) {
        s(b[a.index_of(q)])
    } else if b.contains(q) {
        s(a[b.index_of(q)])
    } else {
        s(q)
    }
}

pub proof fn lemma_run_swaps(a: Seq<u64>, b: Seq<u64>, s: spec_fn(u64) -> bool, q: u64)
    requires
        a.len() == b.len(),
        distinct(a + b),
    ensures
        run(swap_gates(a, b), s)(q) == swap_effect(a, b, s, q),
    decreases a.len(),
{
    if a.len() > 0 {
        let n = a.len() - 1;
        let pa = a.drop_last();
        let pb = b.drop_last();
        assert(swap_gates(a, b).drop_last() =~= swap_gates(pa, pb));
        assert forall|i: int, j: int| 0 <= i < (pa + pb).len() && 0 <= j < (pa + pb).len() && i != j
            implies (pa + pb)[i] != (pa + pb)[j] by {
            let ii = if i < n { i } else { i + 1 };
            let jj = if j < n { j } else { j + 1 };
            assert((pa + pb)[i] == (a + b)[ii]);
            assert((pa + pb)[j] == (a + b)[jj]);
        }
        let mid = run(swap_gates(pa, pb), s);
        assert(a[n] == (a + b)[n]);
        assert(b[n] == (a + b)[a.len() + n]);
        lemma_run_swaps(pa, pb, s, a[n]);
        lemma_run_swaps(pa, pb, s, b[n]);
        lemma_run_swaps(pa, pb, s, q);
        assert(!pa.contains(a[n]) && !pb.contains(a[n]) && !pa.contains(b[n]) && !pb.contains(b[n])) by {
            if pa.contains(a[n]) {
                let j = choose|j: int| 0 <= j < pa.len() && pa[j] == a[n];
                assert((a + b)[j] == a[n]);
            }
            if pb.contains(a[n]) {
                let j = choose|j: int| 0 <= j < pb.len() && pb[j] == a[n];
                assert((a + b)[a.len() + j] == a[n]);
            }
            if pa.contains(b[n]) {
                let j = choose|j: int| 0 <= j < pa.len() && pa[j] == b[n];
                assert((a + b)[j] == b[n]);
            }
            if pb.contains(b[n]) {
                let j = choose|j: int| 0 <= j < pb.len() && pb[j] == b[n];
                assert((a + b)[a.len() + j] == b[n]);
            }
        }
        assert(distinct(a)) by {
            assert forall|i: int, j: int| 0 <= i < a.len() && 0 <= j < a.len() && i != j implies a[i] != a[j] by {
                assert(a[i] == (a + b)[i] && a[j] == (a + b)[j]);
            }
        }
        assert(distinct(b)) by {
            assert forall|i: int, j: int| 0 <= i < b.len() && 0 <= j < b.len() && i != j implies b[i] != b[j] by {
                assert(b[i] == (a + b)[a.len() + i] && b[j] == (a + b)[a.len() + j]);
            }
        }
        if q == a[n] {
            lemma_distinct_index_of(a, n);
        } else if q == b[n] {
            lemma_distinct_index_of(b, n);
            assert(!a.contains(q)) by {
                if a.contains(q) {
                    let j = choose|j: int| 0 <= j < a.len() && a[j] == q;
                    assert((a + b)[j] == q);
                    assert((a + b)[a.len() + n] == q);
                }
            }
        } else {
            if pa.contains(q) {
                let j = choose|j: int| 0 <= j < pa.len() && pa[j] == q;
                lemma_distinct_index_of(a, j);
                assert(a[j] == q);
            } else if pb.contains(q) {
                let j = choose|j: int| 0 <= j < pb.len() && pb[j] == q;
                lemma_distinct_index_of(b, j);
                assert(b[j] == q);
                assert(!a.contains(q)) by {
                    if a.contains(q) {
                        let k = choose|k: int| 0 <= k < a.len() && a[k] == q;
                        assert((a + b)[k] == q);
                        assert((a + b)[a.len() + j] == q);
                    }
                }
            } else {
                assert(!a.contains(q)) by {
                    if a.contains(q) {
                        let k = choose|k: int| 0 <= k < a.len() && a[k] == q;
                        assert(k != n);
                        assert(pa[k] == q);
                    }
                }
                assert(!b.contains(q)) by {
                    if b.contains(q) {
                        let k = choose|k: int| 0 <= k < b.len() && b[k] == q;
                        assert(k != n);
                        assert(pb[k] == q);
                    }
                }
            }
        }
    }
}

// ---------------------------------------------------------------------------
// The builder
// ---------------------------------------------------------------------------

/// A copy of a list of qubit indices.
pub fn copy_qubits(v: &Vec<u64>) -> (r: Vec<u64>)
    ensures
        r@ == v@,
{
    let mut r: Vec<u64> = Vec::new();
    let mut i: usize = 0;
    while i < v.len()
        invariant
            i <= v@.len(),
            r@ == v@.take(i as int),
        decreases v@.len() - i,
    {
        r.push(v[i]);
        assert(r@ =~= v@.take(i + 1));
        i += 1;
    }
    assert(r@ =~= v@);
    r
}

/// The qubits `start..end` of a register.
pub fn sub_register(r: &QubitRegister, start: usize, end: usize) -> (out: QubitRegister)
    requires
        start <= end <= r@.len(),
    ensures
        out@ == r@.subrange(start as int, end as int),
{
    let mut q: Vec<u64> = Vec::new();
    let mut i: usize = start;
    while i < end
        invariant
            start <= i <= end <= r@.len(),
            q@ == r@.subrange(start as int, i as int),
        decreases end - i,
    {
        q.push(r.qubits[i]);
        assert(q@ =~= r@.subrange(start as int, i + 1));
        i += 1;
    }
    QubitRegister { qubits: q }
}

/// Qubit `i` of a register, as a register of its own.
pub fn qubit_at(r: &QubitRegister, i: usize) -> (out: QubitRegister)
    requires
        i < r@.len(),
    ensures
        out@ == seq![r@[i as int]],
{
    let out = QubitRegister { qubits: vec![r.qubits[i]] };
    assert(out@ =~= seq![r@[i as int]]);
    out
}

/// One register holding the qubits of `rs` in order.
pub open spec fn concat_registers(rs: Seq<Seq<u64>>) -> Seq<u64>
    decreases rs.len(),
{
    if rs.len() == 0 {
        Seq::empty()
    } else {
        concat_registers(rs.drop_last()) + rs.last()
    }
}

/// Merges registers into one, in order.
pub fn merge(rs: Vec<QubitRegister>) -> (out: QubitRegister)
    ensures
        out@ == concat_registers(rs@.map_values(|r: QubitRegister| r@)),
{
    let ghost views = rs@.map_values(|r: QubitRegister| r@);
    let mut q: Vec<u64> = Vec::new();
    let mut i: usize = 0;
    while i < rs.len()
        invariant
            i <= rs@.len(),
            views == rs@.map_values(|r: QubitRegister| r@),
            q@ == concat_registers(views.take(i as int)),
        decreases rs@.len() - i,
    {
        let mut j: usize = 0;
        let ghost before = q@;
        while j < rs[i].qubits.len()
            invariant
                i < rs@.len(),
                j <= rs@[i as int]@.len(),
                q@ == before + rs@[i as int]@.take(j as int),
            decreases rs@[i as int]@.len() - j,
        {
            q.push(rs[i].qubits[j]);
            assert(q@ =~= before + rs@[i as int]@.take(j + 1));
            j += 1;
        }
        assert(views.take(i + 1).drop_last() =~= views.take(i as int));
        assert(rs@[i as int]@.take(j as int) =~= rs@[i as int]@);
        i += 1;
    }
    assert(views.take(rs@.len() as int) =~= views);
    QubitRegister { qubits: q }
}

impl CircuitBuilder {
    /// The number of qubits handed out so far.
    pub closed spec fn allocated(&self) -> nat {
        self.next_qubit as nat
    }

    /// The gates applied so far.
    pub closed spec fn log(&self) -> Seq<GateSpec> {
        self.gates@.map_values(|g: Gate| g@)
    }

    pub fn new() -> (b: CircuitBuilder)
        ensures
            b.allocated() == 0,
            b.log() == Seq::<GateSpec>::empty(),
    {
        let b = CircuitBuilder { next_qubit: 0, gates: Vec::new() };
        assert(b.log() =~= Seq::<GateSpec>::empty());
        b
    }

    pub fn qubit_count(&self) -> (r: u64)
        ensures
            r == self.allocated(),
    {
        self.next_qubit
    }

    pub fn gates(&self) -> (r: &Vec<Gate>)
        ensures
            r@.map_values(|g: Gate| g@) == self.log(),
    {
        &self.gates
    }

    fn push_gate(&mut self, g: Gate)
        ensures
            final(self).allocated() == old(self).allocated(),
            final(self).log() == old(self).log().push(g@),
    {
        let ghost before = self.gates@;
        self.gates.push(g);
        assert(self.gates@.map_values(|g: Gate| g@) =~= before.map_values(|g: Gate| g@).push(g@));
    }

    /// A register of `n` fresh qubits (`UnitaryBuilder::register`).
    pub fn register(&mut self, n: u64) -> (r: QubitRegister)
        requires
            n > 0,
            old(self).allocated() + n <= u64::MAX,
        ensures
            r@ == fresh(old(self).allocated(), n as nat),
            final(self).allocated() == old(self).allocated() + n,
            final(self).log() == old(self).log(),
    {
        let start = self.next_qubit;
        let mut q: Vec<u64> = Vec::new();
        let mut i: u64 = 0;
        while i < n
            invariant
                i <= n,
                start + n <= u64::MAX,
                q@ == fresh(start as nat, i as nat),
            decreases n - i,
        {
            q.push(start + i);
            assert(q@ =~= fresh(start as nat, (i + 1) as nat));
            i += 1;
        }
        self.next_qubit = start + n;
        QubitRegister { qubits: q }
    }

    /// Not on every qubit of `r`.
    pub fn not(&mut self, r: QubitRegister) -> (out: QubitRegister)
        ensures
            out@ == r@,
            final(self).allocated() == old(self).allocated(),
            final(self).log() == old(self).log() + not_gates(r@),
    {
        let ghost start = self.log();
        let mut i: usize = 0;
        while i < r.qubits.len()
            invariant
                i <= r@.len(),
                self.allocated() == old(self).allocated(),
                self.log() == start + not_gates(r@.take(i as int)),
            decreases r@.len() - i,
        {
            self.push_gate(Gate::Not(r.qubits[i]));
            assert(not_gates(r@.take(i + 1)) =~= not_gates(r@.take(i as int)).push(GateSpec::Not(r@[i as int])));
            assert(start + not_gates(r@.take(i + 1)) =~= (start + not_gates(r@.take(i as int))).push(GateSpec::Not(r@[i as int])));
            i += 1;
        }
        assert(r@.take(r@.len() as int) =~= r@);
        r
    }

    /// The X gate on every qubit of `r` (the same matrix as `not`).
    pub fn x(&mut self, r: QubitRegister) -> (out: QubitRegister)
        ensures
            out@ == r@,
            final(self).allocated() == old(self).allocated(),
            final(self).log() == old(self).log() + not_gates(r@),
    {
        self.not(r)
    }

    /// Hadamard on every qubit of `r`.
    pub fn hadamard(&mut self, r: QubitRegister) -> (out: QubitRegister)
        ensures
            out@ == r@,
            final(self).allocated() == old(self).allocated(),
            final(self).log() == old(self).log() + hadamard_gates(r@),
    {
        let ghost start = self.log();
        let mut i: usize = 0;
        while i < r.qubits.len()
            invariant
                i <= r@.len(),
                self.allocated() == old(self).allocated(),
                self.log() == start + hadamard_gates(r@.take(i as int)),
            decreases r@.len() - i,
        {
            self.push_gate(Gate::Hadamard(r.qubits[i]));
            assert(hadamard_gates(r@.take(i + 1)) =~= hadamard_gates(r@.take(i as int)).push(GateSpec::Hadamard(r@[i as int])));
            assert(start + hadamard_gates(r@.take(i + 1)) =~= (start + hadamard_gates(r@.take(i as int))).push(GateSpec::Hadamard(r@[i as int])));
            i += 1;
        }
        assert(r@.take(r@.len() as int) =~= r@);
        r
    }

    /// Not on every qubit of `r`, controlled by all qubits of `cr`
    /// (`UnitaryBuilder::cnot`).
    pub fn cnot(&mut self, cr: QubitRegister, r: QubitRegister) -> (out: (QubitRegister, QubitRegister))
        ensures
            out.0@ == cr@,
            out.1@ == r@,
            final(self).allocated() == old(self).allocated(),
            final(self).log() == old(self).log() + fan_gates(cr@, r@),
    {
        let ghost start = self.log();
        let mut i: usize = 0;
        while i < r.qubits.len()
            invariant
                i <= r@.len(),
                self.allocated() == old(self).allocated(),
                self.log() == start + fan_gates(cr@, r@.take(i as int)),
            decreases r@.len() - i,
        {
            let controls = copy_qubits(&cr.qubits);
            self.push_gate(Gate::ControlledNot(controls, r.qubits[i]));
            assert(fan_gates(cr@, r@.take(i + 1)) =~= fan_gates(cr@, r@.take(i as int)).push(
                GateSpec::ControlledNot(cr@, r@[i as int])));
            assert(start + fan_gates(cr@, r@.take(i + 1)) =~= (start + fan_gates(cr@, r@.take(i as int))).push(
                GateSpec::ControlledNot(cr@, r@[i as int])));
            i += 1;
        }
        assert(r@.take(r@.len() as int) =~= r@);
        (cr, r)
    }

    /// Not on every qubit of `r`, controlled by all qubits of `cr1` and `cr2`
    /// (`UnitaryBuilder::ccnot`).
    pub fn ccnot(&mut self, cr1: QubitRegister, cr2: QubitRegister, r: QubitRegister) -> (out: (QubitRegister, QubitRegister, QubitRegister))
        ensures
            out.0@ == cr1@,
            out.1@ == cr2@,
            out.2@ == r@,
            final(self).allocated() == old(self).allocated(),
            final(self).log() == old(self).log() + fan_gates(cr1@ + cr2@, r@),
    {
        let mut both = copy_qubits(&cr1.qubits);
        let mut second = copy_qubits(&cr2.qubits);
        both.append(&mut second);
        let (c, r) = self.cnot(QubitRegister { qubits: both }, r);
        (cr1, cr2, r)
    }

    /// Exchanges `ra[i]` with `rb[i]` for every `i` (`UnitaryBuilder::swap`).
    pub fn swap(&mut self, ra: QubitRegister, rb: QubitRegister) -> (out: (QubitRegister, QubitRegister))
        requires
            ra@.len() == rb@.len(),
        ensures
            out.0@ == ra@,
            out.1@ == rb@,
            final(self).allocated() == old(self).allocated(),
            final(self).log() == old(self).log() + swap_gates(ra@, rb@),
    {
        let ghost start = self.log();
        let mut i: usize = 0;
        while i < ra.qubits.len()
            invariant
                i <= ra@.len(),
                ra@.len() == rb@.len(),
                self.allocated() == old(self).allocated(),
                self.log() == start + swap_gates(ra@.take(i as int), rb@.take(i as int)),
            decreases ra@.len() - i,
        {
            self.push_gate(Gate::Swap(ra.qubits[i], rb.qubits[i]));
            assert(swap_gates(ra@.take(i + 1), rb@.take(i + 1)) =~= swap_gates(ra@.take(i as int), rb@.take(i as int)).push(
                GateSpec::Swap(ra@[i as int], rb@[i as int])));
            assert(start + swap_gates(ra@.take(i + 1), rb@.take(i + 1)) =~= (start + swap_gates(ra@.take(i as int), rb@.take(i as int))).push(
                GateSpec::Swap(ra@[i as int], rb@[i as int])));
            i += 1;
        }
        assert(ra@.take(ra@.len() as int) =~= ra@);
        assert(rb@.take(rb@.len() as int) =~= rb@);
        (ra, rb)
    }
}

/// The initial state `|value>` for the qubits of `r`
/// (`RegisterHandle::make_init_from_index`).
pub fn make_init_from_index(r: &QubitRegister, value: u64) -> (init: InitState)
    requires
        r@.len() < 64,
        value < pow2_u64(r@.len()),
    ensures
        init.qubits@ == r@,
        init.value == value,
{
    InitState { qubits: copy_qubits(&r.qubits), value }
}

/// `2^n` for `n < 64`.
pub open spec fn pow2_u64(n: nat) -> nat
    decreases n,
{
    if n == 0 {
        1
    } else {
        2 * pow2_u64((n - 1) as nat)
    }
}

} // verus!
