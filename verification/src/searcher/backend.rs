use vstd::prelude::*;
use vstd::pervasive::VecAdditionalExecFns;
use qip::{CircuitError, OpBuilder, Register, UnitaryBuilder};
use crate::searcher::circuit::{concat_registers, distinct, CircuitBuilder, Gate, GateSpec};

verus! {

// ---------------------------------------------------------------------------
// The circuit in qip
// ---------------------------------------------------------------------------

#[verifier::external_type_specification]
#[verifier::external_body]
pub struct ExOpBuilder(OpBuilder);

#[verifier::external_type_specification]
#[verifier::external_body]
pub struct ExRegister(Register);

#[verifier::external_type_specification]
#[verifier::external_body]
pub struct ExCircuitError(CircuitError);

/// The qubit indices that a qip `Register` holds, in order (its public field
/// `indices`).
pub uninterp spec fn register_indices(r: Register) -> Seq<u64>;

/// The number of qubits that an `OpBuilder` has handed out
/// (`OpBuilder::get_qubit_count`).
pub uninterp spec fn builder_qubit_count(b: OpBuilder) -> nat;

/// The id that an `OpBuilder` hands out next (its counter `op_id`, which
/// `get_op_id` returns and increments); every register it makes takes one.
pub uninterp spec fn builder_next_id(b: OpBuilder) -> nat;

/// The operations that qip records in the history of `r`: for `r` and every
/// register it was made from (its `parent`, owned or shared, and theirs),
/// the operation that the register's owned parent carries, under the
/// register's id, read as a `GateSpec` (the one-qubit `not` and Hadamard
/// matrices, a swap, and a not controlled by other qubits). qip's `run`
/// applies them in the order of their ids.
pub uninterp spec fn register_ops(r: Register) -> Map<nat, GateSpec>;

/// The operations of all registers of `rs` together.
pub open spec fn union_ops(rs: Seq<Register>) -> Map<nat, GateSpec>
    decreases rs.len(),
{
    if rs.len() == 0 {
        Map::empty()
    } else {
        union_ops(rs.drop_last()).union_prefer_right(register_ops(rs.last()))
    }
}

/// `OpBuilder::new`: the default builder, which has handed out no qubit and
/// no id.
#[verifier::external_body]
fn op_builder() -> (b: OpBuilder)
    ensures
        builder_qubit_count(b) == 0,
        builder_next_id(b) == 0,
{
    OpBuilder::new()
}

/// `UnitaryBuilder::qubit` on an `OpBuilder`: a register holding the next
/// qubit index, which the builder then counts (`qubit_index += 1`); the
/// register takes the next id and has no operation.
#[verifier::external_body]
fn new_qubit(b: &mut OpBuilder) -> (r: Register)
    requires
        builder_qubit_count(*old(b)) < u64::MAX,
        builder_next_id(*old(b)) < u64::MAX,
    ensures
        register_indices(r) == seq![builder_qubit_count(*old(b)) as u64],
        register_ops(r).dom().is_empty(),
        builder_qubit_count(*final(b)) == builder_qubit_count(*old(b)) + 1,
        builder_next_id(*final(b)) == builder_next_id(*old(b)) + 1,
{
    b.qubit()
}

/// `UnitaryBuilder::not` on a one-qubit register: the NOT matrix merged
/// into a register with the next id (`mat`, then `merge_with_op`).
#[verifier::external_body]
fn apply_not(b: &mut OpBuilder, r: Register) -> (out: Register)
    requires
        register_indices(r).len() == 1,
        builder_next_id(*old(b)) < u64::MAX,
    ensures
        register_indices(out) == register_indices(r),
        register_ops(out) == register_ops(r).insert(
            builder_next_id(*old(b)),
            GateSpec::Not(register_indices(r)[0]),
        ),
        builder_qubit_count(*final(b)) == builder_qubit_count(*old(b)),
        builder_next_id(*final(b)) == builder_next_id(*old(b)) + 1,
{
    b.not(r)
}

/// `UnitaryBuilder::hadamard` on a one-qubit register, as `apply_not`
/// applies NOT.
#[verifier::external_body]
fn apply_hadamard(b: &mut OpBuilder, r: Register) -> (out: Register)
    requires
        register_indices(r).len() == 1,
        builder_next_id(*old(b)) < u64::MAX,
    ensures
        register_indices(out) == register_indices(r),
        register_ops(out) == register_ops(r).insert(
            builder_next_id(*old(b)),
            GateSpec::Hadamard(register_indices(r)[0]),
        ),
        builder_qubit_count(*final(b)) == builder_qubit_count(*old(b)),
        builder_next_id(*final(b)) == builder_next_id(*old(b)) + 1,
{
    b.hadamard(r)
}

/// `UnitaryBuilder::cnot` with a one-qubit target: the NOT matrix made a
/// control op on the qubits of `cr` (`make_control_op`, which refuses no
/// control), merged with `cr` and `r` into a register with the next id, then
/// split back into the control and the target (two more ids), which both
/// carry the history of the merged register. qip unwraps the split, which
/// leaves nothing for the target where its index is among the controls;
/// `requires` leaves that and an empty control out.
#[verifier::external_body]
fn apply_cnot(b: &mut OpBuilder, cr: Register, r: Register) -> (out: (Register, Register))
    requires
        register_indices(cr).len() > 0,
        register_indices(r).len() == 1,
        distinct(register_indices(cr) + register_indices(r)),
        builder_next_id(*old(b)) + 3 <= u64::MAX,
    ensures
        register_indices(out.0) == register_indices(cr),
        register_indices(out.1) == register_indices(r),
        register_ops(out.0) == register_ops(cr).union_prefer_right(register_ops(r)).insert(
            builder_next_id(*old(b)),
            GateSpec::ControlledNot(register_indices(cr), register_indices(r)[0]),
        ),
        register_ops(out.1) == register_ops(out.0),
        builder_qubit_count(*final(b)) == builder_qubit_count(*old(b)),
        builder_next_id(*final(b)) == builder_next_id(*old(b)) + 3,
{
    b.cnot(cr, r)
}

/// `UnitaryBuilder::swap` on two one-qubit registers: the swap op
/// (`make_swap_op`, which refuses only registers of different lengths)
/// merged with both into a register with the next id, then split back (two
/// more ids); both carry the history of the merged register. qip unwraps the
/// part of `rb` that is split off, which is missing where `rb`'s index is
/// `ra`'s; `requires` leaves that out.
#[verifier::external_body]
fn apply_swap(b: &mut OpBuilder, ra: Register, rb: Register) -> (out: Result<(Register, Register), CircuitError>)
    requires
        register_indices(ra).len() == 1,
        register_indices(rb).len() == 1,
        distinct(register_indices(ra) + register_indices(rb)),
        builder_next_id(*old(b)) + 3 <= u64::MAX,
    ensures
        out is Ok,
        out matches Ok(p) ==> {
            &&& register_indices(p.0) == register_indices(ra)
            &&& register_indices(p.1) == register_indices(rb)
            &&& register_ops(p.0) == register_ops(ra).union_prefer_right(register_ops(rb)).insert(
                builder_next_id(*old(b)),
                GateSpec::Swap(register_indices(ra)[0], register_indices(rb)[0]),
            )
            &&& register_ops(p.1) == register_ops(p.0)
        },
        builder_qubit_count(*final(b)) == builder_qubit_count(*old(b)),
        builder_next_id(*final(b)) == builder_next_id(*old(b)) + 3,
{
    b.swap(ra, rb)
}

/// The indices of each register of `rs`.
pub open spec fn indices_of(rs: Seq<Register>) -> Seq<Seq<u64>> {
    rs.map_values(|r: Register| register_indices(r))
}

/// `UnitaryBuilder::merge`: one register with the next id holding the
/// indices of `rs` in order and the history of all of them, without an
/// operation of its own; qip refuses exactly an empty list
/// (`Register::merge_with_modifier`).
#[verifier::external_body]
fn merge_registers(b: &mut OpBuilder, rs: Vec<Register>) -> (out: Result<Register, CircuitError>)
    requires
        builder_next_id(*old(b)) < u64::MAX,
    ensures
        out is Ok <==> rs@.len() > 0,
        out matches Ok(r) ==> register_indices(r) == concat_registers(indices_of(rs@)) && register_ops(r) == union_ops(
            rs@,
        ),
        builder_qubit_count(*final(b)) == builder_qubit_count(*old(b)),
        builder_next_id(*final(b)) == builder_next_id(*old(b)) + 1,
{
    b.merge(rs)
}

/// `UnitaryBuilder::split_all`: one register per index of `r`, in order,
/// each sharing `r` as its parent and so its history (`split_absolute_many`,
/// two ids per split-off index); a one-qubit register is handed back as it
/// is. qip unwraps the split, which cannot fail for a register of distinct
/// indices.
#[verifier::external_body]
fn split_register(b: &mut OpBuilder, r: Register) -> (out: Vec<Register>)
    requires
        register_indices(r).len() > 0,
        distinct(register_indices(r)),
        builder_next_id(*old(b)) + 2 * register_indices(r).len() <= u64::MAX,
    ensures
        out@.len() == register_indices(r).len(),
        forall|k: int| 0 <= k < out@.len() ==> register_indices(#[trigger] out@[k]) == seq![register_indices(r)[k]],
        forall|k: int| 0 <= k < out@.len() ==> register_ops(#[trigger] out@[k]) == register_ops(r),
        builder_qubit_count(*final(b)) == builder_qubit_count(*old(b)),
        builder_next_id(*old(b)) <= builder_next_id(*final(b)) <= builder_next_id(*old(b)) + 2 * register_indices(
            r,
        ).len(),
{
    b.split_all(r)
}

/// Why a circuit could not be built in qip.
#[derive(Debug)]
pub enum RealizeError {
    /// A gate names a qubit that was not allocated.
    QubitOutOfRange(u64),
    /// A gate names the same qubit twice.
    QubitReused(u64),
    /// A controlled not without controls.
    NoControls,
    /// The circuit needs more qubits than fit the machine's indices.
    TooManyQubits,
    /// The circuit needs more operation ids than qip's `u64` counter holds.
    TooManyOperations,
    /// qip refused an operation.
    Builder,
}

/// Every qubit that `g` acts on is below `n` and appears in `g` once.
pub open spec fn gate_ok(g: GateSpec, n: nat) -> bool {
    match g {
        GateSpec::Not(q) => q < n,
        GateSpec::Hadamard(q) => q < n,
        GateSpec::Swap(a, c) => a < n && c < n && a != c,
        GateSpec::ControlledNot(cs, t) => {
            &&& cs.len() > 0
            &&& t < n
            &&& forall|j: int| 0 <= j < cs.len() ==> cs[j] < n && cs[j] != t
            &&& forall|j: int, k: int| 0 <= j < k < cs.len() ==> cs[j] != cs[k]
        },
    }
}

/// Every gate of the circuit only names allocated qubits, and none twice.
pub open spec fn circuit_ok(log: Seq<GateSpec>, n: nat) -> bool {
    forall|k: int| 0 <= k < log.len() ==> gate_ok(#[trigger] log[k], n)
}

/// An upper bound on the ids that qip takes for `g`.
pub open spec fn gate_cost(g: GateSpec) -> nat {
    match g {
        GateSpec::Not(_) => 1,
        GateSpec::Hadamard(_) => 1,
        GateSpec::Swap(_, _) => 3,
        GateSpec::ControlledNot(cs, _) => 4 + 2 * cs.len(),
    }
}

/// The ids that qip spends on the gates of `log` at most.
pub open spec fn ops_cost(log: Seq<GateSpec>) -> nat
    decreases log.len(),
{
    if log.len() == 0 {
        0
    } else {
        ops_cost(log.drop_last()) + gate_cost(log.last())
    }
}

/// The operations `m` are the gates of `log` in order: under the ids `ids`,
/// which rise.
#[verifier::opaque]
pub open spec fn ops_in_order(m: Map<nat, GateSpec>, ids: Seq<nat>, log: Seq<GateSpec>) -> bool {
    &&& ids.len() == log.len()
    &&& forall|i: int, j: int| 0 <= i < j < ids.len() ==> ids[i] < ids[j]
    &&& forall|k: nat| m.dom().contains(k) <==> ids.contains(k)
    &&& forall|i: int| 0 <= i < ids.len() ==> m[#[trigger] ids[i]] == log[i]
}

/// The registers `rs` together carry the gates of `log` as their
/// operations, in the order of their ids.
pub open spec fn records_log(rs: Seq<Register>, log: Seq<GateSpec>) -> bool {
    exists|ids: Seq<nat>| #[trigger] ops_in_order(union_ops(rs), ids, log)
}

/// The registers in `slots` carry only operations of `ops`, and each
/// operation of `ops` is carried by one of them.
spec fn slots_carry(slots: Seq<Option<Register>>, ops: Map<nat, GateSpec>) -> bool {
    &&& forall|q: int|
        0 <= q < slots.len() && (#[trigger] slots[q]) is Some ==> register_ops(slots[q].unwrap()).submap_of(ops)
    &&& forall|k: nat|
        #[trigger] ops.dom().contains(k) ==> exists|q: int|
            0 <= q < slots.len() && slots[q] is Some && #[trigger] register_ops(slots[q].unwrap()).dom().contains(k)
}

proof fn lemma_ops_cost_prefix(log: Seq<GateSpec>, k: int)
    requires
        0 <= k < log.len(),
    ensures
        ops_cost(log.take(k + 1)) == ops_cost(log.take(k)) + gate_cost(log[k]),
        ops_cost(log.take(k + 1)) <= ops_cost(log),
    decreases log.len(),
{
    assert(log.take(k + 1).drop_last() =~= log.take(k));
    if k + 1 < log.len() {
        lemma_ops_cost_prefix(log.drop_last(), k);
        assert(log.drop_last().take(k + 1) =~= log.take(k + 1));
        assert(log.drop_last().take(k) =~= log.take(k));
    } else {
        assert(log.take(k + 1) =~= log);
    }
}

/// The union of maps that are all part of `m` is part of `m`, and holds the
/// keys of each of them.
proof fn lemma_union_ops(rs: Seq<Register>, m: Map<nat, GateSpec>)
    requires
        forall|i: int| 0 <= i < rs.len() ==> register_ops(#[trigger] rs[i]).submap_of(m),
    ensures
        union_ops(rs).submap_of(m),
        forall|k: nat|
            union_ops(rs).dom().contains(k) <==> exists|i: int|
                0 <= i < rs.len() && #[trigger] register_ops(rs[i]).dom().contains(k),
    decreases rs.len(),
{
    if rs.len() > 0 {
        let init = rs.drop_last();
        assert forall|i: int| 0 <= i < init.len() implies register_ops(#[trigger] init[i]).submap_of(m) by {
            assert(init[i] == rs[i]);
        }
        lemma_union_ops(init, m);
        assert(register_ops(rs[rs.len() - 1]).submap_of(m));
        assert forall|k: nat|
            union_ops(rs).dom().contains(k) implies exists|i: int|
                0 <= i < rs.len() && #[trigger] register_ops(rs[i]).dom().contains(k) by {
            if register_ops(rs.last()).dom().contains(k) {
                assert(register_ops(rs[rs.len() - 1]).dom().contains(k));
            } else {
                let i = choose|i: int| 0 <= i < init.len() && #[trigger] register_ops(init[i]).dom().contains(k);
                assert(init[i] == rs[i]);
            }
        }
        assert forall|k: nat|
            (exists|i: int| 0 <= i < rs.len() && #[trigger] register_ops(rs[i]).dom().contains(k)) implies union_ops(
            rs,
        ).dom().contains(k) by {
            let i = choose|i: int| 0 <= i < rs.len() && #[trigger] register_ops(rs[i]).dom().contains(k);
            if i < init.len() {
                assert(init[i] == rs[i]);
                assert(register_ops(init[i]).dom().contains(k));
            }
        }
    }
}

proof fn lemma_in_submap(a: Map<nat, GateSpec>, m: Map<nat, GateSpec>, k: nat)
    requires
        a.submap_of(m),
        a.dom().contains(k),
    ensures
        m.dom().contains(k),
        a[k] == m[k],
{
    assert(m.dom().contains(k) && a[k] == m[k]);
}

/// A part of `m` that lacks `key` stays a part of `m` with `key` added,
/// and is a part of itself with `key` added.
proof fn lemma_submap_insert(a: Map<nat, GateSpec>, m: Map<nat, GateSpec>, key: nat, v: GateSpec)
    requires
        a.submap_of(m),
        !m.dom().contains(key),
    ensures
        a.submap_of(a.insert(key, v)),
        a.insert(key, v).submap_of(m.insert(key, v)),
        !a.dom().contains(key),
{
    assert forall|k: nat| #[trigger] a.dom().contains(k) implies a.insert(key, v).dom().contains(k) && a[k] == a.insert(
        key,
        v,
    )[k] by {
        lemma_in_submap(a, m, k);
    }
    assert forall|k: nat| #[trigger] a.insert(key, v).dom().contains(k) implies m.insert(key, v).dom().contains(k)
        && a.insert(key, v)[k] == m.insert(key, v)[k] by {
        if k != key {
            lemma_in_submap(a, m, k);
        }
    }
    if a.dom().contains(key) {
        lemma_in_submap(a, m, key);
    }
}

proof fn lemma_sub_trans(a: Map<nat, GateSpec>, b: Map<nat, GateSpec>, c: Map<nat, GateSpec>)
    requires
        a.submap_of(b),
        b.submap_of(c),
    ensures
        a.submap_of(c),
{
    assert forall|k: nat| #[trigger] a.dom().contains(k) implies c.dom().contains(k) && a[k] == c[k] by {
        lemma_in_submap(a, b, k);
        lemma_in_submap(b, c, k);
    }
}

/// The operations of each register of `rs` are part of theirs together.
proof fn lemma_member_of_union(rs: Seq<Register>, m: Map<nat, GateSpec>, i: int)
    requires
        forall|j: int| 0 <= j < rs.len() ==> register_ops(#[trigger] rs[j]).submap_of(m),
        0 <= i < rs.len(),
    ensures
        register_ops(rs[i]).submap_of(union_ops(rs)),
{
    lemma_union_ops(rs, m);
    assert forall|k: nat| #[trigger] register_ops(rs[i]).dom().contains(k) implies union_ops(rs).dom().contains(k)
        && register_ops(rs[i])[k] == union_ops(rs)[k] by {
        lemma_in_submap(register_ops(rs[i]), m, k);
        lemma_in_submap(union_ops(rs), m, k);
    }
}

/// Two parts of `m` joined are part of `m`, and hold both.
proof fn lemma_union_pair(a: Map<nat, GateSpec>, c: Map<nat, GateSpec>, m: Map<nat, GateSpec>)
    requires
        a.submap_of(m),
        c.submap_of(m),
    ensures
        a.union_prefer_right(c).submap_of(m),
        a.submap_of(a.union_prefer_right(c)),
        c.submap_of(a.union_prefer_right(c)),
{
    let u = a.union_prefer_right(c);
    assert forall|k: nat| #[trigger] a.dom().contains(k) implies u.dom().contains(k) && a[k] == u[k] by {
        lemma_in_submap(a, m, k);
        if c.dom().contains(k) {
            lemma_in_submap(c, m, k);
        }
    }
}

/// Slots whose registers at `qs` all take on the operations `big`, which
/// hold theirs and the new operation `key`, carry `ops` with that operation.
proof fn lemma_carry_update(
    old_slots: Seq<Option<Register>>,
    new_slots: Seq<Option<Register>>,
    ops: Map<nat, GateSpec>,
    key: nat,
    g: GateSpec,
    qs: Seq<int>,
    big: Map<nat, GateSpec>,
)
    requires
        slots_carry(old_slots, ops),
        !ops.dom().contains(key),
        old_slots.len() == new_slots.len(),
        qs.len() > 0,
        forall|q: int| 0 <= q < old_slots.len() && !qs.contains(q) ==> new_slots[q] == old_slots[q],
        forall|j: int|
            0 <= j < qs.len() ==> 0 <= #[trigger] qs[j] < old_slots.len() && old_slots[qs[j]] is Some && new_slots[qs[j]] is Some
                && register_ops(new_slots[qs[j]].unwrap()) == big && register_ops(
                old_slots[qs[j]].unwrap(),
            ).submap_of(big),
        big.submap_of(ops.insert(key, g)),
        big.dom().contains(key),
    ensures
        slots_carry(new_slots, ops.insert(key, g)),
{
    let ops2 = ops.insert(key, g);
    assert forall|q: int| 0 <= q < new_slots.len() && (#[trigger] new_slots[q]) is Some implies register_ops(
        new_slots[q].unwrap(),
    ).submap_of(ops2) by {
        if qs.contains(q) {
            let j = choose|j: int| 0 <= j < qs.len() && qs[j] == q;
            assert(qs[j] == q);
        } else {
            assert(register_ops(old_slots[q].unwrap()).submap_of(ops));
        }
    }
    assert forall|k: nat| #[trigger] ops2.dom().contains(k) implies exists|q: int|
        0 <= q < new_slots.len() && new_slots[q] is Some && #[trigger] register_ops(new_slots[q].unwrap()).dom().contains(
            k,
        ) by {
        let q0 = qs[0];
        assert(0 <= qs[0] < old_slots.len());
        if k == key {
            assert(register_ops(new_slots[q0].unwrap()).dom().contains(k));
        } else {
            assert(ops.dom().contains(k));
            let q = choose|q: int|
                0 <= q < old_slots.len() && old_slots[q] is Some && #[trigger] register_ops(old_slots[q].unwrap()).dom().contains(
                    k,
                );
            if qs.contains(q) {
                let j = choose|j: int| 0 <= j < qs.len() && qs[j] == q;
                assert(qs[j] == q);
                assert(register_ops(new_slots[q].unwrap()).dom().contains(k));
            } else {
                assert(new_slots[q] == old_slots[q]);
            }
        }
    }
}

/// Every qubit has its register in its slot, and slot `q` holds qubit `q`.
spec fn slots_ok(slots: Seq<Option<Register>>) -> bool {
    &&& forall|q: int| 0 <= q < slots.len() ==> (#[trigger] slots[q]) is Some
    &&& slots_hold_own(slots)
}

/// A register in slot `q` holds exactly qubit `q`.
spec fn slots_hold_own(slots: Seq<Option<Register>>) -> bool {
    forall|q: int| 0 <= q < slots.len() && (#[trigger] slots[q]) is Some ==> register_indices(slots[q].unwrap())
        == seq![q as u64]
}

/// Takes the register of qubit `q` out of its slot.
fn take_slot(slots: &mut Vec<Option<Register>>, q: u64) -> (r: Result<Register, RealizeError>)
    ensures
        q >= old(slots)@.len() ==> (r matches Err(RealizeError::QubitOutOfRange(x)) && x == q),
        q < old(slots)@.len() && old(slots)@[q as int] is None ==> (r matches Err(RealizeError::QubitReused(x))
            && x == q),
        q < old(slots)@.len() && old(slots)@[q as int] is Some ==> r is Ok,
        r matches Ok(reg) ==> q < old(slots)@.len() && old(slots)@[q as int] == Some(reg),
        !(r matches Err(RealizeError::TooManyQubits)),
        final(slots)@.len() == old(slots)@.len(),
        forall|p: int| 0 <= p < old(slots)@.len() && p != q ==> final(slots)@[p] == old(slots)@[p],
        q < old(slots)@.len() ==> final(slots)@[q as int] is None,
{
    if q as u128 >= slots.len() as u128 {
        return Err(RealizeError::QubitOutOfRange(q));
    }
    let i = q as usize;
    let mut held: Option<Register> = None;
    slots.set_and_swap(i, &mut held);
    match held {
        Some(r) => Ok(r),
        None => Err(RealizeError::QubitReused(q)),
    }
}

/// Puts `r` back into the slot of qubit `q`.
fn put_slot(slots: &mut Vec<Option<Register>>, q: u64, r: Register)
    requires
        q < old(slots)@.len(),
    ensures
        final(slots)@.len() == old(slots)@.len(),
        forall|p: int| 0 <= p < old(slots)@.len() && p != q ==> final(slots)@[p] == old(slots)@[p],
        final(slots)@[q as int] == Some(r),
{
    let len = slots.len();
    assert(q < len);
    slots.set(q as usize, Some(r));
}

/// One-qubit registers of `qs`, in order, make up `qs`.
proof fn lemma_concat_singletons(qs: Seq<u64>)
    ensures
        concat_registers(Seq::new(qs.len(), |k: int| seq![qs[k]])) == qs,
    decreases qs.len(),
{
    let ss = Seq::new(qs.len(), |k: int| seq![qs[k]]);
    if qs.len() == 0 {
        assert(concat_registers(ss) =~= qs);
    } else {
        lemma_concat_singletons(qs.drop_last());
        assert(ss.drop_last() =~= Seq::new(qs.drop_last().len(), |k: int| seq![qs.drop_last()[k]]));
        assert(concat_registers(ss) =~= qs);
    }
}

/// Applies one gate in qip on the registers in `slots`: where the slots
/// carried the operations `ops`, they then carry `ops` and `g` under a new
/// id.
fn apply_gate(
    b: &mut OpBuilder,
    slots: &mut Vec<Option<Register>>,
    g: &Gate,
    Ghost(ops): Ghost<Map<nat, GateSpec>>,
) -> (r: Result<(), RealizeError>)
    requires
        slots_ok(old(slots)@),
        slots_carry(old(slots)@, ops),
        forall|k: nat| ops.dom().contains(k) ==> k < builder_next_id(*old(b)),
        builder_next_id(*old(b)) + gate_cost(g@) <= u64::MAX,
    ensures
        final(slots)@.len() == old(slots)@.len(),
        r is Ok ==> slots_ok(final(slots)@),
        r is Ok <==> gate_ok(g@, old(slots)@.len()),
        !(r matches Err(RealizeError::TooManyQubits)),
        !(r matches Err(RealizeError::TooManyOperations)),
        builder_qubit_count(*final(b)) == builder_qubit_count(*old(b)),
        builder_next_id(*old(b)) <= builder_next_id(*final(b)) <= builder_next_id(*old(b)) + gate_cost(g@),
        r is Ok ==> exists|key: nat|
            builder_next_id(*old(b)) <= key < builder_next_id(*final(b)) && #[trigger] slots_carry(
                final(slots)@,
                ops.insert(key, g@),
            ),
{
    let ghost n = slots@.len();
    let ghost old_slots = slots@;
    let ghost key = builder_next_id(*b);
    match g {
        Gate::Not(q) => {
            let reg = take_slot(slots, *q)?;
            let ghost old_reg = reg;
            let ghost old_ops = register_ops(reg);
            let reg = apply_not(b, reg);
            put_slot(slots, *q, reg);
            proof {
                let qi = *q as int;
                let qs = seq![qi];
                assert(qs[0] == qi);
                assert(old_slots[qi] == Some(old_reg));
                lemma_submap_insert(old_ops, ops, key, g@);
                lemma_carry_update(old_slots, slots@, ops, key, g@, qs, register_ops(reg));
                assert(slots_carry(slots@, ops.insert(key, g@)));
            }
            Ok(())
        },
        Gate::Hadamard(q) => {
            let reg = take_slot(slots, *q)?;
            let ghost old_reg = reg;
            let ghost old_ops = register_ops(reg);
            let reg = apply_hadamard(b, reg);
            put_slot(slots, *q, reg);
            proof {
                let qi = *q as int;
                let qs = seq![qi];
                assert(qs[0] == qi);
                assert(old_slots[qi] == Some(old_reg));
                lemma_submap_insert(old_ops, ops, key, g@);
                lemma_carry_update(old_slots, slots@, ops, key, g@, qs, register_ops(reg));
                assert(slots_carry(slots@, ops.insert(key, g@)));
            }
            Ok(())
        },
        Gate::Swap(qa, qc) => {
            let ra = take_slot(slots, *qa)?;
            let rc = take_slot(slots, *qc)?;
            let ghost ops_a = register_ops(ra);
            let ghost ops_c = register_ops(rc);
            let ghost reg_a = ra;
            let ghost reg_c = rc;
            assert(register_indices(ra) + register_indices(rc) =~= seq![*qa, *qc]);
            match apply_swap(b, ra, rc) {
                Ok((ra, rc)) => {
                    put_slot(slots, *qa, ra);
                    put_slot(slots, *qc, rc);
                    proof {
                        let big = register_ops(ra);
                        let u = ops_a.union_prefer_right(ops_c);
                        lemma_union_pair(ops_a, ops_c, ops);
                        lemma_submap_insert(u, ops, key, g@);
                        let qs = seq![*qa as int, *qc as int];
                        assert(qs[0] == *qa as int && qs[1] == *qc as int);
                        assert forall|x: nat| #[trigger] ops_a.dom().contains(x) implies big.dom().contains(x) && ops_a[x] == big[x] by {
                            lemma_in_submap(ops_a, u, x);
                            lemma_in_submap(u, u.insert(key, g@), x);
                        }
                        assert forall|x: nat| #[trigger] ops_c.dom().contains(x) implies big.dom().contains(x) && ops_c[x] == big[x] by {
                            lemma_in_submap(ops_c, u, x);
                            lemma_in_submap(u, u.insert(key, g@), x);
                        }
                        lemma_carry_update(old_slots, slots@, ops, key, g@, qs, big);
                        assert(slots_carry(slots@, ops.insert(key, g@)));
                    }
                    Ok(())
                },
                Err(_) => Err(RealizeError::Builder),
            }
        },
        Gate::ControlledNot(cs, t) => {
            if cs.len() == 0 {
                return Err(RealizeError::NoControls);
            }
            let target = take_slot(slots, *t)?;
            let mut controls: Vec<Register> = Vec::new();
            let mut j: usize = 0;
            while j < cs.len()
                invariant
                    j <= cs@.len(),
                    cs@.len() > 0,
                    !(g@ is Not || g@ is Hadamard || g@ is Swap),
                    g@ == GateSpec::ControlledNot(cs@, *t),
                    n == old(slots)@.len(),
                    old_slots == old(slots)@,
                    slots@.len() == n,
                    *t < n,
                    register_indices(target) == seq![*t],
                    old_slots[*t as int] == Some(target),
                    slots@[*t as int] is None,
                    slots_hold_own(slots@),
                    forall|q: int| 0 <= q < n && (#[trigger] slots@[q]) is Some ==> slots@[q] == old_slots[q],
                    controls@.len() == j,
                    forall|k: int| 0 <= k < j ==> register_indices(#[trigger] controls@[k]) == seq![cs@[k]],
                    forall|k: int| 0 <= k < j ==> old_slots[cs@[k] as int] == Some(#[trigger] controls@[k]),
                    forall|k: int| 0 <= k < j ==> slots@[cs@[k] as int] is None && cs@[k] < n,
                    forall|q: int|
                        0 <= q < n && q != *t && (forall|k: int| 0 <= k < j ==> cs@[k] != q) ==> (
                        #[trigger] slots@[q]) is Some,
                    forall|k1: int, k2: int| 0 <= k1 < k2 < j ==> cs@[k1] != cs@[k2],
                    forall|k: int| 0 <= k < j ==> cs@[k] != *t,
                decreases cs@.len() - j,
            {
                let c = take_slot(slots, cs[j])?;
                controls.push(c);
                j += 1;
            }
            proof {
                assert(indices_of(controls@) =~= Seq::new(cs@.len(), |k: int| seq![cs@[k]]));
                lemma_concat_singletons(cs@);
                assert forall|i: int| 0 <= i < controls@.len() implies register_ops(#[trigger] controls@[i]).submap_of(
                    ops,
                ) by {
                    assert(old_slots[cs@[i] as int] == Some(controls@[i]));
                }
                lemma_union_ops(controls@, ops);
            }
            let ghost control_regs = controls@;
            let ghost target_ops = register_ops(target);
            let cr = match merge_registers(b, controls) {
                Ok(cr) => cr,
                Err(_) => {
                    return Err(RealizeError::Builder);
                },
            };
            let ghost key2 = builder_next_id(*b);
            proof {
                assert(distinct(register_indices(cr) + register_indices(target))) by {
                    let all = cs@ + seq![*t];
                    assert(register_indices(cr) + register_indices(target) =~= all);
                }
                assert(register_ops(target).submap_of(ops));
            }
            let (cr, target) = apply_cnot(b, cr, target);
            let ghost big = register_ops(target);
            let parts = split_register(b, cr);
            let mut parts = parts;
            let mut k: usize = cs.len();
            while k > 0
                invariant
                    k <= cs@.len(),
                    parts@.len() == k,
                    g@ == GateSpec::ControlledNot(cs@, *t),
                    gate_ok(g@, n),
                    n == old(slots)@.len(),
                    old_slots == old(slots)@,
                    slots@.len() == n,
                    *t < n,
                    slots@[*t as int] is None,
                    slots_hold_own(slots@),
                    forall|p: int| 0 <= p < k ==> register_indices(#[trigger] parts@[p]) == seq![cs@[p]],
                    forall|p: int| 0 <= p < k ==> register_ops(#[trigger] parts@[p]) == big,
                    forall|p: int| 0 <= p < cs@.len() ==> cs@[p] < n,
                    forall|p: int|
                        k <= p < cs@.len() ==> (#[trigger] slots@[cs@[p] as int]) is Some && register_ops(
                            slots@[cs@[p] as int].unwrap(),
                        ) == big,
                    forall|q: int|
                        0 <= q < n && q != *t && (forall|p: int| 0 <= p < cs@.len() ==> cs@[p] != q) ==> (
                        #[trigger] slots@[q]) == old_slots[q],
                    forall|q: int|
                        0 <= q < n && q != *t && (forall|p: int| 0 <= p < k ==> cs@[p] != q) ==> (
                        #[trigger] slots@[q]) is Some,
                decreases k,
            {
                let part = parts.pop().unwrap();
                k -= 1;
                put_slot(slots, cs[k], part);
            }
            put_slot(slots, *t, target);
            proof {
                let qs = cs@.map_values(|c: u64| c as int).push(*t as int);
                let u = union_ops(control_regs).union_prefer_right(target_ops);
                lemma_union_pair(union_ops(control_regs), target_ops, ops);
                lemma_submap_insert(u, ops, key2, g@);
                assert(big == u.insert(key2, g@));
                assert forall|j2: int| 0 <= j2 < qs.len() implies 0 <= #[trigger] qs[j2] < old_slots.len()
                    && old_slots[qs[j2]] is Some && slots@[qs[j2]] is Some && register_ops(slots@[qs[j2]].unwrap())
                    == big && register_ops(old_slots[qs[j2]].unwrap()).submap_of(big) by {
                    if j2 < cs@.len() {
                        assert(qs[j2] == cs@[j2] as int);
                        assert(old_slots[cs@[j2] as int] == Some(control_regs[j2]));
                        lemma_member_of_union(control_regs, ops, j2);
                        lemma_sub_trans(register_ops(control_regs[j2]), union_ops(control_regs), u);
                        lemma_sub_trans(register_ops(control_regs[j2]), u, big);
                    } else {
                        assert(qs[j2] == *t as int);
                        lemma_sub_trans(target_ops, u, big);
                    }
                }
                assert forall|q: int| 0 <= q < old_slots.len() && !qs.contains(q) implies slots@[q] == old_slots[q] by {
                    if q != *t {
                        assert forall|p: int| 0 <= p < cs@.len() implies cs@[p] != q by {
                            assert(qs[p] == cs@[p] as int);
                        }
                    } else {
                        assert(qs[cs@.len() as int] == q);
                    }
                }
                lemma_carry_update(old_slots, slots@, ops, key2, g@, qs, big);
                assert(slots_carry(slots@, ops.insert(key2, g@)));
            }
            Ok(())
        },
    }
}

proof fn lemma_ids_push(
    ops: Map<nat, GateSpec>,
    ids: Seq<nat>,
    log: Seq<GateSpec>,
    k: int,
    key: nat,
    before: nat,
)
    requires
        0 <= k < log.len(),
        ops_in_order(ops, ids, log.take(k)),
        forall|i: int| 0 <= i < ids.len() ==> ids[i] < before,
        before <= key,
    ensures
        ops_in_order(ops.insert(key, log[k]), ids.push(key), log.take(k + 1)),
{
    reveal(ops_in_order);
    let ids2 = ids.push(key);
    let ops2 = ops.insert(key, log[k]);
    assert(log.take(k + 1) =~= log.take(k).push(log[k]));
    assert forall|kk: nat| ops2.dom().contains(kk) <==> ids2.contains(kk) by {
        if ids2.contains(kk) && kk != key {
            let i = choose|i: int| 0 <= i < ids2.len() && ids2[i] == kk;
            assert(ids[i] == kk);
            assert(ids.contains(kk));
        }
        if ops.dom().contains(kk) {
            assert(ids.contains(kk));
            let i = choose|i: int| 0 <= i < ids.len() && ids[i] == kk;
            assert(ids2[i] == kk);
        }
        if kk == key {
            assert(ids2[ids.len() as int] == kk);
        }
    }
    assert forall|i: int| 0 <= i < ids2.len() implies ops2[#[trigger] ids2[i]] == log.take(k + 1)[i] by {
        if i < ids.len() {
            assert(ids2[i] == ids[i]);
            assert(ids[i] < before);
        }
    }
    assert forall|i: int, j: int| 0 <= i < j < ids2.len() implies ids2[i] < ids2[j] by {
        if j == ids.len() {
            assert(ids2[i] == ids[i]);
        }
    }
}

proof fn lemma_realized(
    out: Seq<Register>,
    final_slots: Seq<Option<Register>>,
    ops: Map<nat, GateSpec>,
    ids: Seq<nat>,
    log: Seq<GateSpec>,
)
    requires
        out.len() == final_slots.len(),
        forall|p: int| 0 <= p < out.len() ==> Some(#[trigger] out[p]) == final_slots[p],
        slots_carry(final_slots, ops),
        ops_in_order(ops, ids, log),
    ensures
        ops_in_order(union_ops(out), ids, log),
{
    reveal(ops_in_order);
    assert forall|p: int| 0 <= p < out.len() implies register_ops(#[trigger] out[p]).submap_of(ops) by {
        assert(Some(out[p]) == final_slots[p]);
    }
    lemma_union_ops(out, ops);
    assert forall|kk: nat| #[trigger] ops.dom().contains(kk) implies union_ops(out).dom().contains(kk) by {
        let p = choose|p: int|
            0 <= p < final_slots.len() && final_slots[p] is Some && #[trigger] register_ops(final_slots[p].unwrap()).dom().contains(
                kk,
            );
        assert(Some(out[p]) == final_slots[p]);
        assert(register_ops(out[p]).dom().contains(kk));
    }
    assert forall|kk: nat| #[trigger] union_ops(out).dom().contains(kk) implies ops.dom().contains(kk) && union_ops(out)[kk]
        == ops[kk] by {
        lemma_in_submap(union_ops(out), ops, kk);
    }
    assert(union_ops(out) =~= ops);
}

/// The circuit built in qip: one single-qubit register per allocated qubit,
/// then every gate of the log in order. Returns the builder and the
/// registers, register `q` holding qubit `q`; together they carry the gates
/// of the log, in order, as the operations that qip runs. Succeeds exactly
/// where every gate names allocated qubits, none twice, the qubit count fits
/// the machine's indices and qip's `u64` ids suffice for the operations.
pub fn realize(circuit: &CircuitBuilder) -> (r: Result<(OpBuilder, Vec<Register>), RealizeError>)
    ensures
        r is Ok <==> circuit.allocated() <= usize::MAX && circuit.allocated() + ops_cost(circuit.log()) <= u64::MAX
            && circuit_ok(circuit.log(), circuit.allocated()),
        r matches Err(RealizeError::TooManyQubits) <==> circuit.allocated() > usize::MAX,
        r matches Err(RealizeError::TooManyOperations) <==> circuit.allocated() <= usize::MAX && circuit.allocated()
            + ops_cost(circuit.log()) > u64::MAX,
        r matches Ok(v) ==> {
            &&& v.1@.len() == circuit.allocated()
            &&& builder_qubit_count(v.0) == circuit.allocated()
            &&& forall|q: int| 0 <= q < v.1@.len() ==> register_indices(#[trigger] v.1@[q]) == seq![q as u64]
            &&& records_log(v.1@, circuit.log())
        },
{
    let n = circuit.qubit_count();
    if n as u128 > usize::MAX as u128 {
        return Err(RealizeError::TooManyQubits);
    }
    let gates = circuit.gates();
    let ghost log = circuit.log();
    let mut budget: u128 = n as u128;
    let mut k: usize = 0;
    while k < gates.len()
        invariant
            k <= gates@.len(),
            gates@.map_values(|g: Gate| g@) == log,
            budget == n + ops_cost(log.take(k as int)),
            budget <= u64::MAX,
            n == circuit.allocated(),
            n <= usize::MAX,
            log == circuit.log(),
        decreases gates@.len() - k,
    {
        assert(log[k as int] == gates@[k as int]@);
        proof {
            lemma_ops_cost_prefix(log, k as int);
        }
        let cost: u128 = match &gates[k] {
            Gate::Not(_) => 1,
            Gate::Hadamard(_) => 1,
            Gate::Swap(_, _) => 3,
            Gate::ControlledNot(cs, _) => 4 + 2 * (cs.len() as u128),
        };
        budget = budget + cost;
        if budget > u64::MAX as u128 {
            proof {
                lemma_ops_cost_prefix(log, k as int);
            }
            return Err(RealizeError::TooManyOperations);
        }
        k += 1;
    }
    assert(log.take(gates@.len() as int) =~= log);
    let mut b = op_builder();
    let mut slots: Vec<Option<Register>> = Vec::new();
    let mut q: u64 = 0;
    while q < n
        invariant
            q <= n,
            n <= usize::MAX,
            n + ops_cost(log) <= u64::MAX,
            slots@.len() == q,
            builder_qubit_count(b) == q,
            builder_next_id(b) == q,
            slots_ok(slots@),
            forall|p: int| 0 <= p < slots@.len() ==> register_ops((#[trigger] slots@[p]).unwrap()).dom().is_empty(),
        decreases n - q,
    {
        let reg = new_qubit(&mut b);
        slots.push(Some(reg));
        q += 1;
    }
    let ghost mut ops: Map<nat, GateSpec> = Map::empty();
    let ghost mut ids: Seq<nat> = Seq::empty();
    proof {
        assert forall|p: int| 0 <= p < slots@.len() && (#[trigger] slots@[p]) is Some implies register_ops(
            slots@[p].unwrap(),
        ).submap_of(ops) by {
            assert(register_ops(slots@[p].unwrap()).dom().is_empty());
        }
        assert(log.take(0) =~= Seq::<GateSpec>::empty());
        reveal(ops_in_order);
        assert(ops_in_order(ops, ids, log.take(0)));
    }
    let mut k: usize = 0;
    while k < gates.len()
        invariant
            k <= gates@.len(),
            gates@.map_values(|g: Gate| g@) == log,
            n == circuit.allocated(),
            slots@.len() == n,
            builder_qubit_count(b) == n,
            slots_ok(slots@),
            slots_carry(slots@, ops),
            forall|kk: nat| ops.dom().contains(kk) ==> kk < builder_next_id(b),
            builder_next_id(b) <= n + ops_cost(log.take(k as int)),
            n + ops_cost(log) <= u64::MAX,
            ops_in_order(ops, ids, log.take(k as int)),
            forall|i: int| 0 <= i < ids.len() ==> ids[i] < builder_next_id(b),
            forall|i: int| 0 <= i < k ==> gate_ok(#[trigger] log[i], n as nat),
            log == circuit.log(),
            n <= usize::MAX,
        decreases gates@.len() - k,
    {
        assert(log[k as int] == gates@[k as int]@);
        proof {
            lemma_ops_cost_prefix(log, k as int);
        }
        let ghost before = builder_next_id(b);
        match apply_gate(&mut b, &mut slots, &gates[k], Ghost(ops)) {
            Ok(()) => {},
            Err(e) => {
                return Err(e);
            },
        }
        proof {
            let key = choose|key: nat|
                before <= key < builder_next_id(b) && #[trigger] slots_carry(slots@, ops.insert(key, log[k as int]));
            lemma_ids_push(ops, ids, log, k as int, key, before);
            ops = ops.insert(key, log[k as int]);
            ids = ids.push(key);
        }
        k += 1;
    }
    assert(log.take(gates@.len() as int) =~= log);
    assert(circuit_ok(log, n as nat));
    let ghost final_slots = slots@;
    let mut out: Vec<Register> = Vec::new();
    let mut q: u64 = 0;
    while q < n
        invariant
            q <= n,
            n <= usize::MAX,
            slots@.len() == n,
            final_slots.len() == n,
            slots_ok(final_slots),
            forall|p: int| q <= p < n ==> (#[trigger] slots@[p]) == final_slots[p],
            out@.len() == q,
            forall|p: int| 0 <= p < q ==> Some(#[trigger] out@[p]) == final_slots[p],
            builder_qubit_count(b) == n,
            n == circuit.allocated(),
            log == circuit.log(),
            slots_carry(final_slots, ops),
            ops_in_order(ops, ids, log),
        decreases n - q,
    {
        match take_slot(&mut slots, q) {
            Ok(reg) => out.push(reg),
            Err(e) => {
                return Err(e);
            },
        }
        q += 1;
    }
    proof {
        lemma_realized(out@, final_slots, ops, ids, log);
        assert forall|p: int| 0 <= p < out@.len() implies register_indices(#[trigger] out@[p]) == seq![p as u64] by {
            assert(Some(out@[p]) == final_slots[p]);
        }
        assert(ops_in_order(union_ops(out@), ids, circuit.log()));
        assert(records_log(out@, circuit.log()));
        assert(out@.len() == circuit.allocated());
        assert(builder_qubit_count(b) == circuit.allocated());
    }
    Ok((b, out))
}

} // verus!
