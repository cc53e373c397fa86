use vstd::prelude::*;
use crate::searcher::circuit::{
    copy_qubits, fan_gates, fresh, hadamard_gates, make_init_from_index, not_gates, pow2_u64, qubit_at,
    sub_register, swap_gates, CircuitBuilder, GateSpec, InitState, QubitRegister,
};
use vstd::assert_seqs_equal;
use crate::searcher::searcher::{diffuse, diffuse_gates, func_hadamard};

verus! {

// ---------------------------------------------------------------------------
// Gate sequences that the register operations apply
// ---------------------------------------------------------------------------

/// For each `i < n`: flip `r[i]` when `a[i]` and `b[i]` are both set.
pub open spec fn pair_gates(a: Seq<u64>, b: Seq<u64>, r: Seq<u64>, n: nat) -> Seq<GateSpec> {
    Seq::new(n, |i: int| GateSpec::ControlledNot(seq![a[i], b[i]], r[i]))
}

/// For each `k < src.len()`: flip `dst[k]` when `src[k]` is set.
pub open spec fn copy_gates(src: Seq<u64>, dst: Seq<u64>) -> Seq<GateSpec> {
    Seq::new(src.len(), |k: int| GateSpec::ControlledNot(seq![src[k]], dst[k]))
}

/// Number of chunks (of at most eight qubits) of a zeroed register of `len` qubits.
pub open spec fn chunk_count(len: nat) -> nat {
    len / 8 + if len % 8 != 0 { 1nat } else { 0nat }
}

/// Length of chunk `k` of a zeroed register of `len` qubits.
pub open spec fn chunk_len(len: nat, k: nat) -> nat {
    if 8 * k + 8 <= len { 8 } else { (len - 8 * k) as nat }
}

/// The qubits and the value of each initial state.
pub open spec fn init_views(inits: Seq<InitState>) -> Seq<(Seq<u64>, u64)> {
    inits.map_values(|i: InitState| (i.qubits@, i.value))
}

/// The initial states that `zeroed_register` returns for a register of `len`
/// qubits starting at qubit `start`: `|0>` for every chunk of eight qubits and
/// for the shorter rest.
pub open spec fn zero_init_views(start: nat, len: nat) -> Seq<(Seq<u64>, u64)> {
    Seq::new(chunk_count(len), |k: int| (fresh((start + 8 * k) as nat, chunk_len(len, k as nat)), 0u64))
}

pub open spec fn xor_gates(a: Seq<u64>, b: Seq<u64>, r: Seq<u64>) -> Seq<GateSpec> {
    not_gates(a) + pair_gates(a, b, r, a.len()) + not_gates(a) + not_gates(b) + pair_gates(a, b, r, a.len())
        + not_gates(b)
}

pub open spec fn or_gates(a: Seq<u64>, b: Seq<u64>, r: Seq<u64>) -> Seq<GateSpec> {
    not_gates(r) + not_gates(a) + not_gates(b) + pair_gates(a, b, r, a.len()) + not_gates(a) + not_gates(b)
}

pub open spec fn rotr_gates(reg: Seq<u64>, res: Seq<u64>, step: int) -> Seq<GateSpec> {
    let n = reg.len() as int;
    fan_gates(reg.subrange(0, n - step), res.subrange(step, n)) + fan_gates(
        reg.subrange(n - step, n),
        res.subrange(0, step),
    )
}

pub open spec fn rotl_gates(reg: Seq<u64>, res: Seq<u64>, step: int) -> Seq<GateSpec> {
    let n = reg.len() as int;
    fan_gates(reg.subrange(step, n), res.subrange(0, n - step)) + fan_gates(
        reg.subrange(0, step),
        res.subrange(n - step, n),
    )
}

pub open spec fn rotr_inplace_gates(reg: Seq<u64>, res: Seq<u64>, step: int) -> Seq<GateSpec> {
    let n = reg.len() as int;
    swap_gates(reg.subrange(0, n - step), res.subrange(step, n)) + swap_gates(
        reg.subrange(n - step, n),
        res.subrange(0, step),
    )
}

pub open spec fn rotl_inplace_gates(reg: Seq<u64>, res: Seq<u64>, step: int) -> Seq<GateSpec> {
    let n = reg.len() as int;
    swap_gates(reg.subrange(step, n), res.subrange(0, n - step)) + swap_gates(
        reg.subrange(0, step),
        res.subrange(n - step, n),
    )
}

// ---------------------------------------------------------------------------
// Wrappers that act on the registers of one circuit line: they take the
// registers of the line in order, the last argument last.
// ---------------------------------------------------------------------------

/// Toffoli on the last three registers of `rs`: flips every qubit of the last
/// one when all qubits of the two before it are set.
pub fn ccnot_wrapper(b: &mut CircuitBuilder, rs: Vec<QubitRegister>) -> (out: Vec<QubitRegister>)
    requires
        rs@.len() >= 3,
    ensures
        out@.len() == 3,
        out@[0]@ == rs@[rs@.len() - 3]@,
        out@[1]@ == rs@[rs@.len() - 2]@,
        out@[2]@ == rs@[rs@.len() - 1]@,
        final(b).allocated() == old(b).allocated(),
        final(b).log() == old(b).log() + fan_gates(rs@[rs@.len() - 3]@ + rs@[rs@.len() - 2]@, rs@[rs@.len() - 1]@),
{
    let mut rs = rs;
    let r3 = rs.pop().unwrap();
    let r2 = rs.pop().unwrap();
    let r1 = rs.pop().unwrap();
    let (r1, r2, r3) = b.ccnot(r1, r2, r3);
    vec![r1, r2, r3]
}

/// Controlled not from the second last register of `rs` onto every qubit of
/// the last one.
pub fn cnot_wrapper(b: &mut CircuitBuilder, rs: Vec<QubitRegister>) -> (out: Vec<QubitRegister>)
    requires
        rs@.len() >= 2,
    ensures
        out@.len() == 2,
        out@[0]@ == rs@[rs@.len() - 2]@,
        out@[1]@ == rs@[rs@.len() - 1]@,
        final(b).allocated() == old(b).allocated(),
        final(b).log() == old(b).log() + fan_gates(rs@[rs@.len() - 2]@, rs@[rs@.len() - 1]@),
{
    let mut rs = rs;
    let r2 = rs.pop().unwrap();
    let r1 = rs.pop().unwrap();
    let (r1, r2) = b.cnot(r1, r2);
    vec![r1, r2]
}

/// Swaps the last two registers of `rs` qubit by qubit.
pub fn swap_wrapper(b: &mut CircuitBuilder, rs: Vec<QubitRegister>) -> (out: Vec<QubitRegister>)
    requires
        rs@.len() >= 2,
        rs@[rs@.len() - 2]@.len() == rs@[rs@.len() - 1]@.len(),
        rs@[rs@.len() - 1]@.len() > 0,
    ensures
        out@.len() == 2,
        out@[0]@ == rs@[rs@.len() - 2]@,
        out@[1]@ == rs@[rs@.len() - 1]@,
        final(b).allocated() == old(b).allocated(),
        final(b).log() == old(b).log() + swap_gates(rs@[rs@.len() - 2]@, rs@[rs@.len() - 1]@),
{
    let mut rs = rs;
    let r2 = rs.pop().unwrap();
    let r1 = rs.pop().unwrap();
    let (r1, r2) = b.swap(r1, r2);
    vec![r1, r2]
}

// ---------------------------------------------------------------------------
// Fresh registers
// ---------------------------------------------------------------------------

/// A register of `len` fresh qubits, allocated in chunks of eight (the last
/// chunk holds the rest), with the initial state `|0>` for every chunk.
pub fn zeroed_register(b: &mut CircuitBuilder, len: u64) -> (out: (QubitRegister, Vec<InitState>))
    requires
        len > 0,
        old(b).allocated() + len <= u64::MAX,
    ensures
        out.0@ == fresh(old(b).allocated(), len as nat),
        init_views(out.1@) == zero_init_views(old(b).allocated(), len as nat),
        final(b).allocated() == old(b).allocated() + len,
        final(b).log() == old(b).log(),
{
    let start = b.qubit_count();
    let chunks_amount = len / 8;
    let remains_len = len % 8;
    let mut qubits: Vec<u64> = Vec::new();
    let mut inits: Vec<InitState> = Vec::new();
    let mut k: u64 = 0;
    proof {
        reveal_with_fuel(pow2_u64, 9);
    }
    while k < chunks_amount
        invariant
            k <= chunks_amount,
            chunks_amount == len / 8,
            start + len <= u64::MAX,
            b.allocated() == start + 8 * k,
            b.log() == old(b).log(),
            start == old(b).allocated(),
            qubits@ == fresh(start as nat, (8 * k) as nat),
            inits@.len() == k,
            forall|j: int| 0 <= j < k ==> {
                &&& (#[trigger] inits@[j]).qubits@ == fresh((start + 8 * j) as nat, 8)
                &&& inits@[j].value == 0
            },
            pow2_u64(8) == 256,
        decreases chunks_amount - k,
    {
        let mut reg = b.register(8);
        let init = make_init_from_index(&reg, 0);
        qubits.append(&mut reg.qubits);
        inits.push(init);
        assert(qubits@ =~= fresh(start as nat, (8 * (k + 1)) as nat));
        k += 1;
    }
    if remains_len != 0 {
        assert(pow2_u64(remains_len as nat) >= 1) by {
            reveal_with_fuel(pow2_u64, 9);
        }
        let mut reg = b.register(remains_len);
        let init = make_init_from_index(&reg, 0);
        qubits.append(&mut reg.qubits);
        inits.push(init);
        assert(qubits@ =~= fresh(start as nat, len as nat));
    } else {
        assert(qubits@ =~= fresh(start as nat, len as nat));
    }
    assert forall|j: int| 0 <= j < inits@.len() implies {
        &&& (#[trigger] inits@[j]).qubits@ == fresh((start + 8 * j) as nat, chunk_len(len as nat, j as nat))
        &&& inits@[j].value == 0
    } by {
        if j < chunks_amount {
            assert(8 * j + 8 <= len);
        }
    }
    assert(init_views(inits@) =~= zero_init_views(start as nat, len as nat));
    (QubitRegister { qubits }, inits)
}

/// A register of `len` fresh qubits, all flipped to one.
pub fn oneed_register(b: &mut CircuitBuilder, len: u64) -> (out: (QubitRegister, Vec<InitState>))
    requires
        len > 0,
        old(b).allocated() + len <= u64::MAX,
    ensures
        out.0@ == fresh(old(b).allocated(), len as nat),
        init_views(out.1@) == zero_init_views(old(b).allocated(), len as nat),
        final(b).allocated() == old(b).allocated() + len,
        final(b).log() == old(b).log() + not_gates(out.0@),
{
    let (reg, init) = zeroed_register(b, len);
    let reg = b.not(reg);
    (reg, init)
}

// ---------------------------------------------------------------------------
// Loops of single-qubit gates
// ---------------------------------------------------------------------------

/// For each `i < n`, a Toffoli from `a[i]` and `c[i]` onto `r[i]`.
pub fn ccnot_each(b: &mut CircuitBuilder, a: QubitRegister, c: QubitRegister, r: QubitRegister, n: usize) -> (out: (
    QubitRegister,
    QubitRegister,
    QubitRegister,
))
    requires
        n <= a@.len(),
        n <= c@.len(),
        n <= r@.len(),
    ensures
        out.0@ == a@,
        out.1@ == c@,
        out.2@ == r@,
        final(b).allocated() == old(b).allocated(),
        final(b).log() == old(b).log() + pair_gates(a@, c@, r@, n as nat),
{
    let ghost start = b.log();
    let mut i: usize = 0;
    while i < n
        invariant
            i <= n,
            n <= a@.len(),
            n <= c@.len(),
            n <= r@.len(),
            b.allocated() == old(b).allocated(),
            b.log() == start + pair_gates(a@, c@, r@, i as nat),
        decreases n - i,
    {
        let rs = vec![qubit_at(&a, i), qubit_at(&c, i), qubit_at(&r, i)];
        let _ = ccnot_wrapper(b, rs);
        let ghost g = GateSpec::ControlledNot(seq![a@[i as int], c@[i as int]], r@[i as int]);
        assert(seq![a@[i as int]] + seq![c@[i as int]] =~= seq![a@[i as int], c@[i as int]]);
        assert(fan_gates(seq![a@[i as int]] + seq![c@[i as int]], seq![r@[i as int]]) =~= seq![g]);
        assert(pair_gates(a@, c@, r@, (i + 1) as nat) =~= pair_gates(a@, c@, r@, i as nat).push(g));
        assert(start + pair_gates(a@, c@, r@, (i + 1) as nat) =~= (start + pair_gates(a@, c@, r@, i as nat)) + seq![g]);
        i += 1;
    }
    (a, c, r)
}

/// For each `k < count`, a controlled not from `src[src_start + k]` onto
/// `dst[dst_start + k]`.
pub fn cnot_each(
    b: &mut CircuitBuilder,
    src: QubitRegister,
    dst: QubitRegister,
    src_start: usize,
    dst_start: usize,
    count: usize,
) -> (out: (QubitRegister, QubitRegister))
    requires
        src_start + count <= src@.len(),
        dst_start + count <= dst@.len(),
    ensures
        out.0@ == src@,
        out.1@ == dst@,
        final(b).allocated() == old(b).allocated(),
        final(b).log() == old(b).log() + copy_gates(
            src@.subrange(src_start as int, src_start + count),
            dst@.subrange(dst_start as int, dst_start + count),
        ),
{
    let ghost start = b.log();
    let ghost s = src@.subrange(src_start as int, src_start + count);
    let ghost d = dst@.subrange(dst_start as int, dst_start + count);
    let sl = src.qubits.len();
    let dl = dst.qubits.len();
    let mut k: usize = 0;
    while k < count
        invariant
            k <= count,
            sl == src@.len(),
            dl == dst@.len(),
            src_start + count <= src@.len(),
            dst_start + count <= dst@.len(),
            s == src@.subrange(src_start as int, src_start + count),
            d == dst@.subrange(dst_start as int, dst_start + count),
            b.allocated() == old(b).allocated(),
            b.log() == start + copy_gates(s.take(k as int), d.take(k as int)),
        decreases count - k,
    {
        let rs = vec![qubit_at(&src, src_start + k), qubit_at(&dst, dst_start + k)];
        let _ = cnot_wrapper(b, rs);
        let ghost g = GateSpec::ControlledNot(seq![s[k as int]], d[k as int]);
        assert(fan_gates(seq![src@[src_start + k]], seq![dst@[dst_start + k]]) =~= seq![g]);
        assert(copy_gates(s.take(k + 1), d.take(k + 1)) =~= copy_gates(s.take(k as int), d.take(k as int)).push(g));
        assert(start + copy_gates(s.take(k + 1), d.take(k + 1)) =~= (start + copy_gates(s.take(k as int), d.take(k as int))) + seq![g]);
        k += 1;
    }
    assert(s.take(count as int) =~= s);
    assert(d.take(count as int) =~= d);
    (src, dst)
}

// ---------------------------------------------------------------------------
// Register operations
// ---------------------------------------------------------------------------

/// Allocates a zeroed register `res` as wide as `reg` and, with `s = step % n`,
/// flips all of `res[s..n]` when all of `reg[0..n-s]` are set and all of
/// `res[0..s]` when all of `reg[n-s..n]` are set.
pub fn register_rotr(b: &mut CircuitBuilder, reg: QubitRegister, step: u64) -> (out: (
    QubitRegister,
    QubitRegister,
    Vec<InitState>,
))
    requires
        reg@.len() > 0,
        step % (reg@.len() as u64) != 0,
        old(b).allocated() + reg@.len() <= u64::MAX,
    ensures
        out.0@ == reg@,
        out.1@ == fresh(old(b).allocated(), reg@.len()),
        init_views(out.2@) == zero_init_views(old(b).allocated(), reg@.len()),
        final(b).allocated() == old(b).allocated() + reg@.len(),
        final(b).log() == old(b).log() + rotr_gates(reg@, out.1@, (step % (reg@.len() as u64)) as int),
{
    let n = reg.qubits.len() as u64;
    let step = step % n;
    let (res, init) = zeroed_register(b, n);
    let n = n as usize;
    let st = step as usize;
    let reg_lo = sub_register(&reg, 0, n - st);
    let res_hi = sub_register(&res, st, n);
    let _ = cnot_wrapper(b, vec![reg_lo, res_hi]);
    let reg_hi = sub_register(&reg, n - st, n);
    let res_lo = sub_register(&res, 0, st);
    let _ = cnot_wrapper(b, vec![reg_hi, res_lo]);
    proof {
        assert_seqs_equal!(b.log(), old(b).log() + rotr_gates(reg@, res@, st as int));
    }
    (reg, res, init)
}

/// Allocates a zeroed register `res` as wide as `reg` and, with `s = step % n`,
/// swaps `reg[0..n-s]` with `res[s..n]` and `reg[n-s..n]` with `res[0..s]`;
/// returns `res`.
pub fn register_rotr_inplace(b: &mut CircuitBuilder, reg: QubitRegister, step: u64) -> (out: QubitRegister)
    requires
        reg@.len() > 0,
        step % (reg@.len() as u64) != 0,
        old(b).allocated() + reg@.len() <= u64::MAX,
    ensures
        out@ == fresh(old(b).allocated(), reg@.len()),
        final(b).allocated() == old(b).allocated() + reg@.len(),
        final(b).log() == old(b).log() + rotr_inplace_gates(reg@, out@, (step % (reg@.len() as u64)) as int),
{
    let n = reg.qubits.len() as u64;
    let step = step % n;
    let (res, _) = zeroed_register(b, n);
    let n = n as usize;
    let st = step as usize;
    let reg_lo = sub_register(&reg, 0, n - st);
    let res_hi = sub_register(&res, st, n);
    let _ = swap_wrapper(b, vec![reg_lo, res_hi]);
    let reg_hi = sub_register(&reg, n - st, n);
    let res_lo = sub_register(&res, 0, st);
    let _ = swap_wrapper(b, vec![reg_hi, res_lo]);
    proof {
        assert_seqs_equal!(b.log(), old(b).log() + rotr_inplace_gates(reg@, res@, st as int));
    }
    res
}

/// Allocates a zeroed register `res` as wide as `reg` and, with `s = step % n`,
/// flips all of `res[0..n-s]` when all of `reg[s..n]` are set and all of
/// `res[n-s..n]` when all of `reg[0..s]` are set.
pub fn register_rotl(b: &mut CircuitBuilder, reg: QubitRegister, step: u64) -> (out: (
    QubitRegister,
    QubitRegister,
    Vec<InitState>,
))
    requires
        reg@.len() > 0,
        step % (reg@.len() as u64) != 0,
        old(b).allocated() + reg@.len() <= u64::MAX,
    ensures
        out.0@ == reg@,
        out.1@ == fresh(old(b).allocated(), reg@.len()),
        init_views(out.2@) == zero_init_views(old(b).allocated(), reg@.len()),
        final(b).allocated() == old(b).allocated() + reg@.len(),
        final(b).log() == old(b).log() + rotl_gates(reg@, out.1@, (step % (reg@.len() as u64)) as int),
{
    let n = reg.qubits.len() as u64;
    let step = step % n;
    let (res, init) = zeroed_register(b, n);
    let n = n as usize;
    let st = step as usize;
    let reg_hi = sub_register(&reg, st, n);
    let res_lo = sub_register(&res, 0, n - st);
    let _ = cnot_wrapper(b, vec![reg_hi, res_lo]);
    let reg_lo = sub_register(&reg, 0, st);
    let res_hi = sub_register(&res, n - st, n);
    let _ = cnot_wrapper(b, vec![reg_lo, res_hi]);
    proof {
        assert_seqs_equal!(b.log(), old(b).log() + rotl_gates(reg@, res@, st as int));
    }
    (reg, res, init)
}

/// Allocates a zeroed register `res` as wide as `reg` and, with `s = step % n`,
/// swaps `reg[s..n]` with `res[0..n-s]` and `reg[0..s]` with `res[n-s..n]`;
/// returns `res`.
pub fn register_rotl_inplace(b: &mut CircuitBuilder, reg: QubitRegister, step: u64) -> (out: QubitRegister)
    requires
        reg@.len() > 0,
        step % (reg@.len() as u64) != 0,
        old(b).allocated() + reg@.len() <= u64::MAX,
    ensures
        out@ == fresh(old(b).allocated(), reg@.len()),
        final(b).allocated() == old(b).allocated() + reg@.len(),
        final(b).log() == old(b).log() + rotl_inplace_gates(reg@, out@, (step % (reg@.len() as u64)) as int),
{
    let n = reg.qubits.len() as u64;
    let step = step % n;
    let (res, _) = zeroed_register(b, n);
    let n = n as usize;
    let st = step as usize;
    let reg_hi = sub_register(&reg, st, n);
    let res_lo = sub_register(&res, 0, n - st);
    let _ = swap_wrapper(b, vec![reg_hi, res_lo]);
    let reg_lo = sub_register(&reg, 0, st);
    let res_hi = sub_register(&res, n - st, n);
    let _ = swap_wrapper(b, vec![reg_lo, res_hi]);
    proof {
        assert_seqs_equal!(b.log(), old(b).log() + rotl_inplace_gates(reg@, res@, st as int));
    }
    res
}

/// Bitwise and of `reg1` and `reg2` into a fresh zeroed register.
pub fn register_and(b: &mut CircuitBuilder, reg1: QubitRegister, reg2: QubitRegister) -> (out: (
    QubitRegister,
    QubitRegister,
    QubitRegister,
    Vec<InitState>,
))
    requires
        reg1@.len() > 0,
        reg1@.len() <= reg2@.len(),
        old(b).allocated() + reg1@.len() <= u64::MAX,
    ensures
        out.0@ == reg1@,
        out.1@ == reg2@,
        out.2@ == fresh(old(b).allocated(), reg1@.len()),
        init_views(out.3@) == zero_init_views(old(b).allocated(), reg1@.len()),
        final(b).allocated() == old(b).allocated() + reg1@.len(),
        final(b).log() == old(b).log() + pair_gates(reg1@, reg2@, out.2@, reg1@.len()),
{
    let n = reg1.qubits.len();
    let (res, init) = zeroed_register(b, n as u64);
    let (reg1, reg2, res) = ccnot_each(b, reg1, reg2, res, n);
    (reg1, reg2, res, init)
}

/// Bitwise or of `reg1` and `reg2` into a fresh register set to ones: both
/// inputs are negated, their and is flipped into the result, and the inputs
/// are negated back.
pub fn register_or(b: &mut CircuitBuilder, reg1: QubitRegister, reg2: QubitRegister) -> (out: (
    QubitRegister,
    QubitRegister,
    QubitRegister,
    Vec<InitState>,
))
    requires
        reg1@.len() > 0,
        reg1@.len() <= reg2@.len(),
        old(b).allocated() + reg1@.len() <= u64::MAX,
    ensures
        out.0@ == reg1@,
        out.1@ == reg2@,
        out.2@ == fresh(old(b).allocated(), reg1@.len()),
        init_views(out.3@) == zero_init_views(old(b).allocated(), reg1@.len()),
        final(b).allocated() == old(b).allocated() + reg1@.len(),
        final(b).log() == old(b).log() + or_gates(reg1@, reg2@, out.2@),
{
    let n = reg1.qubits.len();
    let (res, init) = oneed_register(b, n as u64);
    let reg1 = b.not(reg1);
    let reg2 = b.not(reg2);
    let (reg1, reg2, res) = ccnot_each(b, reg1, reg2, res, n);
    let reg1 = b.not(reg1);
    let reg2 = b.not(reg2);
    proof {
        assert_seqs_equal!(b.log(), old(b).log() + or_gates(reg1@, reg2@, res@));
    }
    (reg1, reg2, res, init)
}

/// Bitwise xor of `reg1` and `reg2` into a fresh zeroed register, as
/// `(!a & b) ^ (a & !b)`.
pub fn register_xor(b: &mut CircuitBuilder, reg1: QubitRegister, reg2: QubitRegister) -> (out: (
    QubitRegister,
    QubitRegister,
    QubitRegister,
    Vec<InitState>,
))
    requires
        reg1@.len() > 0,
        reg1@.len() <= reg2@.len(),
        old(b).allocated() + reg1@.len() <= u64::MAX,
    ensures
        out.0@ == reg1@,
        out.1@ == reg2@,
        out.2@ == fresh(old(b).allocated(), reg1@.len()),
        init_views(out.3@) == zero_init_views(old(b).allocated(), reg1@.len()),
        final(b).allocated() == old(b).allocated() + reg1@.len(),
        final(b).log() == old(b).log() + xor_gates(reg1@, reg2@, out.2@),
{
    let n = reg1.qubits.len();
    let reg1 = b.not(reg1);
    let (res, init) = zeroed_register(b, n as u64);
    let (reg1, reg2, res) = ccnot_each(b, reg1, reg2, res, n);
    let reg1 = b.not(reg1);
    let reg2 = b.not(reg2);
    let (reg1, reg2, res) = ccnot_each(b, reg1, reg2, res, n);
    let reg2 = b.not(reg2);
    proof {
        assert_seqs_equal!(b.log(), old(b).log() + xor_gates(reg1@, reg2@, res@));
    }
    (reg1, reg2, res, init)
}

/// Copies `reg[i]` into `res[i + step]` of a fresh zeroed register, for
/// `i < n - step`.
pub fn register_shiftr(b: &mut CircuitBuilder, reg: QubitRegister, step: u64) -> (out: (
    QubitRegister,
    QubitRegister,
    Vec<InitState>,
))
    requires
        reg@.len() > 0,
        step <= reg@.len(),
        old(b).allocated() + reg@.len() <= u64::MAX,
    ensures
        out.0@ == reg@,
        out.1@ == fresh(old(b).allocated(), reg@.len()),
        init_views(out.2@) == zero_init_views(old(b).allocated(), reg@.len()),
        final(b).allocated() == old(b).allocated() + reg@.len(),
        final(b).log() == old(b).log() + copy_gates(
            reg@.subrange(0, reg@.len() - step),
            out.1@.subrange(step as int, reg@.len() as int),
        ),
{
    let n = reg.qubits.len();
    let (res, init) = zeroed_register(b, n as u64);
    let st = step as usize;
    let (reg, res) = cnot_each(b, reg, res, 0, st, n - st);
    (reg, res, init)
}

/// Copies `reg[i]` into `res[i - step]` of a fresh zeroed register, for
/// `step <= i < n`.
pub fn register_shiftl(b: &mut CircuitBuilder, reg: QubitRegister, step: u64) -> (out: (
    QubitRegister,
    QubitRegister,
    Vec<InitState>,
))
    requires
        reg@.len() > 0,
        old(b).allocated() + reg@.len() <= u64::MAX,
    ensures
        out.0@ == reg@,
        out.1@ == fresh(old(b).allocated(), reg@.len()),
        init_views(out.2@) == zero_init_views(old(b).allocated(), reg@.len()),
        final(b).allocated() == old(b).allocated() + reg@.len(),
        step < reg@.len() ==> final(b).log() == old(b).log() + copy_gates(
            reg@.subrange(step as int, reg@.len() as int),
            out.1@.subrange(0, reg@.len() - step),
        ),
        step >= reg@.len() ==> final(b).log() == old(b).log(),
{
    let n = reg.qubits.len();
    let (res, init) = zeroed_register(b, n as u64);
    if step < n as u64 {
        let st = step as usize;
        let (reg, res) = cnot_each(b, reg, res, st, 0, n - st);
        (reg, res, init)
    } else {
        (reg, res, init)
    }
}

/// Bitwise negation of `reg` into a fresh register set to ones.
pub fn register_not(b: &mut CircuitBuilder, reg: QubitRegister) -> (out: (QubitRegister, QubitRegister, Vec<InitState>))
    requires
        reg@.len() > 0,
        old(b).allocated() + reg@.len() <= u64::MAX,
    ensures
        out.0@ == reg@,
        out.1@ == fresh(old(b).allocated(), reg@.len()),
        init_views(out.2@) == zero_init_views(old(b).allocated(), reg@.len()),
        final(b).allocated() == old(b).allocated() + reg@.len(),
        final(b).log() == old(b).log() + not_gates(out.1@) + copy_gates(reg@, out.1@),
{
    let n = reg.qubits.len();
    let (res, init) = oneed_register(b, n as u64);
    let (reg, res) = cnot_each(b, reg, res, 0, 0, n);
    proof {
        assert(reg@.subrange(0, n as int) =~= reg@);
        assert(res@.subrange(0, n as int) =~= res@);
    }
    (reg, res, init)
}

/// A copy of `reg` in a fresh zeroed register (entangled with `reg`).
pub fn register_entangled_copy(b: &mut CircuitBuilder, reg: QubitRegister) -> (out: (
    QubitRegister,
    QubitRegister,
    Vec<InitState>,
))
    requires
        reg@.len() > 0,
        old(b).allocated() + reg@.len() <= u64::MAX,
    ensures
        out.0@ == reg@,
        out.1@ == fresh(old(b).allocated(), reg@.len()),
        init_views(out.2@) == zero_init_views(old(b).allocated(), reg@.len()),
        final(b).allocated() == old(b).allocated() + reg@.len(),
        final(b).log() == old(b).log() + copy_gates(reg@, out.1@),
{
    let n = reg.qubits.len();
    let (res, init) = zeroed_register(b, n as u64);
    let (reg, res) = cnot_each(b, reg, res, 0, 0, n);
    proof {
        assert(reg@.subrange(0, n as int) =~= reg@);
        assert(res@.subrange(0, n as int) =~= res@);
    }
    (reg, res, init)
}


pub proof fn lemma_init_views_append(a: Seq<InitState>, b: Seq<InitState>)
    ensures
        init_views(a + b) == init_views(a) + init_views(b),
{
    assert(init_views(a + b) =~= init_views(a) + init_views(b));
}

/// Appends `more` to `inits`.
pub(crate) fn append_inits(inits: &mut Vec<InitState>, more: Vec<InitState>)
    ensures
        init_views(final(inits)@) == init_views(old(inits)@) + init_views(more@),
{
    let mut more = more;
    inits.append(&mut more);
    proof {
        lemma_init_views_append(old(inits)@, more@);
    }
}

pub open spec fn eq_gates(a: Seq<u64>, b: Seq<u64>, r: Seq<u64>, f: u64) -> Seq<GateSpec> {
    xor_gates(a, b, r) + not_gates(r) + fan_gates(r, seq![f])
}

pub open spec fn more_eq_gates(a: Seq<u64>, b: Seq<u64>, r: Seq<u64>, f: u64) -> Seq<GateSpec> {
    pair_gates(a, b, r, a.len()) + not_gates(a) + pair_gates(a, b, r, a.len()) + not_gates(b) + pair_gates(
        a,
        b,
        r,
        a.len(),
    ) + not_gates(a) + not_gates(b) + fan_gates(r, seq![f])
}

/// Compares `reg1` and `reg2` bit by bit into a fresh register `r` (each bit
/// set where the inputs agree) and sets a fresh flag qubit when all bits of
/// `r` are set. Returns the flag.
pub fn register_eq(b: &mut CircuitBuilder, reg1: QubitRegister, reg2: QubitRegister) -> (out: (
    QubitRegister,
    QubitRegister,
    QubitRegister,
    Vec<InitState>,
))
    requires
        reg1@.len() > 0,
        reg1@.len() <= reg2@.len(),
        old(b).allocated() + reg1@.len() + 1 <= u64::MAX,
    ensures
        out.0@ == reg1@,
        out.1@ == reg2@,
        out.2@ == fresh(old(b).allocated() + reg1@.len(), 1),
        init_views(out.3@) == zero_init_views(old(b).allocated(), reg1@.len()) + zero_init_views(
            old(b).allocated() + reg1@.len(),
            1,
        ),
        final(b).allocated() == old(b).allocated() + reg1@.len() + 1,
        final(b).log() == old(b).log() + eq_gates(
            reg1@,
            reg2@,
            fresh(old(b).allocated(), reg1@.len()),
            (old(b).allocated() + reg1@.len()) as u64,
        ),
{
    let n = reg1.qubits.len();
    let (res, init) = zeroed_register(b, n as u64);
    let mut init = init;
    let reg1 = b.not(reg1);
    let (reg1, reg2, res) = ccnot_each(b, reg1, reg2, res, n);
    let reg1 = b.not(reg1);
    let reg2 = b.not(reg2);
    let (reg1, reg2, res) = ccnot_each(b, reg1, reg2, res, n);
    let reg2 = b.not(reg2);
    let res = b.not(res);
    let (fres, init1) = zeroed_register(b, 1);
    append_inits(&mut init, init1);
    let (res, fres) = b.cnot(res, fres);
    proof {
        assert_seqs_equal!(b.log(), old(b).log() + eq_gates(reg1@, reg2@, res@, fres@[0]));
    }
    (reg1, reg2, fres, init)
}

/// Flips every bit of a fresh register `r` where `reg1[i]` implies `reg2[i]`
/// (the three passes flip `r[i]` for `a & b`, `!a & b` and `!a & !b`), then
/// sets a fresh flag qubit when all bits of `r` are set. Returns the flag.
pub fn register_more_eq(b: &mut CircuitBuilder, reg1: QubitRegister, reg2: QubitRegister) -> (out: (
    QubitRegister,
    QubitRegister,
    QubitRegister,
    Vec<InitState>,
))
    requires
        reg1@.len() > 0,
        reg1@.len() <= reg2@.len(),
        old(b).allocated() + reg1@.len() + 1 <= u64::MAX,
    ensures
        out.0@ == reg1@,
        out.1@ == reg2@,
        out.2@ == fresh(old(b).allocated() + reg1@.len(), 1),
        init_views(out.3@) == zero_init_views(old(b).allocated(), reg1@.len()) + zero_init_views(
            old(b).allocated() + reg1@.len(),
            1,
        ),
        final(b).allocated() == old(b).allocated() + reg1@.len() + 1,
        final(b).log() == old(b).log() + more_eq_gates(
            reg1@,
            reg2@,
            fresh(old(b).allocated(), reg1@.len()),
            (old(b).allocated() + reg1@.len()) as u64,
        ),
{
    let n = reg1.qubits.len();
    let (res, init) = zeroed_register(b, n as u64);
    let mut init = init;
    let (reg1, reg2, res) = ccnot_each(b, reg1, reg2, res, n);
    let reg1 = b.not(reg1);
    let (reg1, reg2, res) = ccnot_each(b, reg1, reg2, res, n);
    let reg2 = b.not(reg2);
    let (reg1, reg2, res) = ccnot_each(b, reg1, reg2, res, n);
    let reg1 = b.not(reg1);
    let reg2 = b.not(reg2);
    let (fres, init1) = zeroed_register(b, 1);
    append_inits(&mut init, init1);
    let (res, fres) = b.cnot(res, fres);
    proof {
        assert_seqs_equal!(b.log(), old(b).log() + more_eq_gates(reg1@, reg2@, res@, fres@[0]));
    }
    (reg1, reg2, fres, init)
}

pub open spec fn more_gates(a: Seq<u64>, b: Seq<u64>, start: nat) -> Seq<GateSpec> {
    let n = a.len();
    let f1 = (start + n) as u64;
    let f2 = (start + 2 * n + 1) as u64;
    let r = (start + 2 * n + 2) as u64;
    more_eq_gates(a, b, fresh(start, n), f1) + eq_gates(a, b, fresh(start + n + 1, n), f2) + not_gates(
        seq![f2],
    ) + fan_gates(seq![f1, f2], seq![r])
}

/// Combines `register_more_eq` and `register_eq`: a fresh result qubit is set
/// when the first flag is set and the second is not.
pub fn register_more(b: &mut CircuitBuilder, reg1: QubitRegister, reg2: QubitRegister) -> (out: (
    QubitRegister,
    QubitRegister,
    QubitRegister,
    Vec<InitState>,
))
    requires
        reg1@.len() > 0,
        reg1@.len() <= reg2@.len(),
        old(b).allocated() + 2 * reg1@.len() + 3 <= u64::MAX,
    ensures
        out.0@ == reg1@,
        out.1@ == reg2@,
        out.2@ == fresh(old(b).allocated() + 2 * reg1@.len() + 2, 1),
        init_views(out.3@) == zero_init_views(old(b).allocated(), reg1@.len()) + zero_init_views(
            old(b).allocated() + reg1@.len(),
            1,
        ) + zero_init_views(old(b).allocated() + reg1@.len() + 1, reg1@.len()) + zero_init_views(
            old(b).allocated() + 2 * reg1@.len() + 1,
            1,
        ) + zero_init_views(old(b).allocated() + 2 * reg1@.len() + 2, 1),
        final(b).allocated() == old(b).allocated() + 2 * reg1@.len() + 3,
        final(b).log() == old(b).log() + more_gates(reg1@, reg2@, old(b).allocated()),
{
    let (reg1, reg2, res1, init) = register_more_eq(b, reg1, reg2);
    let mut init = init;
    let (reg1, reg2, res2, init_buff) = register_eq(b, reg1, reg2);
    append_inits(&mut init, init_buff);
    let res2 = b.not(res2);
    let (res, init_buff) = zeroed_register(b, 1);
    append_inits(&mut init, init_buff);
    let (res1, res2, res) = b.ccnot(res1, res2, res);
    proof {
        assert(res1@ + res2@ =~= seq![res1@[0], res2@[0]]);
        assert_seqs_equal!(b.log(), old(b).log() + more_gates(reg1@, reg2@, old(b).allocated()));
    }
    (reg1, reg2, res, init)
}

pub open spec fn qubit_xor_gates(a: Seq<u64>, b: Seq<u64>, z: Seq<u64>) -> Seq<GateSpec> {
    not_gates(a) + fan_gates(a + b, z) + not_gates(a) + not_gates(b) + fan_gates(a + b, z) + not_gates(b)
}

pub open spec fn qubit_or_gates(a: Seq<u64>, b: Seq<u64>, z: Seq<u64>) -> Seq<GateSpec> {
    not_gates(a) + not_gates(b) + fan_gates(a + b, z) + not_gates(a) + not_gates(b)
}

/// Flips `zeroed_res` by `!a & b` and then by `a & !b`.
pub fn qubit_xor(b: &mut CircuitBuilder, reg1: QubitRegister, reg2: QubitRegister, zeroed_res: QubitRegister) -> (out: (
    QubitRegister,
    QubitRegister,
    QubitRegister,
))
    ensures
        out.0@ == reg1@,
        out.1@ == reg2@,
        out.2@ == zeroed_res@,
        final(b).allocated() == old(b).allocated(),
        final(b).log() == old(b).log() + qubit_xor_gates(reg1@, reg2@, zeroed_res@),
{
    let reg1 = b.not(reg1);
    let (reg1, reg2, zeroed_res) = b.ccnot(reg1, reg2, zeroed_res);
    let reg1 = b.not(reg1);
    let reg2 = b.not(reg2);
    let (reg1, reg2, zeroed_res) = b.ccnot(reg1, reg2, zeroed_res);
    let reg2 = b.not(reg2);
    proof {
        assert_seqs_equal!(b.log(), old(b).log() + qubit_xor_gates(reg1@, reg2@, zeroed_res@));
    }
    (reg1, reg2, zeroed_res)
}

/// Flips `zeroed_res` when `reg1` and `reg2` are set.
pub fn qubit_and(b: &mut CircuitBuilder, reg1: QubitRegister, reg2: QubitRegister, zeroed_res: QubitRegister) -> (out: (
    QubitRegister,
    QubitRegister,
    QubitRegister,
))
    ensures
        out.0@ == reg1@,
        out.1@ == reg2@,
        out.2@ == zeroed_res@,
        final(b).allocated() == old(b).allocated(),
        final(b).log() == old(b).log() + fan_gates(reg1@ + reg2@, zeroed_res@),
{
    b.ccnot(reg1, reg2, zeroed_res)
}

/// Flips `zeroed_res` when neither `reg1` nor `reg2` is set (a NOR: both
/// inputs are negated around a doubly controlled not and restored).
pub fn qubit_or(b: &mut CircuitBuilder, reg1: QubitRegister, reg2: QubitRegister, zeroed_res: QubitRegister) -> (out: (
    QubitRegister,
    QubitRegister,
    QubitRegister,
))
    ensures
        out.0@ == reg1@,
        out.1@ == reg2@,
        out.2@ == zeroed_res@,
        final(b).allocated() == old(b).allocated(),
        final(b).log() == old(b).log() + qubit_or_gates(reg1@, reg2@, zeroed_res@),
{
    let reg1 = b.not(reg1);
    let reg2 = b.not(reg2);
    let (reg1, reg2, zeroed_res) = b.ccnot(reg1, reg2, zeroed_res);
    let reg1 = b.not(reg1);
    let reg2 = b.not(reg2);
    proof {
        assert_seqs_equal!(b.log(), old(b).log() + qubit_or_gates(reg1@, reg2@, zeroed_res@));
    }
    (reg1, reg2, zeroed_res)
}

/// The gates of one step of the adder on the registers
/// `[x, y, r, p, k1, k2, k3]` (in the order of the program line).
pub open spec fn sum_step_gates(
    x: Seq<u64>,
    y: Seq<u64>,
    r: Seq<u64>,
    p: Seq<u64>,
    k1: Seq<u64>,
    k2: Seq<u64>,
    k3: Seq<u64>,
) -> Seq<GateSpec> {
    qubit_xor_gates(x, y, k3) + qubit_xor_gates(k3, p, r) + fan_gates(k3 + p, k2) + fan_gates(x + y, k1)
        + qubit_or_gates(k2, k1, p)
}

/// One step of the adder on the last seven registers of `rs`, read as
/// `[x, y, r, p, k1, k2, k3]`: `k3` receives `x ^ y`, `r` receives
/// `k3 ^ p`, `k2` receives `k3 & p`, `k1` receives `x & y`, and `p` is
/// flipped by `!(k2 | k1)` (`qubit_or` flips where neither is set).
pub fn sum_wrapper(b: &mut CircuitBuilder, rs: Vec<QubitRegister>) -> (out: Vec<QubitRegister>)
    requires
        rs@.len() >= 7,
    ensures
        out@.len() == 7,
        forall|j: int| 0 <= j < 7 ==> #[trigger] out@[j]@ == rs@[rs@.len() - 7 + j]@,
        final(b).allocated() == old(b).allocated(),
        final(b).log() == old(b).log() + sum_step_gates(
            rs@[rs@.len() - 7]@,
            rs@[rs@.len() - 6]@,
            rs@[rs@.len() - 5]@,
            rs@[rs@.len() - 4]@,
            rs@[rs@.len() - 3]@,
            rs@[rs@.len() - 2]@,
            rs@[rs@.len() - 1]@,
        ),
{
    let ghost v = rs@;
    let mut rs = rs;
    let c1 = rs.pop().unwrap();
    let c2 = rs.pop().unwrap();
    let c3 = rs.pop().unwrap();
    let p = rs.pop().unwrap();
    let res = rs.pop().unwrap();
    let reg2 = rs.pop().unwrap();
    let reg1 = rs.pop().unwrap();
    let (reg1, reg2, c1) = qubit_xor(b, reg1, reg2, c1);
    let (c1, p, res) = qubit_xor(b, c1, p, res);
    let (c1, p, c2) = qubit_and(b, c1, p, c2);
    let (reg1, reg2, c3) = qubit_and(b, reg1, reg2, c3);
    let (c2, c3, p) = qubit_or(b, c2, c3, p);
    proof {
        assert_seqs_equal!(b.log(), old(b).log() + sum_step_gates(
            v[v.len() - 7]@, v[v.len() - 6]@, v[v.len() - 5]@, v[v.len() - 4]@,
            v[v.len() - 3]@, v[v.len() - 2]@, v[v.len() - 1]@));
    }
    let out = vec![reg1, reg2, res, p, c3, c2, c1];
    out
}

/// The gates of the first `k` steps of `register_sum` on `a` and `b` when the
/// result register starts at qubit `start`: step `i` works on `a[i]`, `b[i]`,
/// result qubit `start + i`, carry qubit `start + n` and the three ancillas
/// `start + n + 1 + 3i`, `start + n + 2 + 3i`, `start + n + 3 + 3i`.
pub open spec fn sum_gates(a: Seq<u64>, b: Seq<u64>, start: nat, k: nat) -> Seq<GateSpec>
    decreases k,
{
    if k == 0 {
        Seq::empty()
    } else {
        let i = (k - 1) as nat;
        let n = a.len();
        sum_gates(a, b, start, i) + sum_step_gates(
            seq![a[i as int]],
            seq![b[i as int]],
            seq![(start + i) as u64],
            seq![(start + n) as u64],
            seq![(start + n + 1 + 3 * i) as u64],
            seq![(start + n + 2 + 3 * i) as u64],
            seq![(start + n + 3 + 3 * i) as u64],
        )
    }
}

/// Single-qubit zeroed registers at `start`, `start + 1`, ... (`count` of them).
pub open spec fn single_zero_views(start: nat, count: nat) -> Seq<(Seq<u64>, u64)> {
    Seq::new(count, |j: int| (fresh((start + j) as nat, 1), 0u64))
}

/// Ripple adder of `reg1` and `reg2` into a fresh zeroed register, with one
/// carry qubit and three fresh ancillas for every bit.
pub fn register_sum(b: &mut CircuitBuilder, reg1: QubitRegister, reg2: QubitRegister) -> (out: (
    QubitRegister,
    QubitRegister,
    QubitRegister,
    Vec<InitState>,
))
    requires
        reg1@.len() > 0,
        reg1@.len() <= reg2@.len(),
        old(b).allocated() + 4 * reg1@.len() + 4 <= u64::MAX,
    ensures
        out.0@ == reg1@,
        out.1@ == reg2@,
        out.2@ == fresh(old(b).allocated(), reg1@.len()),
        init_views(out.3@) == zero_init_views(old(b).allocated(), reg1@.len()) + single_zero_views(
            old(b).allocated() + reg1@.len(),
            3 * reg1@.len() + 4,
        ),
        final(b).allocated() == old(b).allocated() + 4 * reg1@.len() + 4,
        final(b).log() == old(b).log() + sum_gates(reg1@, reg2@, old(b).allocated(), reg1@.len()),
{
    let ghost start = old(b).allocated();
    let ghost a = reg1@;
    let ghost c = reg2@;
    let n = reg1.qubits.len();
    let mut init: Vec<InitState> = Vec::new();
    let (res, init1) = zeroed_register(b, n as u64);
    append_inits(&mut init, init1);
    let (p, init1) = zeroed_register(b, 1);
    append_inits(&mut init, init1);
    let (c1, init1) = zeroed_register(b, 1);
    append_inits(&mut init, init1);
    let (c2, init1) = zeroed_register(b, 1);
    append_inits(&mut init, init1);
    let (c3, init1) = zeroed_register(b, 1);
    append_inits(&mut init, init1);
    let mut reg1 = reg1;
    let mut reg2 = reg2;
    let mut res = res;
    let mut p = p;
    let mut c1 = c1;
    let mut c2 = c2;
    let mut c3 = c3;
    proof {
        assert(init_views(init@) =~= zero_init_views(start, n as nat) + single_zero_views((start + n) as nat, 4));
        assert(sum_gates(a, c, start, 0) =~= Seq::<GateSpec>::empty());
        assert(b.log() =~= old(b).log() + sum_gates(a, c, start, 0));
    }
    let mut i: usize = 0;
    while i < n
        invariant
            i <= n,
            n == a.len(),
            n <= c.len(),
            start + 4 * n + 4 <= u64::MAX,
            reg1@ == a,
            reg2@ == c,
            res@ == fresh(start, n as nat),
            p@ == seq![(start + n) as u64],
            c1@ == seq![(start + n + 1 + 3 * i) as u64],
            c2@ == seq![(start + n + 2 + 3 * i) as u64],
            c3@ == seq![(start + n + 3 + 3 * i) as u64],
            b.allocated() == start + n + 4 + 3 * i,
            b.log() == old(b).log() + sum_gates(a, c, start, i as nat),
            init_views(init@) == zero_init_views(start, n as nat) + single_zero_views((start + n) as nat, (4 + 3 * i) as nat),
        decreases n - i,
    {
        let rs = vec![
            qubit_at(&reg1, i),
            qubit_at(&reg2, i),
            qubit_at(&res, i),
            p,
            c1,
            c2,
            c3,
        ];
        let mut outs = sum_wrapper(b, rs);
        let _ = outs.pop();
        let _ = outs.pop();
        let _ = outs.pop();
        p = outs.pop().unwrap();
        proof {
            assert(sum_gates(a, c, start, (i + 1) as nat) == sum_gates(a, c, start, i as nat) + sum_step_gates(
                seq![a[i as int]],
                seq![c[i as int]],
                seq![(start + i) as u64],
                seq![(start + n) as u64],
                seq![(start + n + 1 + 3 * i) as u64],
                seq![(start + n + 2 + 3 * i) as u64],
                seq![(start + n + 3 + 3 * i) as u64],
            ));
            assert(b.log() =~= old(b).log() + sum_gates(a, c, start, (i + 1) as nat));
        }
        let (c1_buff, init1) = zeroed_register(b, 1);
        c1 = c1_buff;
        append_inits(&mut init, init1);
        let (c2_buff, init1) = zeroed_register(b, 1);
        c2 = c2_buff;
        append_inits(&mut init, init1);
        let (c3_buff, init1) = zeroed_register(b, 1);
        c3 = c3_buff;
        append_inits(&mut init, init1);
        proof {
            assert(init_views(init@) =~= zero_init_views(start, n as nat) + single_zero_views((start + n) as nat, (4 + 3 * (i + 1)) as nat));
        }
        i += 1;
    }
    (reg1, reg2, res, init)
}


// ---------------------------------------------------------------------------
// Layered registers
// ---------------------------------------------------------------------------

/// What `apply_to_layers1_in_range` applies to each layer.
pub enum LayerOp {
    /// Hadamard on every selected qubit.
    Hadamard,
    /// The diffusion step of the search.
    Diffuse,
}

pub open spec fn layer_op_gates(op: LayerOp, q: Seq<u64>) -> Seq<GateSpec> {
    match op {
        LayerOp::Hadamard => hadamard_gates(q),
        LayerOp::Diffuse => diffuse_gates(q),
    }
}

/// `op` applied to `layer[start..end]` of every layer, first layer first.
pub open spec fn layers_gates(op: LayerOp, layers: Seq<Seq<u64>>, start: int, end: int) -> Seq<GateSpec>
    decreases layers.len(),
{
    if layers.len() == 0 {
        Seq::empty()
    } else {
        layers_gates(op, layers.drop_last(), start, end) + layer_op_gates(op, layers.last().subrange(start, end))
    }
}

/// A controlled not from `sign` onto `layer[start..end]` of every layer.
pub open spec fn mirror_gates(sign: Seq<u64>, layers: Seq<Seq<u64>>, start: int, end: int) -> Seq<GateSpec>
    decreases layers.len(),
{
    if layers.len() == 0 {
        Seq::empty()
    } else {
        mirror_gates(sign, layers.drop_last(), start, end) + fan_gates(sign, layers.last().subrange(start, end))
    }
}

fn apply_layer_op(b: &mut CircuitBuilder, op: &LayerOp, reg: QubitRegister) -> (out: QubitRegister)
    requires
        *op is Diffuse ==> reg@.len() >= 2,
    ensures
        out@ == reg@,
        final(b).allocated() == old(b).allocated(),
        final(b).log() == old(b).log() + layer_op_gates(*op, reg@),
{
    match op {
        LayerOp::Hadamard => func_hadamard(b, reg),
        LayerOp::Diffuse => diffuse(b, reg),
    }
}

/// Layer `k` of `depth` layers of `width` fresh qubits each, starting at
/// qubit `start`.
pub open spec fn fresh_layers(start: nat, width: nat, depth: nat) -> Seq<Seq<u64>> {
    Seq::new(depth, |k: int| fresh((start + k * width) as nat, width))
}

/// The initial states of `depth` layers, each holding one eight-qubit register
/// per byte of `data`, set to that byte.
pub open spec fn byte_init_views(start: nat, data: Seq<u8>, depth: nat) -> Seq<(Seq<u64>, u64)> {
    Seq::new(
        depth * data.len(),
        |j: int| (fresh((start + 8 * j) as nat, 8), data[j % (data.len() as int)] as u64),
    )
}

/// Copies of the main data register, used up one layer at a time.
pub struct LayeredRegister {
    layers: Vec<QubitRegister>,
    current_layer_index: usize,
    start_depth: usize,
    width: u64,
    dif_range: Option<(u64, u64)>,
}

impl LayeredRegister {
    /// The layers that are left, in order.
    pub closed spec fn layers_view(&self) -> Seq<Seq<u64>> {
        self.layers@.map_values(|r: QubitRegister| r@)
    }

    pub closed spec fn spec_start_depth(&self) -> nat {
        self.start_depth as nat
    }

    pub closed spec fn spec_current_layer(&self) -> nat {
        self.current_layer_index as nat
    }

    pub closed spec fn spec_width(&self) -> u64 {
        self.width
    }

    pub closed spec fn spec_dif_range(&self) -> Option<(u64, u64)> {
        self.dif_range
    }

    /// One layer was handed out per step; every layer has `width` qubits.
    pub closed spec fn wf(&self) -> bool {
        &&& self.layers@.len() + self.current_layer_index == self.start_depth
        &&& forall|k: int| 0 <= k < self.layers@.len() ==> (#[trigger] self.layers@[k])@.len() == self.width
    }

    /// `depth` layers of `width` fresh qubits each.
    pub fn new(b: &mut CircuitBuilder, width: u64, depth: usize) -> (r: Self)
        requires
            depth > 0 ==> width > 0,
            old(b).allocated() + depth * width <= u64::MAX,
        ensures
            r.wf(),
            r.layers_view() == fresh_layers(old(b).allocated(), width as nat, depth as nat),
            r.spec_start_depth() == depth,
            r.spec_current_layer() == 0,
            r.spec_width() == width,
            r.spec_dif_range() == None::<(u64, u64)>,
            final(b).allocated() == old(b).allocated() + depth * width,
            final(b).log() == old(b).log(),
    {
        let ghost start = old(b).allocated();
        let mut layers: Vec<QubitRegister> = Vec::new();
        let mut k: usize = 0;
        while k < depth
            invariant
                k <= depth,
                depth > 0 ==> width > 0,
                start + depth * width <= u64::MAX,
                b.allocated() == start + k * width,
                b.log() == old(b).log(),
                layers@.len() == k,
                forall|j: int| 0 <= j < k ==> (#[trigger] layers@[j])@ == fresh((start + j * width) as nat, width as nat),
            decreases depth - k,
        {
            assert(start + (k + 1) * width <= start + depth * width) by (nonlinear_arith)
                requires
                    k < depth,
            ;
            assert((k + 1) * width == k * width + width) by (nonlinear_arith);
            let reg = b.register(width);
            layers.push(reg);
            k += 1;
        }
        let r = LayeredRegister { layers, current_layer_index: 0, start_depth: depth, width, dif_range: None };
        assert(r.layers_view() =~= fresh_layers(start, width as nat, depth as nat));
        r
    }

    /// `depth` layers, each made of one fresh eight-qubit register per byte of
    /// `data` with that byte as its initial state.
    pub fn new_initialized(b: &mut CircuitBuilder, width: u64, depth: usize, data: &Vec<u8>) -> (r: (
        Self,
        Vec<InitState>,
    ))
        requires
            data@.len() * 8 <= usize::MAX,
            width == data@.len() * 8,
            depth > 0 ==> data@.len() > 0,
            old(b).allocated() + depth * width <= u64::MAX,
        ensures
            r.0.wf(),
            r.0.layers_view() == fresh_layers(old(b).allocated(), width as nat, depth as nat),
            r.0.spec_start_depth() == depth,
            r.0.spec_current_layer() == 0,
            r.0.spec_width() == width,
            r.0.spec_dif_range() == None::<(u64, u64)>,
            init_views(r.1@) == byte_init_views(old(b).allocated(), data@, depth as nat),
            final(b).allocated() == old(b).allocated() + depth * width,
            final(b).log() == old(b).log(),
    {
        let ghost start = old(b).allocated();
        let len = data.len();
        let mut layers: Vec<QubitRegister> = Vec::new();
        let mut full_init: Vec<InitState> = Vec::new();
        let mut k: usize = 0;
        proof {
            reveal_with_fuel(pow2_u64, 9);
        }
        while k < depth
            invariant
                k <= depth,
                len == data@.len(),
                width == len * 8,
                depth > 0 ==> len > 0,
                start + depth * width <= u64::MAX,
                b.allocated() == start + k * width,
                b.log() == old(b).log(),
                layers@.len() == k,
                forall|j: int| 0 <= j < k ==> (#[trigger] layers@[j])@ == fresh((start + j * width) as nat, width as nat),
                init_views(full_init@) == byte_init_views(start, data@, k as nat),
                pow2_u64(8) == 256,
            decreases depth - k,
        {
            assert(start + (k + 1) * width <= start + depth * width) by (nonlinear_arith)
                requires
                    k < depth,
            ;
            assert((k + 1) * width == k * width + width) by (nonlinear_arith);
            let ghost layer_start = b.allocated();
            let mut qubits: Vec<u64> = Vec::new();
            let mut j: usize = 0;
            while j < len
                invariant
                    j <= len,
                    len == data@.len(),
                    width == len * 8,
                    layer_start == start + k * width,
                    layer_start + width <= u64::MAX,
                    b.allocated() == layer_start + 8 * j,
                    b.log() == old(b).log(),
                    qubits@ == fresh(layer_start, (8 * j) as nat),
                    init_views(full_init@) == byte_init_views(start, data@, k as nat) + Seq::new(
                        j as nat,
                        |t: int| (fresh((layer_start + 8 * t) as nat, 8), data@[t] as u64),
                    ),
                    pow2_u64(8) == 256,
                decreases len - j,
            {
                let mut reg = b.register(8);
                let init = make_init_from_index(&reg, data[j] as u64);
                qubits.append(&mut reg.qubits);
                let ghost before = full_init@;
                let ghost item = (init.qubits@, init.value);
                full_init.push(init);
                proof {
                    assert(init_views(full_init@) =~= init_views(before).push(item));
                    assert(qubits@ =~= fresh(layer_start, (8 * (j + 1)) as nat));
                    assert(init_views(full_init@) =~= byte_init_views(start, data@, k as nat) + Seq::new(
                        (j + 1) as nat,
                        |t: int| (fresh((layer_start + 8 * t) as nat, 8), data@[t] as u64),
                    ));
                }
                j += 1;
            }
            layers.push(QubitRegister { qubits });
            proof {
                assert((k + 1) * len == k * len + len) by (nonlinear_arith);
                assert forall|t: int| 0 <= t < (k + 1) * len implies #[trigger] byte_init_views(start, data@, (k + 1) as nat)[t]
                    == (byte_init_views(start, data@, k as nat) + Seq::new(
                        len as nat,
                        |t: int| (fresh((layer_start + 8 * t) as nat, 8), data@[t] as u64),
                    ))[t] by {
                    if t >= k * len {
                        let u = t - k * len;
                        assert(t % (len as int) == u) by (nonlinear_arith)
                            requires
                                t == k * len + u,
                                0 <= u < len,
                        ;
                        assert(layer_start + 8 * u == start + 8 * t) by (nonlinear_arith)
                            requires
                                layer_start == start + k * width,
                                width == len * 8,
                                t == k * len + u,
                        ;
                    }
                }
                assert((k + 1) * len == k * len + len) by (nonlinear_arith);
                assert(init_views(full_init@) =~= byte_init_views(start, data@, (k + 1) as nat));
            }
            k += 1;
        }
        let r = LayeredRegister { layers, current_layer_index: 0, start_depth: depth, width, dif_range: None };
        assert(r.layers_view() =~= fresh_layers(start, width as nat, depth as nat));
        (r, full_init)
    }

    /// The layers left are those not handed out.
    /// Every layer is `width` qubits wide.
    pub proof fn lemma_layer_widths(&self)
        requires
            self.wf(),
        ensures
            forall|k: int| 0 <= k < self.layers_view().len() ==> (#[trigger] self.layers_view()[k]).len() == self.spec_width(),
    {
        assert forall|k: int| 0 <= k < self.layers_view().len() implies (#[trigger] self.layers_view()[k]).len()
            == self.spec_width() by {
            assert(self.layers_view()[k] == self.layers@[k]@);
        }
    }

    pub proof fn lemma_layers_left(&self)
        requires
            self.wf(),
        ensures
            self.layers_view().len() + self.spec_current_layer() == self.spec_start_depth(),
    {
    }

    pub fn start_depth(&self) -> (r: usize)
        ensures
            r == self.spec_start_depth(),
    {
        self.start_depth
    }

    /// The number of layers left.
    pub fn depth(&self) -> (r: usize)
        requires
            self.wf(),
        ensures
            r == self.spec_start_depth() - self.spec_current_layer(),
            r == self.layers_view().len(),
    {
        self.start_depth - self.current_layer_index
    }

    pub fn width(&self) -> (r: u64)
        ensures
            r == self.spec_width(),
    {
        self.width
    }

    /// Hands out the last layer.
    pub fn pop_layer(&mut self) -> (r: QubitRegister)
        requires
            old(self).wf(),
            old(self).spec_current_layer() < old(self).spec_start_depth(),
        ensures
            final(self).wf(),
            r@ == old(self).layers_view().last(),
            r@.len() == old(self).spec_width(),
            final(self).layers_view() == old(self).layers_view().drop_last(),
            final(self).spec_current_layer() == old(self).spec_current_layer() + 1,
            final(self).spec_start_depth() == old(self).spec_start_depth(),
            final(self).spec_width() == old(self).spec_width(),
            final(self).spec_dif_range() == old(self).spec_dif_range(),
    {
        self.current_layer_index = self.current_layer_index + 1;
        let r = self.layers.pop().unwrap();
        assert(self.layers_view() =~= old(self).layers_view().drop_last());
        r
    }

    pub fn set_dif_range(&mut self, start: u64, end: u64)
        ensures
            final(self).spec_dif_range() == Some((start, end)),
            final(self).layers_view() == old(self).layers_view(),
            final(self).spec_current_layer() == old(self).spec_current_layer(),
            final(self).spec_start_depth() == old(self).spec_start_depth(),
            final(self).spec_width() == old(self).spec_width(),
            old(self).wf() ==> final(self).wf(),
    {
        self.dif_range = Some((start, end));
    }

    pub fn get_dif_range(&self) -> (r: Option<(u64, u64)>)
        ensures
            r == self.spec_dif_range(),
    {
        self.dif_range
    }

    /// Applies `op` to the qubits `start..end` of every layer.
    pub fn apply_to_layers1_in_range(self, op: LayerOp, b: &mut CircuitBuilder, start: u64, end: u64) -> (r: Self)
        requires
            self.wf(),
            self.layers_view().len() > 0 ==> start < end <= self.spec_width(),
            self.layers_view().len() > 0 && op is Diffuse ==> end - start >= 2,
        ensures
            r.wf(),
            r.layers_view() == self.layers_view(),
            r.spec_current_layer() == self.spec_current_layer(),
            r.spec_start_depth() == self.spec_start_depth(),
            r.spec_width() == self.spec_width(),
            r.spec_dif_range() == self.spec_dif_range(),
            final(b).allocated() == old(b).allocated(),
            final(b).log() == old(b).log() + layers_gates(op, self.layers_view(), start as int, end as int),
    {
        let ghost views = self.layers_view();
        let current_layer_index = self.current_layer_index;
        let start_depth = self.start_depth;
        let width = self.width;
        let dif_range = self.dif_range;
        let old_layers = self.layers;
        let mut layers: Vec<QubitRegister> = Vec::new();
        let mut i: usize = 0;
        while i < old_layers.len()
            invariant
                i <= old_layers@.len(),
                views == old_layers@.map_values(|r: QubitRegister| r@),
                forall|k: int| 0 <= k < old_layers@.len() ==> (#[trigger] old_layers@[k])@.len() == width,
                old_layers@.len() > 0 ==> start < end <= width,
                old_layers@.len() > 0 && op is Diffuse ==> end - start >= 2,
                layers@.len() == i,
                forall|k: int| 0 <= k < i ==> (#[trigger] layers@[k])@ == old_layers@[k]@,
                b.allocated() == old(b).allocated(),
                b.log() == old(b).log() + layers_gates(op, views.take(i as int), start as int, end as int),
            decreases old_layers@.len() - i,
        {
            let l = old_layers[i].qubits.len();
            let sub = sub_register(&old_layers[i], start as usize, end as usize);
            let _ = apply_layer_op(b, &op, sub);
            layers.push(QubitRegister { qubits: copy_qubits(&old_layers[i].qubits) });
            proof {
                assert(views.take(i + 1).drop_last() =~= views.take(i as int));
                assert(views.take(i + 1).last() == old_layers@[i as int]@);
                assert(b.log() =~= old(b).log() + layers_gates(op, views.take(i + 1), start as int, end as int));
            }
            i += 1;
        }
        let r = LayeredRegister { layers, current_layer_index, start_depth, width, dif_range };
        assert(views.take(old_layers@.len() as int) =~= views);
        assert(r.layers_view() =~= views);
        r
    }

    /// A controlled not from `sign` onto the qubits `start..end` of every layer.
    pub fn mirror_in_range(self, b: &mut CircuitBuilder, sign: QubitRegister, start: u64, end: u64) -> (r: (
        Self,
        QubitRegister,
    ))
        requires
            self.wf(),
            self.layers_view().len() > 0 ==> start < end <= self.spec_width(),
        ensures
            r.0.wf(),
            r.0.layers_view() == self.layers_view(),
            r.0.spec_current_layer() == self.spec_current_layer(),
            r.0.spec_start_depth() == self.spec_start_depth(),
            r.0.spec_width() == self.spec_width(),
            r.0.spec_dif_range() == self.spec_dif_range(),
            r.1@ == sign@,
            final(b).allocated() == old(b).allocated(),
            final(b).log() == old(b).log() + mirror_gates(sign@, self.layers_view(), start as int, end as int),
    {
        let ghost views = self.layers_view();
        let current_layer_index = self.current_layer_index;
        let start_depth = self.start_depth;
        let width = self.width;
        let dif_range = self.dif_range;
        let old_layers = self.layers;
        let mut layers: Vec<QubitRegister> = Vec::new();
        let mut i: usize = 0;
        while i < old_layers.len()
            invariant
                i <= old_layers@.len(),
                views == old_layers@.map_values(|r: QubitRegister| r@),
                forall|k: int| 0 <= k < old_layers@.len() ==> (#[trigger] old_layers@[k])@.len() == width,
                old_layers@.len() > 0 ==> start < end <= width,
                layers@.len() == i,
                forall|k: int| 0 <= k < i ==> (#[trigger] layers@[k])@ == old_layers@[k]@,
                b.allocated() == old(b).allocated(),
                b.log() == old(b).log() + mirror_gates(sign@, views.take(i as int), start as int, end as int),
            decreases old_layers@.len() - i,
        {
            let l = old_layers[i].qubits.len();
            let sub = sub_register(&old_layers[i], start as usize, end as usize);
            let s = QubitRegister { qubits: copy_qubits(&sign.qubits) };
            let _ = cnot_wrapper(b, vec![s, sub]);
            layers.push(QubitRegister { qubits: copy_qubits(&old_layers[i].qubits) });
            proof {
                assert(views.take(i + 1).drop_last() =~= views.take(i as int));
                assert(views.take(i + 1).last() == old_layers@[i as int]@);
                assert(b.log() =~= old(b).log() + mirror_gates(sign@, views.take(i + 1), start as int, end as int));
            }
            i += 1;
        }
        let r = LayeredRegister { layers, current_layer_index, start_depth, width, dif_range };
        assert(views.take(old_layers@.len() as int) =~= views);
        assert(r.layers_view() =~= views);
        (r, sign)
    }
}

} // verus!
