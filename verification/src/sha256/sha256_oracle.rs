use vstd::prelude::*;
use vstd::assert_seqs_equal;
use vstd::seq_lib::lemma_concat_associative;
use crate::searcher::circuit::{
    concat_registers, fresh, make_init_from_index, merge, not_gates, pow2_u64, register_views, CircuitBuilder, GateSpec,
    InitState, QubitRegister,
};
use crate::searcher::utils::{
    append_inits, copy_gates, init_views, pair_gates, register_and, register_entangled_copy, register_not, register_rotl, register_sum,
    register_xor, rotl_gates, single_zero_views, sum_gates, xor_gates, zero_init_views,
};
use crate::sha256::sha256_data_preparer::{
    initial_vars, initial_vars_vec, round_constants, round_constants_vec, words_be_bytes, words_to_be_bytes,
};
use crate::sha256::words_provider::{fetch_word, has_key, mix_init_views, words_ok, WordFetch, WordsProvider};
use crate::searcher::utils::{byte_init_views, eq_gates, fresh_layers, layers_gates, register_eq, LayerOp, LayeredRegister};
use crate::searcher::oracle::Oracle;

verus! {

// ---------------------------------------------------------------------------
// Registers initialised from classical values
// ---------------------------------------------------------------------------

/// One eight-qubit register per byte of `data`, starting at qubit `start`,
/// each set to its byte.
pub open spec fn bytes_init_views(start: nat, data: Seq<u8>) -> Seq<(Seq<u64>, u64)> {
    Seq::new(data.len(), |j: int| (fresh((start + 8 * j) as nat, 8), data[j] as u64))
}

/// `count` registers of `n` fresh qubits each, starting at qubit `start`.
pub open spec fn fresh_block(start: nat, n: nat, count: nat) -> Seq<Seq<u64>> {
    Seq::new(count, |j: int| fresh((start + j * n) as nat, n))
}

/// `count` registers of `n` fresh qubits, register `j` starting at qubit
/// `start + j stride`.
pub open spec fn strided_block(start: nat, stride: nat, n: nat, count: nat) -> Seq<Seq<u64>> {
    Seq::new(count, |j: int| fresh((start + j * stride) as nat, n))
}

/// One fresh eight-qubit register per byte of `data`, set to that byte.
fn byte_registers(b: &mut CircuitBuilder, data: &Vec<u8>) -> (out: (Vec<QubitRegister>, Vec<InitState>))
    requires
        old(b).allocated() + 8 * data@.len() <= u64::MAX,
    ensures
        register_views(out.0@) == fresh_block(old(b).allocated(), 8, data@.len()),
        init_views(out.1@) == bytes_init_views(old(b).allocated(), data@),
        final(b).allocated() == old(b).allocated() + 8 * data@.len(),
        final(b).log() == old(b).log(),
{
    let ghost start = old(b).allocated();
    let mut regs: Vec<QubitRegister> = Vec::new();
    let mut init: Vec<InitState> = Vec::new();
    let mut j: usize = 0;
    proof {
        reveal_with_fuel(pow2_u64, 9);
    }
    while j < data.len()
        invariant
            j <= data@.len(),
            start + 8 * data@.len() <= u64::MAX,
            b.allocated() == start + 8 * j,
            b.log() == old(b).log(),
            register_views(regs@) == fresh_block(start, 8, j as nat),
            init_views(init@) == bytes_init_views(start, data@.take(j as int)),
            pow2_u64(8) == 256,
        decreases data@.len() - j,
    {
        let reg = b.register(8);
        let v = make_init_from_index(&reg, data[j] as u64);
        let ghost rv = reg@;
        let ghost iv = (v.qubits@, v.value);
        let ghost regs0 = regs@;
        let ghost init0 = init@;
        regs.push(reg);
        init.push(v);
        proof {
            assert(register_views(regs@) =~= register_views(regs0).push(rv));
            assert(register_views(regs@) =~= fresh_block(start, 8, (j + 1) as nat));
            assert(init_views(init@) =~= init_views(init0).push(iv));
            assert(init_views(init@) =~= bytes_init_views(start, data@.take(j + 1)));
        }
        j += 1;
    }
    assert(data@.take(data@.len() as int) =~= data@);
    (regs, init)
}

/// The initial states of the round constant registers from `start` on.
pub open spec fn consts_init_views(start: nat) -> Seq<(Seq<u64>, u64)> {
    Seq::new(64, |j: int| (fresh((start + 32 * j) as nat, 32), round_constants()[j] as u64))
}

/// The 64 round constants, each in a fresh 32-qubit register set to it.
pub fn init_consts(b: &mut CircuitBuilder) -> (out: (Vec<QubitRegister>, Vec<InitState>))
    requires
        old(b).allocated() + 64 * 32 <= u64::MAX,
    ensures
        register_views(out.0@) == fresh_block(old(b).allocated(), 32, 64),
        init_views(out.1@) == consts_init_views(old(b).allocated()),
        final(b).allocated() == old(b).allocated() + 64 * 32,
        final(b).log() == old(b).log(),
{
    let ghost start = old(b).allocated();
    let consts = round_constants_vec();
    let mut regs: Vec<QubitRegister> = Vec::new();
    let mut init: Vec<InitState> = Vec::new();
    let mut j: usize = 0;
    assert(pow2_u64(32) == 0x1_0000_0000) by {
        reveal_with_fuel(pow2_u64, 33);
    }
    while j < 64
        invariant
            j <= 64,
            consts@ == round_constants(),
            start + 64 * 32 <= u64::MAX,
            b.allocated() == start + 32 * j,
            b.log() == old(b).log(),
            register_views(regs@) == fresh_block(start, 32, j as nat),
            init_views(init@) == Seq::new(
                j as nat,
                |t: int| (fresh((start + 32 * t) as nat, 32), round_constants()[t] as u64),
            ),
            pow2_u64(32) == 0x1_0000_0000,
        decreases 64 - j,
    {
        let reg = b.register(32);
        let v = make_init_from_index(&reg, consts[j] as u64);
        let ghost rv = reg@;
        let ghost iv = (v.qubits@, v.value);
        let ghost regs0 = regs@;
        let ghost init0 = init@;
        regs.push(reg);
        init.push(v);
        proof {
            assert(register_views(regs@) =~= register_views(regs0).push(rv));
            assert(register_views(regs@) =~= fresh_block(start, 32, (j + 1) as nat));
            assert(init_views(init@) =~= init_views(init0).push(iv));
            assert(init_views(init@) =~= Seq::new(
                (j + 1) as nat,
                |t: int| (fresh((start + 32 * t) as nat, 32), round_constants()[t] as u64),
            ));
        }
        j += 1;
    }
    (regs, init)
}

// ---------------------------------------------------------------------------
// The functions of a compression round
// ---------------------------------------------------------------------------

/// The gates of a rotation sum on `a` (width `n`): three copies rotated to
/// the left by `r1`, `r2`, `r3`, then the xor of the first two and the xor of
/// that with the third, all in fresh registers from `start` on.
#[verifier::opaque]
pub open spec fn sigma_gates(a: Seq<u64>, start: nat, r1: int, r2: int, r3: int) -> Seq<GateSpec> {
    let n = a.len();
    rotl_gates(a, fresh(start, n), r1) + rotl_gates(a, fresh(start + n, n), r2) + rotl_gates(
        a,
        fresh(start + 2 * n, n),
        r3,
    ) + xor_gates(fresh(start, n), fresh(start + n, n), fresh(start + 3 * n, n)) + xor_gates(
        fresh(start + 3 * n, n),
        fresh(start + 2 * n, n),
        fresh(start + 4 * n, n),
    )
}

pub open spec fn sigma_ok(n: nat, r1: u64, r2: u64, r3: u64, start: nat) -> bool {
    &&& n > 0
    &&& r1 % (n as u64) != 0
    &&& r2 % (n as u64) != 0
    &&& r3 % (n as u64) != 0
    &&& start + 5 * n <= u64::MAX
}

fn sigma(b: &mut CircuitBuilder, a: QubitRegister, r1: u64, r2: u64, r3: u64) -> (out: (
    QubitRegister,
    QubitRegister,
    Vec<InitState>,
))
    requires
        sigma_ok(a@.len(), r1, r2, r3, old(b).allocated()),
    ensures
        out.0@ == a@,
        out.1@ == fresh(old(b).allocated() + 4 * a@.len(), a@.len()),
        init_views(out.2@) == mix_init_views(old(b).allocated(), a@.len()),
        final(b).allocated() == old(b).allocated() + 5 * a@.len(),
        final(b).log() == old(b).log() + sigma_gates(
            a@,
            old(b).allocated(),
            (r1 % (a@.len() as u64)) as int,
            (r2 % (a@.len() as u64)) as int,
            (r3 % (a@.len() as u64)) as int,
        ),
{
    let ghost start = old(b).allocated();
    let ghost n = a@.len();
    let mut init: Vec<InitState> = Vec::new();
    let (a, buff1, init_buff) = register_rotl(b, a, r1);
    append_inits(&mut init, init_buff);
    let (a, buff2, init_buff) = register_rotl(b, a, r2);
    append_inits(&mut init, init_buff);
    let (a, buff3, init_buff) = register_rotl(b, a, r3);
    append_inits(&mut init, init_buff);
    let (buff1, buff2, xored1, init_buff) = register_xor(b, buff1, buff2);
    append_inits(&mut init, init_buff);
    let (xored1, buff3, xored2, init_buff) = register_xor(b, xored1, buff3);
    append_inits(&mut init, init_buff);
    proof {
        reveal(sigma_gates);
        assert(init_views(init@) =~= mix_init_views(start, n));
        assert_seqs_equal!(b.log(), old(b).log() + sigma_gates(
            a@,
            start,
            (r1 % (n as u64)) as int,
            (r2 % (n as u64)) as int,
            (r3 % (n as u64)) as int,
        ));
    }
    (a, xored2, init)
}

/// The rotation sum of `a` with the rotations 2, 13 and 22.
#[allow(non_snake_case)]
pub fn get_Sum0(b: &mut CircuitBuilder, a: QubitRegister) -> (out: (QubitRegister, QubitRegister, Vec<InitState>))
    requires
        sigma_ok(a@.len(), 2, 13, 22, old(b).allocated()),
    ensures
        out.0@ == a@,
        out.1@ == fresh(old(b).allocated() + 4 * a@.len(), a@.len()),
        init_views(out.2@) == mix_init_views(old(b).allocated(), a@.len()),
        final(b).allocated() == old(b).allocated() + 5 * a@.len(),
        final(b).log() == old(b).log() + sigma_gates(
            a@,
            old(b).allocated(),
            (2u64 % (a@.len() as u64)) as int,
            (13u64 % (a@.len() as u64)) as int,
            (22u64 % (a@.len() as u64)) as int,
        ),
{
    sigma(b, a, 2, 13, 22)
}

/// The rotation sum of `e` with the rotations 6, 11 and 25.
#[allow(non_snake_case)]
pub fn get_Sum1(b: &mut CircuitBuilder, e: QubitRegister) -> (out: (QubitRegister, QubitRegister, Vec<InitState>))
    requires
        sigma_ok(e@.len(), 6, 11, 25, old(b).allocated()),
    ensures
        out.0@ == e@,
        out.1@ == fresh(old(b).allocated() + 4 * e@.len(), e@.len()),
        init_views(out.2@) == mix_init_views(old(b).allocated(), e@.len()),
        final(b).allocated() == old(b).allocated() + 5 * e@.len(),
        final(b).log() == old(b).log() + sigma_gates(
            e@,
            old(b).allocated(),
            (6u64 % (e@.len() as u64)) as int,
            (11u64 % (e@.len() as u64)) as int,
            (25u64 % (e@.len() as u64)) as int,
        ),
{
    sigma(b, e, 6, 11, 25)
}

/// The gates of the majority of `a`, `bb`, `c` (width `n`): the three
/// pairwise conjunctions and their xor, in fresh registers from `start` on.
#[verifier::opaque]
pub open spec fn ma_gates(a: Seq<u64>, bb: Seq<u64>, c: Seq<u64>, start: nat) -> Seq<GateSpec> {
    let n = a.len();
    pair_gates(a, bb, fresh(start, n), n) + pair_gates(a, c, fresh(start + n, n), n) + pair_gates(
        bb,
        c,
        fresh(start + 2 * n, n),
        n,
    ) + xor_gates(fresh(start, n), fresh(start + n, n), fresh(start + 3 * n, n)) + xor_gates(
        fresh(start + 3 * n, n),
        fresh(start + 2 * n, n),
        fresh(start + 4 * n, n),
    )
}

/// The majority of `a`, `bb` and `c`: `(a & b) ^ (a & c) ^ (b & c)`.
#[allow(non_snake_case)]
pub fn get_Ma(b: &mut CircuitBuilder, a: QubitRegister, bb: QubitRegister, c: QubitRegister) -> (out: (
    QubitRegister,
    QubitRegister,
    QubitRegister,
    QubitRegister,
    Vec<InitState>,
))
    requires
        a@.len() > 0,
        bb@.len() == a@.len(),
        c@.len() == a@.len(),
        old(b).allocated() + 5 * a@.len() <= u64::MAX,
    ensures
        out.0@ == a@,
        out.1@ == bb@,
        out.2@ == c@,
        out.3@ == fresh(old(b).allocated() + 4 * a@.len(), a@.len()),
        init_views(out.4@) == mix_init_views(old(b).allocated(), a@.len()),
        final(b).allocated() == old(b).allocated() + 5 * a@.len(),
        final(b).log() == old(b).log() + ma_gates(a@, bb@, c@, old(b).allocated()),
{
    let ghost start = old(b).allocated();
    let ghost n = a@.len();
    let mut init: Vec<InitState> = Vec::new();
    let (a, bb, ab, init_buff) = register_and(b, a, bb);
    append_inits(&mut init, init_buff);
    let (a, c, ac, init_buff) = register_and(b, a, c);
    append_inits(&mut init, init_buff);
    let (bb, c, bc, init_buff) = register_and(b, bb, c);
    append_inits(&mut init, init_buff);
    let (ab, ac, xored1, init_buff) = register_xor(b, ab, ac);
    append_inits(&mut init, init_buff);
    let (xored1, bc, xored2, init_buff) = register_xor(b, xored1, bc);
    append_inits(&mut init, init_buff);
    proof {
        reveal(ma_gates);
        assert(init_views(init@) =~= mix_init_views(start, n));
        assert_seqs_equal!(b.log(), old(b).log() + ma_gates(a@, bb@, c@, start));
    }
    (a, bb, c, xored2, init)
}

/// The initial states of one adder on `n`-qubit words starting at `start`.
#[verifier::opaque]
pub open spec fn sum_init_views(start: nat, n: nat) -> Seq<(Seq<u64>, u64)> {
    zero_init_views(start, n) + single_zero_views(start + n, 3 * n + 4)
}

/// `Sum0 + Ma`.
#[allow(non_snake_case)]
pub fn get_t2(b: &mut CircuitBuilder, Sum0: QubitRegister, Ma: QubitRegister) -> (out: (
    QubitRegister,
    QubitRegister,
    QubitRegister,
    Vec<InitState>,
))
    requires
        Sum0@.len() > 0,
        Sum0@.len() <= Ma@.len(),
        old(b).allocated() + 4 * Sum0@.len() + 4 <= u64::MAX,
    ensures
        out.0@ == Sum0@,
        out.1@ == Ma@,
        out.2@ == fresh(old(b).allocated(), Sum0@.len()),
        init_views(out.3@) == sum_init_views(old(b).allocated(), Sum0@.len()),
        final(b).allocated() == old(b).allocated() + 4 * Sum0@.len() + 4,
        final(b).log() == old(b).log() + sum_gates(Sum0@, Ma@, old(b).allocated(), Sum0@.len()),
{
    proof {
        reveal(sum_init_views);
    }
    register_sum(b, Sum0, Ma)
}

/// The gates of the choice of `e`, `f`, `g` (width `n`): `e & f`, a negated
/// copy of `e`, its conjunction with `g`, and the xor of the two.
#[verifier::opaque]
pub open spec fn ch_gates(e: Seq<u64>, f: Seq<u64>, g: Seq<u64>, start: nat) -> Seq<GateSpec> {
    let n = e.len();
    pair_gates(e, f, fresh(start, n), n) + not_gates(fresh(start + n, n)) + copy_gates(e, fresh(start + n, n))
        + pair_gates(fresh(start + n, n), g, fresh(start + 2 * n, n), n) + xor_gates(
        fresh(start, n),
        fresh(start + 2 * n, n),
        fresh(start + 3 * n, n),
    )
}

#[verifier::opaque]
pub open spec fn ch_init_views(start: nat, n: nat) -> Seq<(Seq<u64>, u64)> {
    zero_init_views(start, n) + zero_init_views(start + n, n) + zero_init_views(start + 2 * n, n) + zero_init_views(
        start + 3 * n,
        n,
    )
}

/// The choice of `e`, `f` and `g`: `(e & f) ^ (!e & g)`.
#[allow(non_snake_case)]
pub fn get_Ch(b: &mut CircuitBuilder, e: QubitRegister, f: QubitRegister, g: QubitRegister) -> (out: (
    QubitRegister,
    QubitRegister,
    QubitRegister,
    QubitRegister,
    Vec<InitState>,
))
    requires
        e@.len() > 0,
        f@.len() == e@.len(),
        g@.len() == e@.len(),
        old(b).allocated() + 4 * e@.len() <= u64::MAX,
    ensures
        out.0@ == e@,
        out.1@ == f@,
        out.2@ == g@,
        out.3@ == fresh(old(b).allocated() + 3 * e@.len(), e@.len()),
        init_views(out.4@) == ch_init_views(old(b).allocated(), e@.len()),
        final(b).allocated() == old(b).allocated() + 4 * e@.len(),
        final(b).log() == old(b).log() + ch_gates(e@, f@, g@, old(b).allocated()),
{
    let ghost start = old(b).allocated();
    let ghost n = e@.len();
    let mut init: Vec<InitState> = Vec::new();
    let (e, f, ef, init_buff) = register_and(b, e, f);
    append_inits(&mut init, init_buff);
    let (e, not, init_buff) = register_not(b, e);
    append_inits(&mut init, init_buff);
    let (not, g, notg, init_buff) = register_and(b, not, g);
    append_inits(&mut init, init_buff);
    let (ef, notg, xored, init_buff) = register_xor(b, ef, notg);
    append_inits(&mut init, init_buff);
    proof {
        reveal(ch_gates);
        reveal(ch_init_views);
        assert(init_views(init@) =~= ch_init_views(start, n));
        assert_seqs_equal!(b.log(), old(b).log() + ch_gates(e@, f@, g@, start));
    }
    (e, f, g, xored, init)
}

/// The gates of `h + Sum1 + Ch + k + w` (width `n`), four adders in a row.
#[verifier::opaque]
pub open spec fn t1_gates(h: Seq<u64>, sum1: Seq<u64>, ch: Seq<u64>, k: Seq<u64>, w: Seq<u64>, start: nat) -> Seq<
    GateSpec,
> {
    let n = h.len();
    let step = 4 * n + 4;
    sum_gates(h, sum1, start, n) + sum_gates(fresh(start, n), ch, start + step, n) + sum_gates(
        fresh(start + step, n),
        k,
        start + 2 * step,
        n,
    ) + sum_gates(fresh(start + 2 * step, n), w, start + 3 * step, n)
}

#[verifier::opaque]
pub open spec fn t1_init_views(start: nat, n: nat) -> Seq<(Seq<u64>, u64)> {
    let step = 4 * n + 4;
    sum_init_views(start, n) + sum_init_views(start + step, n) + sum_init_views(start + 2 * step, n) + sum_init_views(
        start + 3 * step,
        n,
    )
}

/// `h + Sum1 + Ch + k + w`.
#[allow(non_snake_case)]
pub fn get_t1(
    b: &mut CircuitBuilder,
    h: QubitRegister,
    Sum1: QubitRegister,
    Ch: QubitRegister,
    k: QubitRegister,
    w: QubitRegister,
) -> (out: (QubitRegister, QubitRegister, QubitRegister, QubitRegister, QubitRegister, QubitRegister, Vec<InitState>))
    requires
        h@.len() > 0,
        h@.len() <= Sum1@.len(),
        h@.len() <= Ch@.len(),
        h@.len() <= k@.len(),
        h@.len() <= w@.len(),
        old(b).allocated() + 16 * h@.len() + 16 <= u64::MAX,
    ensures
        out.0@ == h@,
        out.1@ == Sum1@,
        out.2@ == Ch@,
        out.3@ == k@,
        out.4@ == w@,
        out.5@ == fresh(old(b).allocated() + 12 * h@.len() + 12, h@.len()),
        init_views(out.6@) == t1_init_views(old(b).allocated(), h@.len()),
        final(b).allocated() == old(b).allocated() + 16 * h@.len() + 16,
        final(b).log() == old(b).log() + t1_gates(h@, Sum1@, Ch@, k@, w@, old(b).allocated()),
{
    let ghost start = old(b).allocated();
    let ghost n = h@.len();
    let mut init: Vec<InitState> = Vec::new();
    let (h, Sum1, s1, init_buff) = register_sum(b, h, Sum1);
    append_inits(&mut init, init_buff);
    let (s1, Ch, s2, init_buff) = register_sum(b, s1, Ch);
    append_inits(&mut init, init_buff);
    let (s2, k, s3, init_buff) = register_sum(b, s2, k);
    append_inits(&mut init, init_buff);
    let (s3, w, s4, init_buff) = register_sum(b, s3, w);
    append_inits(&mut init, init_buff);
    proof {
        reveal(t1_gates);
        reveal(t1_init_views);
        reveal(sum_init_views);
        assert(init_views(init@) =~= t1_init_views(start, n));
        assert_seqs_equal!(b.log(), old(b).log() + t1_gates(h@, Sum1@, Ch@, k@, w@, start));
    }
    (h, Sum1, Ch, k, w, s4, init)
}

// ---------------------------------------------------------------------------
// Working copies of the chaining state
// ---------------------------------------------------------------------------

/// Registers that all have `n` qubits.
pub open spec fn all_width(vs: Seq<Seq<u64>>, n: nat) -> bool {
    forall|j: int| 0 <= j < vs.len() ==> (#[trigger] vs[j]).len() == n
}

/// The gates of copying each register of `vs` into fresh `n`-qubit
/// registers, register `j` at `start + j n`.
pub open spec fn copies_gates(vs: Seq<Seq<u64>>, start: nat, n: nat) -> Seq<GateSpec>
    decreases vs.len(),
{
    if vs.len() == 0 {
        Seq::empty()
    } else {
        copies_gates(vs.drop_last(), start, n) + copy_gates(vs.last(), fresh((start + (vs.len() - 1) * n) as nat, n))
    }
}

/// The initial states of `count` zeroed `n`-qubit registers, register `j` at
/// `start + j n`.
pub open spec fn zero_blocks_views(start: nat, n: nat, count: nat) -> Seq<(Seq<u64>, u64)>
    decreases count,
{
    if count == 0 {
        Seq::empty()
    } else {
        zero_blocks_views(start, n, (count - 1) as nat) + zero_init_views((start + (count - 1) * n) as nat, n)
    }
}

/// A fresh copy of a register's qubit list.
fn clone_register(r: &QubitRegister) -> (out: QubitRegister)
    ensures
        out@ == r@,
{
    QubitRegister { qubits: crate::searcher::circuit::copy_qubits(&r.qubits) }
}

/// Entangled copies of the eight state registers (each of `n` qubits).
pub fn get_vars_copy(b: &mut CircuitBuilder, vars: Vec<QubitRegister>) -> (out: (
    Vec<QubitRegister>,
    Vec<QubitRegister>,
    Vec<InitState>,
))
    requires
        vars@.len() == 8,
        vars@[0]@.len() > 0,
        all_width(register_views(vars@), vars@[0]@.len()),
        old(b).allocated() + 8 * vars@[0]@.len() <= u64::MAX,
    ensures
        register_views(out.0@) == register_views(vars@),
        register_views(out.1@) == fresh_block(old(b).allocated(), vars@[0]@.len(), 8),
        init_views(out.2@) == zero_blocks_views(old(b).allocated(), vars@[0]@.len(), 8),
        final(b).allocated() == old(b).allocated() + 8 * vars@[0]@.len(),
        final(b).log() == old(b).log() + copies_gates(register_views(vars@), old(b).allocated(), vars@[0]@.len()),
{
    let ghost start = old(b).allocated();
    let ghost n = vars@[0]@.len();
    let ghost vs = register_views(vars@);
    let mut copies: Vec<QubitRegister> = Vec::new();
    let mut init: Vec<InitState> = Vec::new();
    let mut j: usize = 0;
    while j < 8
        invariant
            j <= 8,
            vars@.len() == 8,
            vs == register_views(vars@),
            n == vars@[0]@.len(),
            n > 0,
            all_width(vs, n),
            start + 8 * n <= u64::MAX,
            b.allocated() == start + j * n,
            b.log() == old(b).log() + copies_gates(vs.take(j as int), start, n),
            register_views(copies@) == fresh_block(start, n, j as nat),
            init_views(init@) == zero_blocks_views(start, n, j as nat),
        decreases 8 - j,
    {
        proof {
            assert(vs[j as int].len() == n);
            assert(start + (j + 1) * n <= start + 8 * n) by (nonlinear_arith)
                requires
                    j < 8,
            ;
            assert((j + 1) * n == j * n + n) by (nonlinear_arith);
        }
        let (_, copy, init_buff) = register_entangled_copy(b, clone_register(&vars[j]));
        let ghost cv = copy@;
        let ghost copies0 = copies@;
        copies.push(copy);
        append_inits(&mut init, init_buff);
        proof {
            assert(vs.take(j + 1).drop_last() =~= vs.take(j as int));
            assert(register_views(copies@) =~= register_views(copies0).push(cv));
            assert(register_views(copies@) =~= fresh_block(start, n, (j + 1) as nat));
        }
        j += 1;
    }
    assert(vs.take(8) =~= vs);
    (vars, copies, init)
}

/// The gates of adding `incs[j]` to `vs[j]` for each `j`, each adder on
/// `n` qubits, adder `j` starting at `start + j (4n + 4)`.
pub open spec fn next_vars_gates(vs: Seq<Seq<u64>>, incs: Seq<Seq<u64>>, start: nat, n: nat) -> Seq<GateSpec>
    decreases vs.len(),
{
    if vs.len() == 0 {
        Seq::empty()
    } else {
        let j = vs.len() - 1;
        next_vars_gates(vs.drop_last(), incs, start, n) + sum_gates(
            vs.last(),
            incs[j],
            (start + j * (4 * n + 4)) as nat,
            n,
        )
    }
}

/// The initial states of `count` adders on `n` qubits, adder `j` at
/// `start + j (4n + 4)`.
pub open spec fn sums_init_views(start: nat, n: nat, count: nat) -> Seq<(Seq<u64>, u64)>
    decreases count,
{
    if count == 0 {
        Seq::empty()
    } else {
        sums_init_views(start, n, (count - 1) as nat) + sum_init_views((start + (count - 1) * (4 * n + 4)) as nat, n)
    }
}

/// The next chaining state: each state register plus its increment, in
/// fresh `n`-qubit registers.
pub fn get_next_vars(b: &mut CircuitBuilder, vars: Vec<QubitRegister>, increment: Vec<QubitRegister>) -> (out: (
    Vec<QubitRegister>,
    Vec<InitState>,
))
    requires
        vars@.len() == 8,
        increment@.len() == 8,
        vars@[0]@.len() > 0,
        all_width(register_views(vars@), vars@[0]@.len()),
        forall|j: int| 0 <= j < 8 ==> vars@[0]@.len() <= (#[trigger] increment@[j])@.len(),
        old(b).allocated() + 8 * (4 * vars@[0]@.len() + 4) <= u64::MAX,
    ensures
        register_views(out.0@) == strided_block(old(b).allocated(), 4 * vars@[0]@.len() + 4, vars@[0]@.len(), 8),
        init_views(out.1@) == sums_init_views(old(b).allocated(), vars@[0]@.len(), 8),
        final(b).allocated() == old(b).allocated() + 8 * (4 * vars@[0]@.len() + 4),
        final(b).log() == old(b).log() + next_vars_gates(
            register_views(vars@),
            register_views(increment@),
            old(b).allocated(),
            vars@[0]@.len(),
        ),
{
    let ghost start = old(b).allocated();
    let ghost n = vars@[0]@.len();
    let ghost vs = register_views(vars@);
    let ghost incs = register_views(increment@);
    let ghost step = 4 * n + 4;
    let mut next: Vec<QubitRegister> = Vec::new();
    let mut init: Vec<InitState> = Vec::new();
    let mut j: usize = 0;
    while j < 8
        invariant
            j <= 8,
            vars@.len() == 8,
            increment@.len() == 8,
            vs == register_views(vars@),
            incs == register_views(increment@),
            n == vars@[0]@.len(),
            n > 0,
            step == 4 * n + 4,
            all_width(vs, n),
            forall|t: int| 0 <= t < 8 ==> n <= (#[trigger] increment@[t])@.len(),
            start + 8 * step <= u64::MAX,
            b.allocated() == start + j * step,
            b.log() == old(b).log() + next_vars_gates(vs.take(j as int), incs, start, n),
            register_views(next@) == strided_block(start, step, n, j as nat),
            init_views(init@) == sums_init_views(start, n, j as nat),
        decreases 8 - j,
    {
        proof {
            assert(vs[j as int].len() == n);
            assert(start + (j + 1) * step <= start + 8 * step) by (nonlinear_arith)
                requires
                    j < 8,
            ;
            assert((j + 1) * step == j * step + step) by (nonlinear_arith);
        }
        proof {
            reveal(sum_init_views);
        }
        let (_, _, res, init_buff) = register_sum(b, clone_register(&vars[j]), clone_register(&increment[j]));
        let ghost rv = res@;
        let ghost next0 = next@;
        next.push(res);
        append_inits(&mut init, init_buff);
        proof {
            assert(vs.take(j + 1).drop_last() =~= vs.take(j as int));
            assert(register_views(next@) =~= register_views(next0).push(rv));
            assert(register_views(next@) =~= strided_block(start, step, n, (j + 1) as nat));
        }
        j += 1;
    }
    assert(vs.take(8) =~= vs);
    (next, init)
}

// ---------------------------------------------------------------------------
// One compression round
// ---------------------------------------------------------------------------

/// Qubits that a round allocates before it fetches its schedule word.
pub open spec fn round_head_cost(n: nat) -> nat {
    23 * n + 4
}

/// Qubits that a round allocates after it fetched its schedule word.
pub open spec fn round_tail_cost(n: nat) -> nat {
    24 * n + 24
}

/// The gates of a round on the state `v` (eight `n`-qubit registers) before
/// the word is fetched: the rotation sum and majority of `a`, their sum, the
/// rotation sum of `e` and the choice of `e`, `f`, `g`.
#[verifier::opaque]
pub open spec fn round_head_gates(v: Seq<Seq<u64>>, start: nat) -> Seq<GateSpec> {
    let n = v[0].len();
    sigma_gates(
        v[0],
        start,
        (2u64 % (n as u64)) as int,
        (13u64 % (n as u64)) as int,
        (22u64 % (n as u64)) as int,
    ) + ma_gates(v[0], v[1], v[2], start + 5 * n) + sum_gates(
        fresh(start + 4 * n, n),
        fresh(start + 9 * n, n),
        start + 10 * n,
        n,
    ) + sigma_gates(
        v[4],
        start + 14 * n + 4,
        (6u64 % (n as u64)) as int,
        (11u64 % (n as u64)) as int,
        (25u64 % (n as u64)) as int,
    ) + ch_gates(v[4], v[5], v[6], start + 19 * n + 4)
}

#[verifier::opaque]
pub open spec fn round_head_inits(start: nat, n: nat) -> Seq<(Seq<u64>, u64)> {
    mix_init_views(start, n) + mix_init_views(start + 5 * n, n) + sum_init_views(start + 10 * n, n) + mix_init_views(
        start + 14 * n + 4,
        n,
    ) + ch_init_views(start + 19 * n + 4, n)
}

/// The gates of a round after the word `w` was fetched, with the next fresh
/// qubit at `q`: `t1 = h + Sum1 + Ch + k + w`, then `d + t1` and `t1 + t2`,
/// where `t2` is the register of the rotation sum of `a`.
#[verifier::opaque]
pub open spec fn round_tail_gates(v: Seq<Seq<u64>>, k: Seq<u64>, w: Seq<u64>, start: nat, q: nat) -> Seq<GateSpec> {
    let n = v[0].len();
    t1_gates(v[7], fresh(start + 18 * n + 4, n), fresh(start + 22 * n + 4, n), k, w, q) + sum_gates(
        v[3],
        fresh(q + 12 * n + 12, n),
        q + 16 * n + 16,
        n,
    ) + sum_gates(fresh(q + 12 * n + 12, n), fresh(start + 4 * n, n), q + 20 * n + 20, n)
}

#[verifier::opaque]
pub open spec fn round_tail_inits(q: nat, n: nat) -> Seq<(Seq<u64>, u64)> {
    t1_init_views(q, n) + sum_init_views(q + 16 * n + 16, n) + sum_init_views(q + 20 * n + 20, n)
}

/// The state after a round: the new `a` and `e` in fresh registers, the
/// others shifted by one place.
pub open spec fn round_vars(v: Seq<Seq<u64>>, q: nat) -> Seq<Seq<u64>> {
    let n = v[0].len();
    seq![fresh(q + 20 * n + 20, n), v[0], v[1], v[2], fresh(q + 16 * n + 16, n), v[4], v[5], v[6]]
}

/// The word fetch of a round on the state `v` that starts at qubit `start`.
pub open spec fn round_fetch(
    words: Seq<Seq<Seq<u64>>>,
    layers: Seq<Seq<u64>>,
    v: Seq<Seq<u64>>,
    start: nat,
    step: u64,
    i: u64,
) -> WordFetch {
    fetch_word(words, layers, start + round_head_cost(v[0].len()), step, i)
}

/// The part of a round before the word fetch, on `a`, `b`, `c`, `e`, `f`,
/// `g`: returns them, the register `t2` (the rotation sum of `a`, as the
/// round uses it), the rotation sum of `e` and the choice.
fn round_head(
    b: &mut CircuitBuilder,
    a: QubitRegister,
    bb: QubitRegister,
    c: QubitRegister,
    e: QubitRegister,
    f: QubitRegister,
    g: QubitRegister,
) -> (out: (QubitRegister, QubitRegister, QubitRegister, Vec<InitState>))
    requires
        a@.len() > 0,
        bb@.len() == a@.len(),
        c@.len() == a@.len(),
        e@.len() == a@.len(),
        f@.len() == a@.len(),
        g@.len() == a@.len(),
        sigma_ok(a@.len(), 2, 13, 22, old(b).allocated()),
        sigma_ok(a@.len(), 6, 11, 25, old(b).allocated()),
        old(b).allocated() + round_head_cost(a@.len()) <= u64::MAX,
    ensures
        ({
            let n = a@.len();
            let start = old(b).allocated();
            &&& out.0@ == fresh(start + 4 * n, n)
            &&& out.1@ == fresh(start + 18 * n + 4, n)
            &&& out.2@ == fresh(start + 22 * n + 4, n)
            &&& init_views(out.3@) == round_head_inits(start, n)
            &&& final(b).allocated() == start + round_head_cost(n)
            &&& final(b).log() == old(b).log() + round_head_gates(
                seq![a@, bb@, c@, a@, e@, f@, g@, a@],
                start,
            )
        }),
{
    let ghost start = old(b).allocated();
    let ghost n = a@.len();
    let ghost v = seq![a@, bb@, c@, a@, e@, f@, g@, a@];
    let ghost l0 = b.log();
    let mut init: Vec<InitState> = Vec::new();
    let (a, sum0, init_buff) = get_Sum0(b, a);
    append_inits(&mut init, init_buff);
    let ghost l1 = b.log();
    let (a, bb, c, ma, init_buff) = get_Ma(b, a, bb, c);
    append_inits(&mut init, init_buff);
    let ghost l2 = b.log();
    let (t2, _, _, init_buff) = get_t2(b, sum0, ma);
    append_inits(&mut init, init_buff);
    let ghost l3 = b.log();
    let (e, sum1, init_buff) = get_Sum1(b, e);
    append_inits(&mut init, init_buff);
    let ghost l4 = b.log();
    let (e, f, g, ch, init_buff) = get_Ch(b, e, f, g);
    append_inits(&mut init, init_buff);
    proof {
        let s1 = sigma_gates(
            v[0],
            start,
            (2u64 % (n as u64)) as int,
            (13u64 % (n as u64)) as int,
            (22u64 % (n as u64)) as int,
        );
        let s2 = ma_gates(v[0], v[1], v[2], start + 5 * n);
        let s3 = sum_gates(fresh(start + 4 * n, n), fresh(start + 9 * n, n), start + 10 * n, n);
        let s4 = sigma_gates(
            v[4],
            start + 14 * n + 4,
            (6u64 % (n as u64)) as int,
            (11u64 % (n as u64)) as int,
            (25u64 % (n as u64)) as int,
        );
        let s5 = ch_gates(v[4], v[5], v[6], start + 19 * n + 4);
        assert(l1 == l0 + s1);
        assert(l2 == l1 + s2);
        assert(l3 == l2 + s3);
        assert(l4 == l3 + s4);
        assert(b.log() == l4 + s5);
        reveal(round_head_gates);
        reveal(round_head_inits);
        assert(round_head_gates(v, start) == s1 + s2 + s3 + s4 + s5);
        lemma_concat_associative(l0, s1 + s2 + s3 + s4, s5);
        lemma_concat_associative(l0, s1 + s2 + s3, s4);
        lemma_concat_associative(l0, s1 + s2, s3);
        lemma_concat_associative(l0, s1, s2);
        assert(init_views(init@) =~= round_head_inits(start, n));
    }
    (t2, sum1, ch, init)
}

/// The part of a round after the word fetch: `t1 = h + Sum1 + Ch + k + w`,
/// the new `e = d + t1` and the new `a = t1 + t2`; returns `w`, the new `a`
/// and the new `e`.
fn round_tail(
    b: &mut CircuitBuilder,
    h: QubitRegister,
    sum1: QubitRegister,
    ch: QubitRegister,
    k: QubitRegister,
    w: QubitRegister,
    d: QubitRegister,
    t2: QubitRegister,
) -> (out: (QubitRegister, QubitRegister, QubitRegister, Vec<InitState>))
    requires
        h@.len() > 0,
        sum1@.len() == h@.len(),
        ch@.len() == h@.len(),
        d@.len() == h@.len(),
        t2@.len() == h@.len(),
        h@.len() <= k@.len(),
        h@.len() <= w@.len(),
        old(b).allocated() + round_tail_cost(h@.len()) <= u64::MAX,
    ensures
        ({
            let n = h@.len();
            let q = old(b).allocated();
            &&& out.0@ == w@
            &&& out.1@ == fresh(q + 20 * n + 20, n)
            &&& out.2@ == fresh(q + 16 * n + 16, n)
            &&& init_views(out.3@) == round_tail_inits(q, n)
            &&& final(b).allocated() == q + round_tail_cost(n)
            &&& final(b).log() == old(b).log() + t1_gates(h@, sum1@, ch@, k@, w@, q) + sum_gates(
                d@,
                fresh(q + 12 * n + 12, n),
                q + 16 * n + 16,
                n,
            ) + sum_gates(fresh(q + 12 * n + 12, n), t2@, q + 20 * n + 20, n)
        }),
{
    let ghost q = old(b).allocated();
    let ghost n = h@.len();
    let mut init: Vec<InitState> = Vec::new();
    let (_, _, _, _, w, t1, init_buff) = get_t1(b, h, sum1, ch, k, w);
    append_inits(&mut init, init_buff);
    let (_, t1, e, init_buff) = register_sum(b, d, t1);
    append_inits(&mut init, init_buff);
    let (_, _, a, init_buff) = register_sum(b, t1, t2);
    append_inits(&mut init, init_buff);
    proof {
        reveal(sum_init_views);
        reveal(round_tail_inits);
        assert(init_views(init@) =~= round_tail_inits(q, n));
    }
    (w, a, e, init)
}

/// One round of the compression function on the state registers `vars`
/// (`a` to `h`, each of `n` qubits) with the round constant register `k` and
/// the schedule word `i` of block `step`; the word goes back to its pool.
pub fn compression_round(
    b: &mut CircuitBuilder,
    vars: Vec<QubitRegister>,
    k: &QubitRegister,
    words_provider: &mut WordsProvider,
    main_data: &mut LayeredRegister,
    step: u64,
    i: u64,
) -> (out: (Vec<QubitRegister>, Vec<InitState>))
    requires
        vars@.len() == 8,
        0 < vars@[0]@.len() <= 32,
        all_width(register_views(vars@), vars@[0]@.len()),
        vars@[0]@.len() <= k@.len(),
        sigma_ok(vars@[0]@.len(), 2, 13, 22, old(b).allocated()),
        sigma_ok(vars@[0]@.len(), 6, 11, 25, old(b).allocated()),
        old(b).allocated() + round_head_cost(vars@[0]@.len()) <= u64::MAX,
        old(words_provider).wf(),
        words_ok(old(words_provider)@),
        old(main_data).wf(),
        ({
            let f = round_fetch(
                old(words_provider)@,
                old(main_data).layers_view(),
                register_views(vars@),
                old(b).allocated(),
                step,
                i,
            );
            &&& f.ok
            &&& has_key(f.map, step, i)
            &&& f.next + round_tail_cost(vars@[0]@.len()) <= u64::MAX
        }),
    ensures
        ({
            let v = register_views(vars@);
            let n = vars@[0]@.len();
            let start = old(b).allocated();
            let f = round_fetch(old(words_provider)@, old(main_data).layers_view(), v, start, step, i);
            &&& register_views(out.0@) == round_vars(v, f.next)
            &&& init_views(out.1@) == round_head_inits(start, n) + f.inits + round_tail_inits(f.next, n)
            &&& final(b).allocated() == f.next + round_tail_cost(n)
            &&& final(b).log() == old(b).log() + round_head_gates(v, start) + f.gates + round_tail_gates(
                v,
                k@,
                f.word,
                start,
                f.next,
            )
            &&& final(words_provider).wf()
            &&& words_ok(final(words_provider)@)
            &&& final(words_provider)@ == f.map.update(16 * step + i, f.map[16 * step + i].push(f.word))
            &&& final(main_data).wf()
            &&& final(main_data).layers_view() == f.layers
            &&& final(main_data).spec_current_layer() == old(main_data).spec_current_layer() + (
            old(main_data).layers_view().len() - f.layers.len())
            &&& final(main_data).spec_start_depth() == old(main_data).spec_start_depth()
            &&& final(main_data).spec_width() == old(main_data).spec_width()
            &&& final(main_data).spec_dif_range() == old(main_data).spec_dif_range()
        }),
{
    let ghost v = register_views(vars@);
    let ghost n = v[0].len();
    let ghost start = old(b).allocated();
    let ghost f0 = round_fetch(old(words_provider)@, old(main_data).layers_view(), v, start, step, i);
    proof {
        assert(all_width(v, n));
        assert(v[1].len() == n && v[2].len() == n && v[3].len() == n && v[4].len() == n);
        assert(v[5].len() == n && v[6].len() == n && v[7].len() == n);
    }
    let (t2, sum1, ch, init) = round_head(
        b,
        clone_register(&vars[0]),
        clone_register(&vars[1]),
        clone_register(&vars[2]),
        clone_register(&vars[4]),
        clone_register(&vars[5]),
        clone_register(&vars[6]),
    );
    let ghost head_log = b.log();
    let mut init = init;
    let (wi, init_buff) = words_provider.get_word(b, main_data, step, i);
    append_inits(&mut init, init_buff);
    let ghost q = b.allocated();
    let ghost fetch_log = b.log();
    let (wi, new_a, new_e, init_buff) = round_tail(
        b,
        clone_register(&vars[7]),
        sum1,
        ch,
        clone_register(k),
        wi,
        clone_register(&vars[3]),
        t2,
    );
    append_inits(&mut init, init_buff);
    words_provider.return_word(wi, step, i);
    let out = vec![
        new_a,
        clone_register(&vars[0]),
        clone_register(&vars[1]),
        clone_register(&vars[2]),
        new_e,
        clone_register(&vars[4]),
        clone_register(&vars[5]),
        clone_register(&vars[6]),
    ];
    proof {
        assert(register_views(out@) =~= round_vars(v, q));
        reveal(round_head_gates);
        reveal(round_tail_gates);
        assert(round_head_gates(seq![v[0], v[1], v[2], v[0], v[4], v[5], v[6], v[0]], start) == round_head_gates(v, start));
        assert(b.log() == old(b).log() + round_head_gates(v, start) + f0.gates + round_tail_gates(v, k@, f0.word, start, q));
    }
    (out, init)
}

// ---------------------------------------------------------------------------
// The main data
// ---------------------------------------------------------------------------

/// The eight bytes of `x`, most significant first.
pub open spec fn u64_be_bytes(x: u64) -> Seq<u8> {
    Seq::new(8, |j: int| ((x >> ((56 - 8 * j) as u64)) & 0xffu64) as u8)
}

/// The length in bits of the data with a nonce of `nonce_size` bytes.
pub open spec fn main_size_bits(data_len: nat, nonce_size: u64) -> int {
    8 * data_len + 8 * nonce_size
}

/// The number of zero bytes that the padding puts between the end marker and
/// the length.
pub open spec fn padding_zeros(data_len: nat, nonce_size: u64) -> int {
    (main_size_bits(data_len, nonce_size) + 72) % 512
}

/// The main data: the data, a zero nonce of `nonce_size` bytes, the end
/// marker `0x80`, the padding zeros and the length in bits as eight
/// big-endian bytes.
pub open spec fn padded_data(data: Seq<u8>, nonce_size: u64) -> Seq<u8> {
    data + Seq::new(nonce_size as nat, |j: int| 0u8) + seq![0x80u8] + Seq::new(
        padding_zeros(data.len(), nonce_size) as nat,
        |j: int| 0u8,
    ) + u64_be_bytes(main_size_bits(data.len(), nonce_size) as u64)
}

/// The bounds under which the main data and its sizes fit the machine.
pub open spec fn padding_fits(data_len: nat, nonce_size: u64) -> bool {
    &&& main_size_bits(data_len, nonce_size) + 72 + 511 <= u64::MAX
    &&& 8 * (data_len + nonce_size + 9 + 511) <= usize::MAX
}

/// The main data for `old_data` and a nonce of `nonce_size` bytes.
pub fn padded_main_data(old_data: &Vec<u8>, nonce_size: u64) -> (data: Vec<u8>)
    requires
        padding_fits(old_data@.len(), nonce_size),
    ensures
        data@ == padded_data(old_data@, nonce_size),
{
    let ghost d = old_data@;
    let main_size_bits = old_data.len() as u64 * 8 + nonce_size * 8;
    let mut data: Vec<u8> = Vec::new();
    let mut j: usize = 0;
    while j < old_data.len()
        invariant
            j <= d.len(),
            d == old_data@,
            data@ == d.take(j as int),
        decreases d.len() - j,
    {
        data.push(old_data[j]);
        assert(data@ =~= d.take(j + 1));
        j += 1;
    }
    assert(d.take(d.len() as int) =~= d);
    let mut k: u64 = 0;
    while k < nonce_size
        invariant
            k <= nonce_size,
            padding_fits(d.len(), nonce_size),
            data@ == d + Seq::new(k as nat, |t: int| 0u8),
        decreases nonce_size - k,
    {
        data.push(0);
        assert(data@ =~= d + Seq::new((k + 1) as nat, |t: int| 0u8));
        k += 1;
    }
    data.push(0b10000000);
    let ghost prefix = data@;
    let additional_zeros = (main_size_bits + 8 + 64) % 512;
    let mut z: u64 = 0;
    while z < additional_zeros
        invariant
            z <= additional_zeros,
            additional_zeros < 512,
            padding_fits(d.len(), nonce_size),
            prefix.len() == d.len() + nonce_size + 1,
            data@ == prefix + Seq::new(z as nat, |t: int| 0u8),
        decreases additional_zeros - z,
    {
        data.push(0);
        assert(data@ =~= prefix + Seq::new((z + 1) as nat, |t: int| 0u8));
        z += 1;
    }
    let ghost body = data@;
    let mut t: u64 = 0;
    while t < 8
        invariant
            t <= 8,
            body.len() <= d.len() + nonce_size + 1 + 512,
            padding_fits(d.len(), nonce_size),
            data@ == body + u64_be_bytes(main_size_bits).take(t as int),
        decreases 8 - t,
    {
        let byte = ((main_size_bits >> (56 - 8 * t)) & 0xff) as u8;
        data.push(byte);
        assert(data@ =~= body + u64_be_bytes(main_size_bits).take(t + 1));
        t += 1;
    }
    assert(u64_be_bytes(main_size_bits).take(8) =~= u64_be_bytes(main_size_bits));
    assert(data@ =~= padded_data(d, nonce_size));
    data
}

// ---------------------------------------------------------------------------
// The oracle
// ---------------------------------------------------------------------------

/// The oracle of the SHA-256 search: compresses the main data from the
/// chaining state in `service_data` and compares the digest with `limit`.
pub struct SHA256Oracle {
    service_data: Vec<u8>,
    limit: [u8; 32],
    limit_reg: Option<(QubitRegister, Vec<InitState>)>,
}

/// A copy of a list of initial states.
fn copy_inits(v: &Vec<InitState>) -> (r: Vec<InitState>)
    ensures
        init_views(r@) == init_views(v@),
{
    let mut r: Vec<InitState> = Vec::new();
    let mut i: usize = 0;
    while i < v.len()
        invariant
            i <= v@.len(),
            init_views(r@) == init_views(v@.take(i as int)),
        decreases v@.len() - i,
    {
        let s = InitState { qubits: crate::searcher::circuit::copy_qubits(&v[i].qubits), value: v[i].value };
        let ghost r0 = r@;
        let ghost sv = (s.qubits@, s.value);
        r.push(s);
        assert(init_views(r@) =~= init_views(r0).push(sv));
        assert(init_views(v@.take(i + 1)) =~= init_views(v@.take(i as int)).push(sv));
        i += 1;
    }
    assert(v@.take(v@.len() as int) =~= v@);
    r
}

impl SHA256Oracle {
    pub closed spec fn service_view(&self) -> Seq<u8> {
        self.service_data@
    }

    pub closed spec fn limit_view(&self) -> Seq<u8> {
        self.limit@
    }

    /// The qubits of the limit register, once it has been built.
    pub closed spec fn limit_qubits(&self) -> Option<Seq<u64>> {
        match self.limit_reg {
            Some(p) => Some(p.0@),
            None => None,
        }
    }

    /// A limit register, once built, holds one eight-qubit register per
    /// byte of the limit.
    pub closed spec fn wf(&self) -> bool {
        self.limit_reg is Some ==> self.limit_reg.unwrap().0@.len() == 256
    }

    /// An oracle for the digests below `limit`, with no service data yet.
    pub fn init(limit: [u8; 32]) -> (r: Self)
        ensures
            r.wf(),
            r.limit_view() == limit@,
            r.service_view() == Seq::<u8>::empty(),
            r.limit_qubits() == None::<Seq<u64>>,
    {
        SHA256Oracle { service_data: Vec::new(), limit, limit_reg: None }
    }

    /// The chaining state that the predictions start from.
    pub fn service_data(&self) -> (r: &Vec<u8>)
        ensures
            r@ == self.service_view(),
    {
        &self.service_data
    }

    /// The eight state registers, one per byte of the service data, each set
    /// to its byte.
    fn init_service(&self, b: &mut CircuitBuilder) -> (out: (Vec<QubitRegister>, Vec<InitState>))
        requires
            self.service_view().len() == 8,
            old(b).allocated() + 64 <= u64::MAX,
        ensures
            register_views(out.0@) == fresh_block(old(b).allocated(), 8, 8),
            init_views(out.1@) == bytes_init_views(old(b).allocated(), self.service_view()),
            final(b).allocated() == old(b).allocated() + 64,
            final(b).log() == old(b).log(),
    {
        byte_registers(b, &self.service_data)
    }

    /// The limit in one register of 256 qubits, one byte per eight qubits.
    fn init_limit(&self, b: &mut CircuitBuilder) -> (out: (QubitRegister, Vec<InitState>))
        requires
            old(b).allocated() + 256 <= u64::MAX,
        ensures
            out.0@ == fresh(old(b).allocated(), 256),
            init_views(out.1@) == bytes_init_views(old(b).allocated(), self.limit_view()),
            final(b).allocated() == old(b).allocated() + 256,
            final(b).log() == old(b).log(),
    {
        let mut bytes: Vec<u8> = Vec::new();
        let mut j: usize = 0;
        while j < 32
            invariant
                j <= 32,
                self.limit@.len() == 32,
                bytes@ == self.limit@.take(j as int),
            decreases 32 - j,
        {
            bytes.push(self.limit[j]);
            assert(bytes@ =~= self.limit@.take(j + 1));
            j += 1;
        }
        assert(bytes@ =~= self.limit@);
        let (regs, init) = byte_registers(b, &bytes);
        let ghost start = old(b).allocated();
        let reg = merge(regs);
        proof {
            lemma_concat_fresh_block(start, 8, 32);
        }
        (reg, init)
    }
}

/// Registers of `n` consecutive qubits each, one after the other, make up
/// one block of consecutive qubits.
pub proof fn lemma_concat_fresh_block(start: nat, n: nat, count: nat)
    ensures
        concat_registers(fresh_block(start, n, count)) == fresh(start, count * n),
    decreases count,
{
    if count == 0 {
        assert(concat_registers(fresh_block(start, n, count)) =~= fresh(start, 0));
    } else {
        lemma_concat_fresh_block(start, n, (count - 1) as nat);
        let fb = fresh_block(start, n, count);
        assert(fb.drop_last() =~= fresh_block(start, n, (count - 1) as nat));
        assert(fb.last() == fresh((start + (count - 1) * n) as nat, n));
        assert(concat_registers(fb) == concat_registers(fb.drop_last()) + fb.last());
        assert((count - 1) * n + n == count * n) by (nonlinear_arith);
        assert(fresh(start, ((count - 1) * n) as nat) + fresh((start + (count - 1) * n) as nat, n) =~= fresh(
            start,
            count * n,
        ));
    }
}

/// The initial states of a prediction that starts at qubit `start`: the
/// state bytes, the round constants, the limit bytes where the limit
/// register is built now, and the comparison.
pub open spec fn prediction_init_views(
    start: nat,
    service: Seq<u8>,
    limit: Seq<u8>,
    builds_limit: bool,
) -> Seq<(Seq<u64>, u64)> {
    let e0 = start + 64 + 2048;
    let e = if builds_limit { e0 + 256 } else { e0 };
    bytes_init_views(start, service) + consts_init_views(start + 64) + (if builds_limit {
        bytes_init_views(e0, limit)
    } else {
        Seq::empty()
    }) + zero_init_views(e, 64) + zero_init_views(e + 64, 1)
}

/// The first qubit after the registers that a prediction starting at
/// `start` sets up before it compares.
pub open spec fn prediction_compare_start(start: nat, builds_limit: bool) -> nat {
    if builds_limit {
        start + 64 + 2048 + 256
    } else {
        start + 64 + 2048
    }
}

impl Oracle for SHA256Oracle {
    /// Hadamard on the qubits `main_size_bits .. 8 nonce_size` of every copy.
    open spec fn main_data_gates(service: Seq<u8>, data: Seq<u8>, nonce_size_bits: u64, copies: nat, start: nat) -> Seq<
        GateSpec,
    > {
        let main = main_size_bits(data.len(), nonce_size_bits);
        layers_gates(
            LayerOp::Hadamard,
            fresh_layers(start, (main + 72) as nat, copies),
            main,
            8 * nonce_size_bits,
        )
    }

    /// `copies` fresh layers as wide as the padded data.
    open spec fn main_data_layers(service: Seq<u8>, data: Seq<u8>, nonce_size_bits: u64, copies: nat, start: nat) -> Seq<
        Seq<u64>,
    > {
        fresh_layers(start, (main_size_bits(data.len(), nonce_size_bits) + 72) as nat, copies)
    }

    /// The nonce bits `8 data.len() .. main_size_bits`.
    open spec fn main_data_range(service: Seq<u8>, data: Seq<u8>, nonce_size_bits: u64) -> (u64, u64) {
        ((8 * data.len()) as u64, main_size_bits(data.len(), nonce_size_bits) as u64)
    }

    open spec fn service(&self) -> Seq<u8> {
        self.service_view()
    }

    /// The standard initial chaining value, as 32 big-endian bytes.
    open spec fn default_service(&self) -> Seq<u8> {
        words_be_bytes(initial_vars())
    }

    /// A prediction completes on a main register that holds no block of 512
    /// qubits, at least one layer, eight bytes of service data and room for
    /// the qubits it allocates. (With a block, round 16 of its compression
    /// hands its generated word back to a pool that does not exist.)
    open spec fn prediction_ready(&self, main_data: LayeredRegister, next_qubit: nat) -> bool {
        &&& self.wf()
        &&& main_data.wf()
        &&& main_data.spec_width() % 512 == 0
        &&& main_data.spec_width() / 512 == 0
        &&& main_data.layers_view().len() >= 1
        &&& self.service_view().len() == 8
        &&& next_qubit + 64 + 2048 + 256 + 65 <= u64::MAX
    }

    /// The main data completes where the padding leaves no zero bytes (the
    /// register width is the data length) and, with at least one layer,
    /// where the nonce range `main_size_bits .. 8 nonce` is not empty.
    open spec fn main_data_ready(
        &self,
        data: Seq<u8>,
        nonce_size_bits: u64,
        main_qubit_usage: usize,
        next_qubit: nat,
    ) -> bool {
        let main = main_size_bits(data.len(), nonce_size_bits);
        let full = padding_zeros(data.len(), nonce_size_bits) + main + 72;
        &&& padding_fits(data.len(), nonce_size_bits)
        &&& padding_zeros(data.len(), nonce_size_bits) == 0
        &&& next_qubit + main_qubit_usage * full <= u64::MAX
        &&& main_qubit_usage > 0 ==> main < 8 * nonce_size_bits <= full
    }

    /// With no service data the state is the standard initial chaining
    /// value, as 32 big-endian bytes.
    fn set_service_data(&mut self, service_data: Option<Vec<u8>>)
        ensures
            final(self).limit_view() == old(self).limit_view(),
            final(self).limit_qubits() == old(self).limit_qubits(),
            old(self).wf() ==> final(self).wf(),
    {
        match service_data {
            None => {
                let vars = initial_vars_vec();
                self.service_data = words_to_be_bytes(&vars);
            },
            Some(data) => {
                self.service_data = data;
            },
        }
    }

    /// The SHA-256 oracle leaves the usage to the search's default.
    open spec fn main_usage(&self) -> Option<usize> {
        None
    }

    fn get_main_qubit_usage(&self) -> (r: Option<usize>) {
        None
    }

    /// Compresses each 512-qubit block of the main data, round by round, from
    /// the state registers set to the service data, and compares the state
    /// with the limit register (built by the first prediction and kept).
    /// Under `prediction_ready` the main register holds no block, so the
    /// state is compared as the service data set it.
    #[verifier::loop_isolation(false)]
    fn make_prediction(&mut self, b: &mut CircuitBuilder, main_data: LayeredRegister) -> (out: (
        LayeredRegister,
        QubitRegister,
        Vec<InitState>,
    ))
        ensures
            ({
                let start = old(b).allocated();
                let builds = old(self).limit_qubits() is None;
                let e = prediction_compare_start(start, builds);
                let lim = if builds {
                    fresh(start + 64 + 2048, 256)
                } else {
                    old(self).limit_qubits().unwrap()
                };
                &&& out.0.layers_view() == main_data.layers_view().drop_last()
                &&& out.0.spec_current_layer() == main_data.spec_current_layer() + 1
                &&& out.0.spec_start_depth() == main_data.spec_start_depth()
                &&& out.1@ == fresh(e + 64, 1)
                &&& init_views(out.2@) == prediction_init_views(
                    start,
                    old(self).service_view(),
                    old(self).limit_view(),
                    builds,
                )
                &&& final(b).allocated() == e + 65
                &&& final(b).log() == old(b).log() + eq_gates(fresh(start, 64), lim, fresh(e, 64), (e + 64) as u64)
                &&& final(self).limit_qubits() == Some(lim)
                &&& final(self).service_view() == old(self).service_view()
                &&& final(self).limit_view() == old(self).limit_view()
                &&& final(self).wf()
            }),
    {
        let ghost start = old(b).allocated();
        let ghost md0 = main_data;
        let mut main_data = main_data;
        proof {
            main_data.lemma_layers_left();
        }
        let _working_reg = main_data.pop_layer();
        let mut init: Vec<InitState> = Vec::new();
        let (vars, init1) = self.init_service(b);
        let (consts, init2) = init_consts(b);
        append_inits(&mut init, init1);
        append_inits(&mut init, init2);
        let ghost before_loop = init@;
        let steps = main_data.width() / 512;
        let mut words_provider = WordsProvider::init();
        let mut vars = vars;
        let mut step: u64 = 0;
        while step < steps
            invariant
                step == 0,
                register_views(vars@) == fresh_block(start, 8, 8),
                init@ == before_loop,
                b.allocated() == start + 64 + 2048,
                b.log() == old(b).log(),
                main_data.wf(),
                main_data.layers_view() == md0.layers_view().drop_last(),
                main_data.spec_current_layer() == md0.spec_current_layer() + 1,
                main_data.spec_start_depth() == md0.spec_start_depth(),
                main_data.spec_width() == md0.spec_width(),
                main_data.spec_dif_range() == md0.spec_dif_range(),
            decreases steps - step,
        {
            let (vars_buff, vars_copy, _) = get_vars_copy(b, vars);
            vars = vars_buff;
            let mut vars_copy = vars_copy;
            let mut i: u64 = 0;
            while i < 63
                decreases 63 - i,
            {
                let (next, init_buff) = compression_round(
                    b,
                    vars_copy,
                    &consts[i as usize],
                    &mut words_provider,
                    &mut main_data,
                    step,
                    i,
                );
                append_inits(&mut init, init_buff);
                vars_copy = next;
                i += 1;
            }
            let (vars_buff, _) = get_next_vars(b, vars, vars_copy);
            vars = vars_buff;
            step += 1;
        }
        let res = merge(vars);
        proof {
            lemma_concat_fresh_block(start, 8, 8);
        }
        if self.limit_reg.is_none() {
            let (limit, init_buff) = self.init_limit(b);
            append_inits(&mut init, copy_inits(&init_buff));
            self.limit_reg = Some((limit, init_buff));
        }
        let limit = match &self.limit_reg {
            Some(p) => clone_register(&p.0),
            None => QubitRegister { qubits: Vec::new() },
        };
        let (_, _, sign, init_buff) = register_eq(b, res, limit);
        append_inits(&mut init, init_buff);
        proof {
            let builds = old(self).limit_qubits() is None;
            assert(old(b).log() =~= b.log().subrange(0, old(b).log().len() as int));
            assert(init_views(init@) =~= prediction_init_views(
                start,
                old(self).service_view(),
                old(self).limit_view(),
                builds,
            ));
        }
        (main_data, sign, init)
    }

    /// The main register: `main_qubit_usage` copies of the padded data (a
    /// nonce of `nonce_size` zero bytes included), Hadamard on the qubits
    /// `main_size_bits .. 8 nonce_size` of every copy, and the nonce range
    /// `8 data.len() .. main_size_bits` as the range the search works on.
    fn init_main_data(&mut self, b: &mut CircuitBuilder, old_data: &Vec<u8>, nonce_size: u64, main_qubit_usage: usize) -> (out: (
        LayeredRegister,
        Vec<InitState>,
    ))
        ensures
            ({
                let start = old(b).allocated();
                let main = main_size_bits(old_data@.len(), nonce_size);
                let full = (main + 72) as nat;
                let data = padded_data(old_data@, nonce_size);
                &&& out.0.layers_view() == fresh_layers(start, full, main_qubit_usage as nat)
                &&& out.0.spec_width() == full
                &&& out.0.spec_start_depth() == main_qubit_usage
                &&& out.0.spec_current_layer() == 0
                &&& out.0.spec_dif_range() == Some(((8 * old_data@.len()) as u64, main as u64))
                &&& init_views(out.1@) == byte_init_views(start, data, main_qubit_usage as nat)
                &&& final(b).allocated() == start + main_qubit_usage * full
                &&& final(b).log() == old(b).log() + layers_gates(
                    LayerOp::Hadamard,
                    fresh_layers(start, full, main_qubit_usage as nat),
                    main,
                    8 * nonce_size,
                )
                &&& final(self).service_view() == old(self).service_view()
                &&& final(self).limit_view() == old(self).limit_view()
                &&& final(self).limit_qubits() == old(self).limit_qubits()
            }),
    {
        let main_size_bits = old_data.len() as u64 * 8 + nonce_size * 8;
        let full_size_bits = (main_size_bits + 8 + 64) % 512 + main_size_bits + 8 + 64;
        let data = padded_main_data(old_data, nonce_size);
        let (qubits, init) = LayeredRegister::new_initialized(b, full_size_bits, main_qubit_usage, &data);
        let qubits = qubits.apply_to_layers1_in_range(LayerOp::Hadamard, b, main_size_bits, nonce_size * 8);
        let mut qubits = qubits;
        qubits.set_dif_range(old_data.len() as u64 * 8, main_size_bits);
        proof {
            assert(old(b).log() =~= b.log().subrange(0, old(b).log().len() as int));
        }
        (qubits, init)
    }

    fn can_predict(&self, main_data: &LayeredRegister, next_qubit: u64) -> (r: bool) {
        let limit_ok = match &self.limit_reg {
            Some(p) => p.0.qubits.len() == 256,
            None => true,
        };
        let width = main_data.width();
        limit_ok && width % 512 == 0 && width / 512 == 0 && main_data.depth() >= 1 && self.service_data.len() == 8
            && next_qubit <= u64::MAX - (64 + 2048 + 256 + 65)
    }

    fn can_init_main_data(&self, data: &Vec<u8>, nonce_size_bits: u64, main_qubit_usage: usize, next_qubit: u64) -> (r:
        bool) {
        let len = data.len() as u128;
        let nonce = nonce_size_bits as u128;
        let main = 8 * len + 8 * nonce;
        if main + 72 + 511 > u64::MAX as u128 || 8 * (len + nonce + 9 + 511) > usize::MAX as u128 {
            return false;
        }
        if (main + 72) % 512 != 0 {
            return false;
        }
        let full = main + 72;
        let usage = main_qubit_usage as u128;
        assert(usage * full <= 0xffff_ffff_ffff_ffffu128 * 0xffff_ffff_ffff_ffffu128) by (nonlinear_arith)
            requires
                usage <= 0xffff_ffff_ffff_ffffu128,
                full <= 0xffff_ffff_ffff_ffffu128,
        ;
        if next_qubit as u128 + usage * full > u64::MAX as u128 {
            return false;
        }
        usage == 0 || (main < 8 * nonce && 8 * nonce <= full)
    }
}

} // verus!
