use vstd::prelude::*;
use crate::searcher::circuit::{all_below, disjoint, distinct, fresh, lemma_run_append, run, GateSpec};
use crate::searcher::laws::{
    add_bits, law_adder_bits, law_register_xor, law_rotl_copy, lemma_fresh_apart, lemma_fresh_contains,
    lemma_reg_bits_same, reg_bits, rotl_bit, sum_inputs, law_rotr_copy, law_shiftr_copy, lemma_all_on_same,
    rotr_bit, shiftr_bit,
};
use crate::searcher::utils::{copy_gates, rotl_gates, rotr_gates, xor_gates};
use crate::searcher::circuit::all_on;
use crate::searcher::utils::sum_gates;
use crate::sha256::sha256_oracle::{next_vars_gates, sigma_gates};
use crate::sha256::sha256_data_preparer::{
    block_word, initial_vars, prepared_remains, prepared_service, schedule, schedule_word, state_after_blocks,
    words_be_bytes,
};
use crate::sha256::words_provider::{
    can_generate, fetch_word, generated_gates, mix_gates, wi_gates, generated_word, generation_cost, has_key, has_word, inserted_view, parsed_words, top_word,
};

verus! {

/// A pool is a stack: after `push_word` of `w`, `pop_word` gives `w` back
/// and leaves the pools as they were before the push.
pub proof fn law_push_then_pop(m: Seq<Seq<Seq<u64>>>, region: u64, i: u64, w: Seq<u64>)
    requires
        has_key(m, region, i),
    ensures
        ({
            let k = 16 * region + i;
            let pushed = m.update(k, m[k].push(w));
            &&& has_word(pushed, region, i)
            &&& top_word(pushed, region, i) == w
            &&& pushed.update(k, pushed[k].drop_last()) == m
        }),
{
    let k = 16 * region + i;
    assert(16 * region + 16 <= 16 * (m.len() / 16)) by (nonlinear_arith)
        requires
            region < m.len() / 16,
    ;
    assert(16 * (m.len() / 16) <= m.len()) by (nonlinear_arith);
    let pushed = m.update(k, m[k].push(w));
    assert(pushed[k as int].drop_last() =~= m[k as int]);
    assert(pushed.update(k, pushed[k].drop_last()) =~= m);
}

/// Taking a word from its pool costs nothing: no qubits, no gates, no
/// layer; and handing the word back with `return_word` restores the pools
/// as they were.
pub proof fn law_pool_word_round_trip(
    m: Seq<Seq<Seq<u64>>>,
    layers: Seq<Seq<u64>>,
    next: nat,
    region: u64,
    i: u64,
)
    requires
        has_word(m, region, i),
    ensures
        ({
            let f = fetch_word(m, layers, next, region, i);
            let k = 16 * region + i;
            &&& f.ok
            &&& f.next == next
            &&& f.layers == layers
            &&& f.gates.len() == 0
            &&& f.map.update(k, f.map[k].push(f.word)) == m
        }),
{
    let f = fetch_word(m, layers, next, region, i);
    let k = 16 * region + i;
    assert(m[k].drop_last().push(m[k].last()) =~= m[k]);
    assert(f.map.update(k, f.map[k].push(f.word)) =~= m);
}

/// Generating a word leaves the pools as they were and hands out fresh
/// qubits.
pub proof fn law_generation_keeps_pools(
    m: Seq<Seq<Seq<u64>>>,
    layers: Seq<Seq<u64>>,
    next: nat,
    region: u64,
    i: u64,
)
    requires
        i < 64,
        can_generate(m, region, i),
        next + generation_cost() <= u64::MAX,
    ensures
        ({
            let f = fetch_word(m, layers, next, region, i);
            &&& f.ok
            &&& f.map == m
            &&& f.layers == layers
            &&& f.word == generated_word(next)
            &&& f.next == next + generation_cost()
        }),
{
}

/// With empty pools, word `i < 16` of a region below `count / 16` comes from
/// the last layer of `count` words: it is that layer's word
/// `count - 1 - (16 region + i)`, so the words are handed out from the end
/// of the layer.
pub proof fn law_parsed_layer_word(layers: Seq<Seq<u64>>, next: nat, region: u64, i: u64)
    requires
        layers.len() > 0,
        i < 16,
        region < (layers.last().len() / 32) / 16,
        next + 32 * (layers.last().len() / 32) + generation_cost() <= u64::MAX,
    ensures
        ({
            let count = layers.last().len() / 32;
            let f = fetch_word(Seq::empty(), layers, next, region, i);
            &&& f.ok
            &&& f.word == fresh((next + 32 * (count - 1 - (16 * region + i))) as nat, 32)
            &&& f.layers == layers.drop_last()
            &&& f.next == next + 32 * count
        }),
{
    let count = layers.last().len() / 32;
    let m0 = Seq::<Seq<Seq<u64>>>::empty();
    let ws = parsed_words(next, count);
    let m1 = inserted_view(m0, ws);
    let k = 16 * region + i;
    assert(16 * region + 16 <= 16 * (count / 16)) by (nonlinear_arith)
        requires
            region < count / 16,
    ;
    assert(16 * (count / 16) <= count) by (nonlinear_arith);
    assert(m1.len() == 16 * (count / 16));
    assert(m1[k as int] =~= seq![ws[count - 1 - k]]);
    assert(has_word(m1, region, i)) by {
        assert(m1.len() / 16 == count / 16);
    }
    assert(!has_word(m0, region, i));
    assert(ws[count - 1 - k] == fresh((next + 32 * (count - 1 - k)) as nat, 32));
    reveal_with_fuel(fetch_word, 2);
}

/// Data shorter than one block is left whole, and the service data is the
/// initial chaining value: the same bytes that `set_service_data(None)`
/// gives the oracle.
pub proof fn law_short_data_keeps_initial_state(data: Seq<u8>, little_endian: bool)
    requires
        data.len() < 64,
    ensures
        prepared_remains(data) == data,
        prepared_service(data, little_endian) == words_be_bytes(initial_vars()),
{
    assert(data.len() / 64 == 0);
    assert(prepared_remains(data) =~= data);
}

proof fn lemma_schedule_word_prefix(d: Seq<u8>, e: Seq<u8>, base: int, little_endian: bool, i: nat)
    requires
        0 <= base,
        base + 64 <= d.len(),
        i < 64,
    ensures
        schedule_word(d + e, base, little_endian, i) == schedule_word(d, base, little_endian, i),
    decreases i,
{
    if i < 16 {
        let at = base + 4 * i;
        assert((d + e)[at] == d[at]);
        assert((d + e)[at + 1] == d[at + 1]);
        assert((d + e)[at + 2] == d[at + 2]);
        assert((d + e)[at + 3] == d[at + 3]);
        assert(block_word(d + e, base, i as int, little_endian) == block_word(d, base, i as int, little_endian));
    } else {
        lemma_schedule_word_prefix(d, e, base, little_endian, (i - 16) as nat);
        lemma_schedule_word_prefix(d, e, base, little_endian, (i - 15) as nat);
        lemma_schedule_word_prefix(d, e, base, little_endian, (i - 7) as nat);
        lemma_schedule_word_prefix(d, e, base, little_endian, (i - 2) as nat);
    }
}

proof fn lemma_state_prefix(d: Seq<u8>, e: Seq<u8>, little_endian: bool, k: nat)
    requires
        64 * k <= d.len(),
    ensures
        state_after_blocks(d + e, little_endian, k) == state_after_blocks(d, little_endian, k),
    decreases k,
{
    if k > 0 {
        lemma_state_prefix(d, e, little_endian, (k - 1) as nat);
        let base = 64 * (k - 1);
        assert forall|i: int| 0 <= i < 64 implies #[trigger] schedule(d + e, base, little_endian)[i] == schedule(
            d,
            base,
            little_endian,
        )[i] by {
            lemma_schedule_word_prefix(d, e, base, little_endian, i as nat);
        }
        assert(schedule(d + e, base, little_endian) =~= schedule(d, base, little_endian));
    }
}

/// The service data depends on the whole blocks only: bytes appended
/// without completing another block leave it as it was and join the
/// remainder.
pub proof fn law_tail_keeps_state(d: Seq<u8>, e: Seq<u8>, little_endian: bool)
    requires
        (d + e).len() / 64 == d.len() / 64,
    ensures
        prepared_service(d + e, little_endian) == prepared_service(d, little_endian),
        prepared_remains(d + e) == prepared_remains(d) + e,
{
    let k = d.len() / 64;
    assert(64 * k <= d.len()) by (nonlinear_arith)
        requires
            k == d.len() / 64,
    ;
    lemma_state_prefix(d, e, little_endian, k);
    assert(prepared_remains(d + e) =~= prepared_remains(d) + e);
}

/// The adder after another: `a` is a result register `fresh(lo, n)` of an
/// earlier adder, `b` lies below `start`, and the qubits from `start` on are
/// clear.
proof fn lemma_next_adder_inputs(lo: nat, n: nat, b: Seq<u64>, start: nat, s: spec_fn(u64) -> bool)
    requires
        lo + n <= start,
        n <= b.len(),
        distinct(b),
        all_below(b, lo),
        start + 4 * n + 4 <= u64::MAX,
        forall|q: u64| start <= q ==> !#[trigger] s(q),
    ensures
        sum_inputs(fresh(lo, n), b, start, s),
{
    let a = fresh(lo, n);
    assert(disjoint(a, b)) by {
        assert forall|i: int, j: int| 0 <= i < a.len() && 0 <= j < b.len() implies a[i] != b[j] by {
            assert(b[j] < lo);
        }
    }
}

/// A generated schedule word is the sum of its four sources: on basis states
/// (with the qubits from `start` on clear) the word register of `wi_gates`
/// holds `((w16 + s0) + w7) + s1` by the adder of `register_sum`, each operand
/// read from its own register.
pub proof fn law_wi_word(w16: Seq<u64>, s0: Seq<u64>, w7: Seq<u64>, s1: Seq<u64>, start: nat, s: spec_fn(u64) -> bool)
    requires
        w16.len() <= s0.len(),
        w16.len() <= w7.len(),
        w16.len() <= s1.len(),
        distinct(w16),
        distinct(s0),
        distinct(w7),
        distinct(s1),
        disjoint(w16, s0),
        all_below(w16, start),
        all_below(s0, start),
        all_below(w7, start),
        all_below(s1, start),
        start + 12 * w16.len() + 12 <= u64::MAX,
        forall|q: u64| start <= q ==> !#[trigger] s(q),
    ensures
        reg_bits(run(wi_gates(w16, s0, w7, s1, start), s), fresh(start + 8 * w16.len() + 8, w16.len())) == add_bits(
            add_bits(add_bits(reg_bits(s, w16), reg_bits(s, s0)), reg_bits(s, w7)),
            reg_bits(s, s1),
        ),
{
    let n = w16.len();
    let st2 = start + 4 * n + 4;
    let st3 = start + 8 * n + 8;
    let g1 = sum_gates(w16, s0, start, n);
    let g2 = sum_gates(fresh(start, n), w7, st2, n);
    let g3 = sum_gates(fresh(st2, n), s1, st3, n);
    law_adder_bits(w16, s0, start, s);
    let t1 = run(g1, s);
    lemma_next_adder_inputs(start, n, w7, st2, t1);
    law_adder_bits(fresh(start, n), w7, st2, t1);
    let t2 = run(g2, t1);
    lemma_reg_bits_same(s, t1, w7);
    lemma_next_adder_inputs(st2, n, s1, st3, t2);
    law_adder_bits(fresh(st2, n), s1, st3, t2);
    let t3 = run(g3, t2);
    assert forall|i: int| 0 <= i < s1.len() implies s(s1[i]) == t2(s1[i]) by {
        assert(s1[i] < start);
    }
    lemma_reg_bits_same(s, t2, s1);
    lemma_run_append(g1, g2, s);
    lemma_run_append(g1 + g2, g3, s);
    assert(wi_gates(w16, s0, w7, s1, start) == g1 + g2 + g3);
}

/// The inputs of `next_vars_gates`: for each `j`, state register `vs[j]` (of
/// `n` qubits) and increment `incs[j]` distinct and apart, all below `start`,
/// and room for the adders.
pub open spec fn next_vars_inputs(vs: Seq<Seq<u64>>, incs: Seq<Seq<u64>>, start: nat, n: nat) -> bool {
    &&& vs.len() <= incs.len()
    &&& forall|j: int|
        0 <= j < vs.len() ==> {
            &&& (#[trigger] vs[j]).len() == n
            &&& n <= incs[j].len()
            &&& distinct(vs[j])
            &&& distinct(incs[j])
            &&& disjoint(vs[j], incs[j])
            &&& all_below(vs[j], start)
            &&& all_below(incs[j], start)
        }
    &&& start + vs.len() * (4 * n + 4) <= u64::MAX
}

/// The next chaining state adds each working variable to its own state
/// word: on basis states (with the qubits from `start` on clear), the result
/// register of adder `j` of `next_vars_gates` holds `vs[j] + incs[j]` by the
/// adder of `register_sum`; no qubit below `start`, nor above the adders,
/// changes.
pub proof fn law_next_vars(vs: Seq<Seq<u64>>, incs: Seq<Seq<u64>>, start: nat, n: nat, s: spec_fn(u64) -> bool)
    requires
        next_vars_inputs(vs, incs, start, n),
        forall|q: u64| start <= q ==> !#[trigger] s(q),
    ensures
        ({
            let t = run(next_vars_gates(vs, incs, start, n), s);
            &&& forall|j: int|
                0 <= j < vs.len() ==> reg_bits(t, fresh((start + j * (4 * n + 4)) as nat, n)) == add_bits(
                    reg_bits(s, #[trigger] vs[j]),
                    reg_bits(s, incs[j]),
                )
            &&& forall|q: u64| q < start ==> #[trigger] t(q) == s(q)
            &&& forall|q: u64| start + vs.len() * (4 * n + 4) <= q ==> #[trigger] t(q) == s(q)
        }),
    decreases vs.len(),
{
    if vs.len() > 0 {
        let m = vs.len() - 1;
        let init = vs.drop_last();
        assert(next_vars_inputs(init, incs, start, n)) by {
            assert forall|j: int| 0 <= j < init.len() implies init[j] == vs[j] by {}
            assert(init.len() * (4 * n + 4) <= vs.len() * (4 * n + 4)) by (nonlinear_arith)
                requires
                    init.len() <= vs.len(),
            ;
        }
        law_next_vars(init, incs, start, n, s);
        let t0 = run(next_vars_gates(init, incs, start, n), s);
        let st = (start + m * (4 * n + 4)) as nat;
        assert(vs.len() * (4 * n + 4) == m * (4 * n + 4) + 4 * n + 4) by (nonlinear_arith)
            requires
                m == vs.len() - 1,
        ;
        let a = vs[m];
        let b = incs[m];
        assert(sum_inputs(a, b, st, t0)) by {
            assert(all_below(a, st) && all_below(b, st)) by {
                assert(m * (4 * n + 4) >= 0) by (nonlinear_arith)
                    requires
                        m >= 0,
                ;
            }
        }
        law_adder_bits(a, b, st, t0);
        let g = sum_gates(a, b, st, n);
        assert(next_vars_gates(vs, incs, start, n) == next_vars_gates(init, incs, start, n) + g);
        lemma_run_append(next_vars_gates(init, incs, start, n), g, s);
        let t = run(g, t0);
        assert forall|i: int| 0 <= i < a.len() implies s(a[i]) == t0(a[i]) by {
            assert(a[i] < start);
        }
        assert forall|i: int| 0 <= i < b.len() implies s(b[i]) == t0(b[i]) by {
            assert(b[i] < start);
        }
        lemma_reg_bits_same(s, t0, a);
        lemma_reg_bits_same(s, t0, b);
        assert forall|j: int| 0 <= j < vs.len() implies reg_bits(t, fresh((start + j * (4 * n + 4)) as nat, n))
            == add_bits(reg_bits(s, #[trigger] vs[j]), reg_bits(s, incs[j])) by {
            if j < m {
                assert(init[j] == vs[j]);
                let r = fresh((start + j * (4 * n + 4)) as nat, n);
                assert(j * (4 * n + 4) + 4 * n + 4 <= m * (4 * n + 4)) by (nonlinear_arith)
                    requires
                        0 <= j < m,
                ;
                assert forall|i: int| 0 <= i < r.len() implies t0(r[i]) == t(r[i]) by {
                    assert(r[i] < st);
                }
                lemma_reg_bits_same(t0, t, r);
            }
        }
    }
}

/// The Sigma sums (`get_Sum0`, `get_Sum1`): on basis states (with the qubits
/// from `start` on clear), the three copies at `start`, `start + n` and
/// `start + 2n` hold the rotations of `a` by `r1`, `r2` and `r3` as
/// `register_rotl` builds them, and the sum register at `start + 4n` holds
/// the xor of the three copies; `a` keeps its value.
pub proof fn law_sigma_sum(a: Seq<u64>, start: nat, r1: int, r2: int, r3: int, s: spec_fn(u64) -> bool)
    requires
        0 < r1 < a.len(),
        0 < r2 < a.len(),
        0 < r3 < a.len(),
        distinct(a),
        all_below(a, start),
        start + 5 * a.len() <= u64::MAX,
        forall|q: u64| start <= q ==> !#[trigger] s(q),
    ensures
        ({
            let n = a.len();
            let t = run(sigma_gates(a, start, r1, r2, r3), s);
            let c1 = fresh(start, n);
            let c2 = fresh(start + n, n);
            let c3 = fresh(start + 2 * n, n);
            let out = fresh(start + 4 * n, n);
            &&& forall|i: int|
                0 <= i < n ==> #[trigger] t(out[i]) == ((t(c1[i]) != t(c2[i])) != t(c3[i]))
            &&& forall|i: int|
                0 <= i < n ==> t(#[trigger] c1[i]) == rotl_bit(s, a, r1, i) && t(c2[i]) == rotl_bit(s, a, r2, i)
                    && t(c3[i]) == rotl_bit(s, a, r3, i)
            &&& forall|i: int| 0 <= i < n ==> #[trigger] t(a[i]) == s(a[i])
        }),
{
    let n = a.len();
    let c1 = fresh(start, n);
    let c2 = fresh(start + n, n);
    let c3 = fresh(start + 2 * n, n);
    let x1 = fresh(start + 3 * n, n);
    let out = fresh(start + 4 * n, n);
    let g1 = rotl_gates(a, c1, r1);
    let g2 = rotl_gates(a, c2, r2);
    let g3 = rotl_gates(a, c3, r3);
    let g4 = xor_gates(c1, c2, x1);
    let g5 = xor_gates(x1, c3, out);
    assert(sigma_gates(a, start, r1, r2, r3) == g1 + g2 + g3 + g4 + g5) by {
        reveal(sigma_gates);
    }
    lemma_run_append(g1, g2, s);
    lemma_run_append(g1 + g2, g3, s);
    lemma_run_append(g1 + g2 + g3, g4, s);
    lemma_run_append(g1 + g2 + g3 + g4, g5, s);
    lemma_fresh_apart(start, n, start + n, n);
    lemma_fresh_apart(start, n, start + 2 * n, n);
    lemma_fresh_apart(start, n, start + 3 * n, n);
    lemma_fresh_apart(start, n, start + 4 * n, n);
    lemma_fresh_apart(start + n, n, start + 2 * n, n);
    lemma_fresh_apart(start + n, n, start + 3 * n, n);
    lemma_fresh_apart(start + 2 * n, n, start + 3 * n, n);
    lemma_fresh_apart(start + 3 * n, n, start + 4 * n, n);
    assert forall|c: Seq<u64>| c == c1 || c == c2 || c == c3 || c == x1 || c == out implies #[trigger] disjoint(a, c)
        by {
        assert forall|i: int, j: int| 0 <= i < a.len() && 0 <= j < c.len() implies a[i] != c[j] by {
            assert(a[i] < start);
        }
    }
    assert(disjoint(a, c1) && disjoint(a, c2) && disjoint(a, c3) && disjoint(a, x1) && disjoint(a, out));
    // the rotations
    law_rotl_copy(a, c1, r1, s);
    let s1 = run(g1, s);
    assert forall|q: u64| !c1.contains(q) implies s1(q) == s(q) by {}
    assert forall|i: int| 0 <= i < n implies !s1(#[trigger] c2[i]) && !s1(c3[i]) && !s1(x1[i]) && !s1(out[i]) && s1(
        a[i],
    ) == s(a[i]) by {
        lemma_fresh_contains(start, n, c2[i]);
        lemma_fresh_contains(start, n, c3[i]);
        lemma_fresh_contains(start, n, x1[i]);
        lemma_fresh_contains(start, n, out[i]);
        lemma_fresh_contains(start, n, a[i]);
    }
    assert forall|k: int| 0 <= k < a.len() implies s1(a[k]) == s(a[k]) by {}
    law_rotl_copy(a, c2, r2, s1);
    let s2 = run(g2, s1);
    assert forall|i: int| 0 <= i < n implies !s2(#[trigger] c3[i]) && !s2(x1[i]) && !s2(out[i]) && s2(a[i]) == s(a[i])
        && s2(c1[i]) == s1(c1[i]) by {
        lemma_fresh_contains(start + n, n, c3[i]);
        lemma_fresh_contains(start + n, n, x1[i]);
        lemma_fresh_contains(start + n, n, out[i]);
        lemma_fresh_contains(start + n, n, a[i]);
        lemma_fresh_contains(start + n, n, c1[i]);
    }
    law_rotl_copy(a, c3, r3, s2);
    let s3 = run(g3, s2);
    assert forall|i: int| 0 <= i < n implies !s3(#[trigger] x1[i]) && !s3(out[i]) && s3(a[i]) == s(a[i]) && s3(c1[i])
        == s1(c1[i]) && s3(c2[i]) == s2(c2[i]) by {
        lemma_fresh_contains(start + 2 * n, n, x1[i]);
        lemma_fresh_contains(start + 2 * n, n, out[i]);
        lemma_fresh_contains(start + 2 * n, n, a[i]);
        lemma_fresh_contains(start + 2 * n, n, c1[i]);
        lemma_fresh_contains(start + 2 * n, n, c2[i]);
    }
    assert forall|i: int| 0 <= i < n implies rotl_bit(s1, a, r2, i) == rotl_bit(s, a, r2, i) && rotl_bit(s2, a, r3, i)
        == rotl_bit(s, a, r3, i) by {
        crate::searcher::laws::lemma_all_on_same(s1, s, a.subrange(r2, n as int));
        crate::searcher::laws::lemma_all_on_same(s1, s, a.subrange(0, r2));
        crate::searcher::laws::lemma_all_on_same(s2, s, a.subrange(r3, n as int));
        crate::searcher::laws::lemma_all_on_same(s2, s, a.subrange(0, r3));
    }
    // the xors
    law_register_xor(c1, c2, x1, s3);
    let s4 = run(g4, s3);
    assert forall|i: int| 0 <= i < n implies !s4(#[trigger] out[i]) && s4(a[i]) == s(a[i]) && s4(c1[i]) == s3(c1[i])
        && s4(c2[i]) == s3(c2[i]) && s4(c3[i]) == s3(c3[i]) by {
        lemma_fresh_contains(start + 3 * n, n, out[i]);
        lemma_fresh_contains(start + 3 * n, n, a[i]);
        lemma_fresh_contains(start + 3 * n, n, c1[i]);
        lemma_fresh_contains(start + 3 * n, n, c2[i]);
        lemma_fresh_contains(start + 3 * n, n, c3[i]);
    }
    law_register_xor(x1, c3, out, s4);
    let t = run(g5, s4);
    assert forall|i: int| 0 <= i < n implies t(#[trigger] a[i]) == s(a[i]) && t(c1[i]) == s4(c1[i]) && t(c2[i]) == s4(
        c2[i],
    ) && t(c3[i]) == s4(c3[i]) && t(x1[i]) == s4(x1[i]) by {
        lemma_fresh_contains(start + 4 * n, n, a[i]);
        lemma_fresh_contains(start + 4 * n, n, c1[i]);
        lemma_fresh_contains(start + 4 * n, n, c2[i]);
        lemma_fresh_contains(start + 4 * n, n, c3[i]);
        lemma_fresh_contains(start + 4 * n, n, x1[i]);
    }
}

/// The value of a schedule mixing circuit on `w`: the xor of the right
/// rotations by `r1` and `r2` and the right shift by `sh`, as
/// `register_rotr` and `register_shiftr` build them.
pub open spec fn mix_bits(s: spec_fn(u64) -> bool, w: Seq<u64>, r1: int, r2: int, sh: int) -> Seq<bool> {
    Seq::new(w.len(), |i: int| (rotr_bit(s, w, r1, i) != rotr_bit(s, w, r2, i)) != shiftr_bit(s, w, sh, i))
}

proof fn lemma_mix_bits_same(s: spec_fn(u64) -> bool, t: spec_fn(u64) -> bool, w: Seq<u64>, r1: int, r2: int, sh: int)
    requires
        0 < r1 < w.len(),
        0 < r2 < w.len(),
        0 <= sh <= w.len(),
        forall|i: int| 0 <= i < w.len() ==> s(w[i]) == t(w[i]),
    ensures
        mix_bits(s, w, r1, r2, sh) == mix_bits(t, w, r1, r2, sh),
{
    let n = w.len() as int;
    lemma_all_on_same(s, t, w.subrange(0, n - r1));
    lemma_all_on_same(s, t, w.subrange(n - r1, n));
    lemma_all_on_same(s, t, w.subrange(0, n - r2));
    lemma_all_on_same(s, t, w.subrange(n - r2, n));
    assert(mix_bits(s, w, r1, r2, sh) =~= mix_bits(t, w, r1, r2, sh));
}

/// A schedule mixing circuit (`get_s0`, `get_s1`): on basis states (with the
/// qubits from `start` on clear) its result register at `start + 4n` holds
/// `mix_bits` of `w`, and no qubit outside `start .. start + 5n` changes.
pub proof fn law_mix_word(w: Seq<u64>, start: nat, r1: int, r2: int, sh: int, s: spec_fn(u64) -> bool)
    requires
        0 < r1 < w.len(),
        0 < r2 < w.len(),
        0 <= sh <= w.len(),
        distinct(w),
        all_below(w, start),
        start + 5 * w.len() <= u64::MAX,
        forall|q: u64| start <= q ==> !#[trigger] s(q),
    ensures
        ({
            let t = run(mix_gates(w, start, r1, r2, sh), s);
            &&& reg_bits(t, fresh(start + 4 * w.len(), w.len())) == mix_bits(s, w, r1, r2, sh)
            &&& forall|q: u64| q < start || start + 5 * w.len() <= q ==> #[trigger] t(q) == s(q)
        }),
{
    let n = w.len();
    let b1 = fresh(start, n);
    let b2 = fresh(start + n, n);
    let b3 = fresh(start + 2 * n, n);
    let x1 = fresh(start + 3 * n, n);
    let x2 = fresh(start + 4 * n, n);
    let g1 = rotr_gates(w, b1, r1);
    let g2 = rotr_gates(w, b2, r2);
    let g3 = copy_gates(w.subrange(0, n - sh), b3.subrange(sh, n as int));
    let g4 = xor_gates(b1, b2, x1);
    let g5 = xor_gates(x1, b3, x2);
    assert(mix_gates(w, start, r1, r2, sh) == g1 + g2 + g3 + g4 + g5);
    lemma_run_append(g1, g2, s);
    lemma_run_append(g1 + g2, g3, s);
    lemma_run_append(g1 + g2 + g3, g4, s);
    lemma_run_append(g1 + g2 + g3 + g4, g5, s);
    lemma_fresh_apart(start, n, start + n, n);
    lemma_fresh_apart(start, n, start + 2 * n, n);
    lemma_fresh_apart(start, n, start + 3 * n, n);
    lemma_fresh_apart(start, n, start + 4 * n, n);
    lemma_fresh_apart(start + n, n, start + 2 * n, n);
    lemma_fresh_apart(start + n, n, start + 3 * n, n);
    lemma_fresh_apart(start + 2 * n, n, start + 3 * n, n);
    lemma_fresh_apart(start + 3 * n, n, start + 4 * n, n);
    assert forall|c: Seq<u64>| c == b1 || c == b2 || c == b3 || c == x1 || c == x2 implies #[trigger] disjoint(w, c)
        by {
        assert forall|i: int, j: int| 0 <= i < w.len() && 0 <= j < c.len() implies w[i] != c[j] by {
            assert(w[i] < start);
        }
    }
    assert(disjoint(w, b1) && disjoint(w, b2) && disjoint(w, b3) && disjoint(w, x1) && disjoint(w, x2));
    law_rotr_copy(w, b1, r1, s);
    let s1 = run(g1, s);
    assert forall|q: u64| q < start || start + n <= q implies #[trigger] s1(q) == s(q) by {
        lemma_fresh_contains(start, n, q);
    }
    law_rotr_copy(w, b2, r2, s1);
    let s2 = run(g2, s1);
    assert forall|q: u64| q < start + n || start + 2 * n <= q implies #[trigger] s2(q) == s1(q) by {
        lemma_fresh_contains(start + n, n, q);
    }
    lemma_all_on_same(s1, s, w.subrange(0, n - r2));
    lemma_all_on_same(s1, s, w.subrange(n - r2, n as int));
    law_shiftr_copy(w, b3, sh, s2);
    let s3 = run(g3, s2);
    assert forall|q: u64| q < start + 2 * n || start + 3 * n <= q implies #[trigger] s3(q) == s2(q) by {
        lemma_fresh_contains(start + 2 * n, n, q);
    }
    law_register_xor(b1, b2, x1, s3);
    let s4 = run(g4, s3);
    assert forall|q: u64| q < start + 3 * n || start + 4 * n <= q implies #[trigger] s4(q) == s3(q) by {
        lemma_fresh_contains(start + 3 * n, n, q);
    }
    law_register_xor(x1, b3, x2, s4);
    let t = run(g5, s4);
    assert forall|q: u64| q < start + 4 * n || start + 5 * n <= q implies #[trigger] t(q) == s4(q) by {
        lemma_fresh_contains(start + 4 * n, n, q);
    }
    assert forall|i: int| 0 <= i < n implies #[trigger] reg_bits(t, x2)[i] == mix_bits(s, w, r1, r2, sh)[i] by {
        assert(w[i] < start);
        if i >= sh {
            assert(w[i - sh] < start);
        }
    }
    assert(reg_bits(t, x2) =~= mix_bits(s, w, r1, r2, sh));
}

/// A generated schedule word (word `i >= 16`, `generated_gates`): on basis
/// states (with the qubits from `start` on clear) its word register holds
/// `((w16 + s0(w15)) + w7) + s1(w2)`, with `s0` the mix by rotations 7, 18
/// and shift 3 and `s1` the mix by rotations 17, 19 and shift 10; the last
/// sum takes the mix of `w2`, the word two places back.
pub proof fn law_generated_word(
    w15: Seq<u64>,
    w2: Seq<u64>,
    w16: Seq<u64>,
    w7: Seq<u64>,
    start: nat,
    s: spec_fn(u64) -> bool,
)
    requires
        w15.len() == 32,
        w2.len() == 32,
        w16.len() == 32,
        w7.len() == 32,
        distinct(w15),
        distinct(w2),
        distinct(w16),
        distinct(w7),
        all_below(w15, start),
        all_below(w2, start),
        all_below(w16, start),
        all_below(w7, start),
        start + 320 + 12 * 32 + 12 <= u64::MAX,
        forall|q: u64| start <= q ==> !#[trigger] s(q),
    ensures
        reg_bits(run(generated_gates(w15, w2, w16, w7, start), s), fresh(start + 320 + 8 * 32 + 8, 32)) == add_bits(
            add_bits(add_bits(reg_bits(s, w16), mix_bits(s, w15, 7, 18, 3)), reg_bits(s, w7)),
            mix_bits(s, w2, 17, 19, 10),
        ),
{
    let m1 = mix_gates(w15, start, 7, 18, 3);
    let m2 = mix_gates(w2, start + 160, 17, 19, 10);
    let s0 = fresh(start + 128, 32);
    let s1 = fresh(start + 288, 32);
    let wi = wi_gates(w16, s0, w7, s1, start + 320);
    assert(generated_gates(w15, w2, w16, w7, start) == m1 + m2 + wi);
    lemma_run_append(m1, m2, s);
    lemma_run_append(m1 + m2, wi, s);
    law_mix_word(w15, start, 7, 18, 3, s);
    let t1 = run(m1, s);
    assert forall|i: int| 0 <= i < w2.len() implies s(w2[i]) == t1(w2[i]) by {
        assert(w2[i] < start);
    }
    assert forall|i: int| 0 <= i < 32 implies w2[i] < start + 160 by {}
    law_mix_word(w2, start + 160, 17, 19, 10, t1);
    let t2 = run(m2, t1);
    lemma_mix_bits_same(s, t1, w2, 17, 19, 10);
    assert forall|i: int| 0 <= i < s0.len() implies t1(s0[i]) == t2(s0[i]) by {}
    lemma_reg_bits_same(t1, t2, s0);
    assert forall|i: int| 0 <= i < 32 implies s(w16[i]) == t2(w16[i]) && s(w7[i]) == t2(w7[i]) by {
        assert(w16[i] < start);
        assert(w7[i] < start);
    }
    lemma_reg_bits_same(s, t2, w16);
    lemma_reg_bits_same(s, t2, w7);
    lemma_fresh_apart(start + 128, 32, start + 288, 32);
    law_wi_word(w16, s0, w7, s1, start + 320, t2);
}

} // verus!
