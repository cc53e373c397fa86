use vstd::prelude::*;
use crate::searcher::circuit::{
    all_below, all_on, controlled_gates, disjoint, distinct, fan_gates, lemma_run_append,
    lemma_run_controlled, lemma_run_not_gates, lemma_run_swaps, not_gates, run, swap_gates, targets_apart, GateSpec,
};
use crate::searcher::circuit::{concat_registers, fresh};
use crate::searcher::searcher::diffuse_gates;
use crate::searcher::utils::{
    byte_init_views, mirror_gates, copy_gates, rotl_gates, rotr_gates, eq_gates, more_eq_gates, or_gates, pair_gates, qubit_or_gates, qubit_xor_gates, rotr_inplace_gates, sum_gates,
    sum_step_gates, xor_gates,
};

verus! {

// ---------------------------------------------------------------------------
// Helpers
// ---------------------------------------------------------------------------

pub open spec fn pair_controls(a: Seq<u64>, b: Seq<u64>, n: nat) -> Seq<Seq<u64>> {
    Seq::new(n, |i: int| seq![a[i], b[i]])
}

pub open spec fn single_controls(a: Seq<u64>) -> Seq<Seq<u64>> {
    Seq::new(a.len(), |i: int| seq![a[i]])
}

proof fn lemma_all_on_pair(s: spec_fn(u64) -> bool, x: u64, y: u64)
    ensures
        all_on(s, seq![x, y]) == (s(x) && s(y)),
{
    let p = seq![x, y];
    if s(x) && s(y) {
        assert forall|k: int| 0 <= k < p.len() implies #[trigger] s(p[k]) by {
            if k == 0 {
                assert(p[k] == x);
            } else {
                assert(p[k] == y);
            }
        }
    }
    if all_on(s, p) {
        assert(s(p[0]));
        assert(s(p[1]));
    }
}

proof fn lemma_all_on_single(s: spec_fn(u64) -> bool, x: u64)
    ensures
        all_on(s, seq![x]) == s(x),
{
    let p = seq![x];
    if s(x) {
        assert forall|k: int| 0 <= k < p.len() implies #[trigger] s(p[k]) by {
            assert(p[k] == x);
        }
    }
    if all_on(s, p) {
        assert(s(p[0]));
    }
}

proof fn lemma_index_of_distinct(qs: Seq<u64>, i: int)
    requires
        distinct(qs),
        0 <= i < qs.len(),
    ensures
        qs.contains(qs[i]),
        qs.index_of(qs[i]) == i,
{
    assert(qs.contains(qs[i]));
}

/// The pair gates on `r` with the first `n` bits of `a` and `b`: each `r[i]`
/// is flipped by `a[i] & b[i]` as they stand before the gates, the rest stays.
proof fn lemma_run_pair(a: Seq<u64>, b: Seq<u64>, r: Seq<u64>, s: spec_fn(u64) -> bool, q: u64)
    requires
        r.len() <= a.len(),
        r.len() <= b.len(),
        distinct(r),
        disjoint(a, r),
        disjoint(b, r),
    ensures
        r.contains(q) ==> run(pair_gates(a, b, r, r.len()), s)(q) == (s(q) != (s(a[r.index_of(q)]) && s(
            b[r.index_of(q)],
        ))),
        !r.contains(q) ==> run(pair_gates(a, b, r, r.len()), s)(q) == s(q),
{
    let ctrls = pair_controls(a, b, r.len());
    assert(pair_gates(a, b, r, r.len()) =~= controlled_gates(ctrls, r));
    assert forall|i: int, j: int| 0 <= i < ctrls.len() && 0 <= j < r.len() implies !#[trigger] ctrls[i].contains(
        #[trigger] r[j],
    ) by {
        if ctrls[i].contains(r[j]) {
            let k = choose|k: int| 0 <= k < ctrls[i].len() && ctrls[i][k] == r[j];
            if k == 0 {
                assert(a[i] == r[j]);
            } else {
                assert(b[i] == r[j]);
            }
        }
    }
    assert(targets_apart(ctrls, r));
    lemma_run_controlled(ctrls, r, s, q);
    if r.contains(q) {
        let i = r.index_of(q);
        lemma_all_on_pair(s, a[i], b[i]);
    }
}

/// Copy gates from `src` onto `dst`: each `dst[k]` is flipped by `src[k]`.
proof fn lemma_run_copy(src: Seq<u64>, dst: Seq<u64>, s: spec_fn(u64) -> bool, q: u64)
    requires
        src.len() == dst.len(),
        distinct(dst),
        disjoint(src, dst),
    ensures
        dst.contains(q) ==> run(copy_gates(src, dst), s)(q) == (s(q) != s(src[dst.index_of(q)])),
        !dst.contains(q) ==> run(copy_gates(src, dst), s)(q) == s(q),
{
    let ctrls = single_controls(src);
    assert(copy_gates(src, dst) =~= controlled_gates(ctrls, dst));
    assert forall|i: int, j: int| 0 <= i < ctrls.len() && 0 <= j < dst.len() implies !#[trigger] ctrls[i].contains(
        #[trigger] dst[j],
    ) by {
        if ctrls[i].contains(dst[j]) {
            assert(ctrls[i][0] == dst[j]);
        }
    }
    lemma_run_controlled(ctrls, dst, s, q);
    if dst.contains(q) {
        lemma_all_on_single(s, src[dst.index_of(q)]);
    }
}

// ---------------------------------------------------------------------------
// Laws: what the register operations compute on classical basis states
// ---------------------------------------------------------------------------

/// `register_and`: bit `i` of the result is flipped by `a[i] & b[i]`; every
/// other qubit keeps its value. On a fresh (zero) result it holds the and.
pub proof fn law_register_and(a: Seq<u64>, b: Seq<u64>, r: Seq<u64>, s: spec_fn(u64) -> bool)
    requires
        r.len() == a.len(),
        a.len() <= b.len(),
        distinct(r),
        disjoint(a, r),
        disjoint(b, r),
    ensures
        forall|i: int| 0 <= i < r.len() ==> #[trigger] run(pair_gates(a, b, r, a.len()), s)(r[i]) == (s(r[i]) != (
        s(a[i]) && s(b[i]))),
        forall|q: u64| !r.contains(q) ==> #[trigger] run(pair_gates(a, b, r, a.len()), s)(q) == s(q),
{
    assert forall|i: int| 0 <= i < r.len() implies #[trigger] run(pair_gates(a, b, r, a.len()), s)(r[i]) == (s(r[i])
        != (s(a[i]) && s(b[i]))) by {
        lemma_index_of_distinct(r, i);
        lemma_run_pair(a, b, r, s, r[i]);
    }
    assert forall|q: u64| !r.contains(q) implies #[trigger] run(pair_gates(a, b, r, a.len()), s)(q) == s(q) by {
        lemma_run_pair(a, b, r, s, q);
    }
}

/// `register_xor`: bit `i` of the result is flipped by `a[i] ^ b[i]`; every
/// other qubit (the inputs included) ends as it started.
pub proof fn law_register_xor(a: Seq<u64>, b: Seq<u64>, r: Seq<u64>, s: spec_fn(u64) -> bool)
    requires
        r.len() == a.len(),
        a.len() <= b.len(),
        distinct(a),
        distinct(b),
        distinct(r),
        disjoint(a, b),
        disjoint(a, r),
        disjoint(b, r),
    ensures
        forall|i: int| 0 <= i < r.len() ==> #[trigger] run(xor_gates(a, b, r), s)(r[i]) == (s(r[i]) != (s(a[i])
            != s(b[i]))),
        forall|q: u64| !r.contains(q) ==> #[trigger] run(xor_gates(a, b, r), s)(q) == s(q),
{
    let na = not_gates(a);
    let nb = not_gates(b);
    let p = pair_gates(a, b, r, a.len());
    let s1 = run(na, s);
    let s2 = run(p, s1);
    let s3 = run(na, s2);
    let s4 = run(nb, s3);
    let s5 = run(p, s4);
    let s6 = run(nb, s5);
    assert(xor_gates(a, b, r) == na + p + na + nb + p + nb);
    lemma_run_append(na, p, s);
    lemma_run_append(na + p, na, s);
    lemma_run_append(na + p + na, nb, s);
    lemma_run_append(na + p + na + nb, p, s);
    lemma_run_append(na + p + na + nb + p, nb, s);
    assert(run(xor_gates(a, b, r), s) == s6);
    assert forall|q: u64| #[trigger] run(xor_gates(a, b, r), s)(q) == (if r.contains(q) {
        s(q) != (s(a[r.index_of(q)]) != s(b[r.index_of(q)]))
    } else {
        s(q)
    }) by {
        lemma_run_not_gates(b, s5, q);
        lemma_run_pair(a, b, r, s4, q);
        lemma_run_not_gates(b, s3, q);
        lemma_run_not_gates(a, s2, q);
        lemma_run_pair(a, b, r, s1, q);
        lemma_run_not_gates(a, s, q);
        if r.contains(q) {
            let i = r.index_of(q);
            assert(r[i] == q);
            let x = a[i];
            let y = b[i];
            assert(!r.contains(x) && !r.contains(y)) by {
                if r.contains(x) {
                    let j = choose|j: int| 0 <= j < r.len() && r[j] == x;
                    assert(a[i] == r[j]);
                }
                if r.contains(y) {
                    let j = choose|j: int| 0 <= j < r.len() && r[j] == y;
                    assert(b[i] == r[j]);
                }
            }
            assert(a.contains(x) && !b.contains(x)) by {
                if b.contains(x) {
                    let j = choose|j: int| 0 <= j < b.len() && b[j] == x;
                    assert(a[i] == b[j]);
                }
            }
            assert(b.contains(y) && !a.contains(y)) by {
                if a.contains(y) {
                    let j = choose|j: int| 0 <= j < a.len() && a[j] == y;
                    assert(a[j] == b[i]);
                }
            }
            lemma_run_not_gates(a, s, x);
            lemma_run_not_gates(a, s, y);
            lemma_run_pair(a, b, r, s1, x);
            lemma_run_pair(a, b, r, s1, y);
            lemma_run_not_gates(a, s2, x);
            lemma_run_not_gates(a, s2, y);
            lemma_run_not_gates(b, s3, x);
            lemma_run_not_gates(b, s3, y);
            assert(!a.contains(q) && !b.contains(q)) by {
                if a.contains(q) {
                    let j = choose|j: int| 0 <= j < a.len() && a[j] == q;
                    assert(a[j] == r[i]);
                }
                if b.contains(q) {
                    let j = choose|j: int| 0 <= j < b.len() && b[j] == q;
                    assert(b[j] == r[i]);
                }
            }
        }
    }
    assert forall|i: int| 0 <= i < r.len() implies #[trigger] run(xor_gates(a, b, r), s)(r[i]) == (s(r[i]) != (s(a[i])
        != s(b[i]))) by {
        lemma_index_of_distinct(r, i);
        assert(run(xor_gates(a, b, r), s)(r[i]) == (if r.contains(r[i]) {
            s(r[i]) != (s(a[r.index_of(r[i])]) != s(b[r.index_of(r[i])]))
        } else {
            s(r[i])
        }));
    }
}


/// A fan of controlled nots: every target is flipped when all of `cs` are set.
proof fn lemma_run_fan(cs: Seq<u64>, ts: Seq<u64>, s: spec_fn(u64) -> bool, q: u64)
    requires
        distinct(ts),
        disjoint(cs, ts),
    ensures
        ts.contains(q) ==> run(fan_gates(cs, ts), s)(q) == (s(q) != all_on(s, cs)),
        !ts.contains(q) ==> run(fan_gates(cs, ts), s)(q) == s(q),
{
    let ctrls = Seq::new(ts.len(), |i: int| cs);
    assert(fan_gates(cs, ts) =~= controlled_gates(ctrls, ts));
    assert forall|i: int, j: int| 0 <= i < ctrls.len() && 0 <= j < ts.len() implies !#[trigger] ctrls[i].contains(
        #[trigger] ts[j],
    ) by {
        if cs.contains(ts[j]) {
            let k = choose|k: int| 0 <= k < cs.len() && cs[k] == ts[j];
        }
    }
    lemma_run_controlled(ctrls, ts, s, q);
}

/// `register_or`: bit `i` of the result (which starts set) is flipped by
/// `!a[i] & !b[i]`, so on a fresh result it holds `a[i] | b[i]`; every other
/// qubit ends as it started.
pub proof fn law_register_or(a: Seq<u64>, b: Seq<u64>, r: Seq<u64>, s: spec_fn(u64) -> bool)
    requires
        r.len() == a.len(),
        a.len() <= b.len(),
        distinct(a),
        distinct(b),
        distinct(r),
        disjoint(a, b),
        disjoint(a, r),
        disjoint(b, r),
    ensures
        forall|i: int| 0 <= i < r.len() ==> #[trigger] run(or_gates(a, b, r), s)(r[i]) == (s(r[i]) != (s(a[i])
            || s(b[i]))),
        forall|q: u64| !r.contains(q) ==> #[trigger] run(or_gates(a, b, r), s)(q) == s(q),
{
    let nr = not_gates(r);
    let na = not_gates(a);
    let nb = not_gates(b);
    let p = pair_gates(a, b, r, a.len());
    let s1 = run(nr, s);
    let s2 = run(na, s1);
    let s3 = run(nb, s2);
    let s4 = run(p, s3);
    let s5 = run(na, s4);
    let s6 = run(nb, s5);
    lemma_run_append(nr, na, s);
    lemma_run_append(nr + na, nb, s);
    lemma_run_append(nr + na + nb, p, s);
    lemma_run_append(nr + na + nb + p, na, s);
    lemma_run_append(nr + na + nb + p + na, nb, s);
    assert(run(or_gates(a, b, r), s) == s6);
    assert forall|q: u64| #[trigger] run(or_gates(a, b, r), s)(q) == (if r.contains(q) {
        s(q) != (s(a[r.index_of(q)]) || s(b[r.index_of(q)]))
    } else {
        s(q)
    }) by {
        lemma_run_not_gates(b, s5, q);
        lemma_run_not_gates(a, s4, q);
        lemma_run_pair(a, b, r, s3, q);
        lemma_run_not_gates(b, s2, q);
        lemma_run_not_gates(a, s1, q);
        lemma_run_not_gates(r, s, q);
        if r.contains(q) {
            let i = r.index_of(q);
            let x = a[i];
            let y = b[i];
            lemma_apart(a, b, r, i);
            lemma_run_not_gates(r, s, x);
            lemma_run_not_gates(r, s, y);
            lemma_run_not_gates(a, s1, x);
            lemma_run_not_gates(a, s1, y);
            lemma_run_not_gates(b, s2, x);
            lemma_run_not_gates(b, s2, y);
            assert(!a.contains(q) && !b.contains(q)) by {
                lemma_not_in(a, r, q);
                lemma_not_in(b, r, q);
            }
        } else {
            if a.contains(q) {
                lemma_not_in(r, a, q);
            }
            if b.contains(q) {
                lemma_not_in(r, b, q);
            }
        }
    }
    assert forall|i: int| 0 <= i < r.len() implies #[trigger] run(or_gates(a, b, r), s)(r[i]) == (s(r[i]) != (s(a[i])
        || s(b[i]))) by {
        lemma_index_of_distinct(r, i);
    }
}

/// A qubit of `b` is not in `a` when the two are disjoint.
proof fn lemma_not_in(a: Seq<u64>, b: Seq<u64>, q: u64)
    requires
        disjoint(a, b) || disjoint(b, a),
        b.contains(q),
    ensures
        !a.contains(q),
{
    if a.contains(q) {
        let i = choose|i: int| 0 <= i < a.len() && a[i] == q;
        let j = choose|j: int| 0 <= j < b.len() && b[j] == q;
        if disjoint(a, b) {
            assert(a[i] != b[j]);
        } else {
            assert(b[j] != a[i]);
        }
    }
}

/// Bit `i` of the inputs lies in its own input only.
proof fn lemma_apart(a: Seq<u64>, b: Seq<u64>, r: Seq<u64>, i: int)
    requires
        0 <= i < r.len(),
        r.len() <= a.len(),
        r.len() <= b.len(),
        disjoint(a, b),
        disjoint(a, r),
        disjoint(b, r),
    ensures
        a.contains(a[i]),
        b.contains(b[i]),
        !r.contains(a[i]),
        !r.contains(b[i]),
        !b.contains(a[i]),
        !a.contains(b[i]),
{
    assert(a.contains(a[i]));
    assert(b.contains(b[i]));
    lemma_not_in(r, a, a[i]);
    lemma_not_in(r, b, b[i]);
    lemma_not_in(b, a, a[i]);
    lemma_not_in(a, b, b[i]);
}

/// `register_not`: bit `i` of the result (which starts set) is flipped by
/// `a[i]`, so on a fresh result it holds `!a[i]`; every other qubit keeps its
/// value.
pub proof fn law_register_not(a: Seq<u64>, r: Seq<u64>, s: spec_fn(u64) -> bool)
    requires
        r.len() == a.len(),
        distinct(r),
        disjoint(a, r),
    ensures
        forall|i: int| 0 <= i < r.len() ==> #[trigger] run(not_gates(r) + copy_gates(a, r), s)(r[i]) == (s(r[i])
            == s(a[i])),
        forall|q: u64| !r.contains(q) ==> #[trigger] run(not_gates(r) + copy_gates(a, r), s)(q) == s(q),
{
    let s1 = run(not_gates(r), s);
    lemma_run_append(not_gates(r), copy_gates(a, r), s);
    assert forall|q: u64| #[trigger] run(not_gates(r) + copy_gates(a, r), s)(q) == (if r.contains(q) {
        s(q) == s(a[r.index_of(q)])
    } else {
        s(q)
    }) by {
        lemma_run_copy(a, r, s1, q);
        lemma_run_not_gates(r, s, q);
        if r.contains(q) {
            let x = a[r.index_of(q)];
            assert(a.contains(x));
            lemma_not_in(r, a, x);
            lemma_run_not_gates(r, s, x);
        }
    }
    assert forall|i: int| 0 <= i < r.len() implies #[trigger] run(not_gates(r) + copy_gates(a, r), s)(r[i]) == (s(
        r[i],
    ) == s(a[i])) by {
        lemma_index_of_distinct(r, i);
    }
}

/// `register_entangled_copy` and the shifts: each target bit is flipped by
/// its source bit; every other qubit keeps its value.
pub proof fn law_copy(src: Seq<u64>, dst: Seq<u64>, s: spec_fn(u64) -> bool)
    requires
        src.len() == dst.len(),
        distinct(dst),
        disjoint(src, dst),
    ensures
        forall|k: int| 0 <= k < dst.len() ==> #[trigger] run(copy_gates(src, dst), s)(dst[k]) == (s(dst[k]) != s(
            src[k],
        )),
        forall|q: u64| !dst.contains(q) ==> #[trigger] run(copy_gates(src, dst), s)(q) == s(q),
{
    assert forall|k: int| 0 <= k < dst.len() implies #[trigger] run(copy_gates(src, dst), s)(dst[k]) == (s(dst[k])
        != s(src[k])) by {
        lemma_index_of_distinct(dst, k);
        lemma_run_copy(src, dst, s, dst[k]);
    }
    assert forall|q: u64| !dst.contains(q) implies #[trigger] run(copy_gates(src, dst), s)(q) == s(q) by {
        lemma_run_copy(src, dst, s, q);
    }
}

/// A fan of controlled nots (`cnot` on whole registers, as `register_rotr`
/// and `register_rotl` apply it): every target is flipped when all controls
/// are set; every other qubit keeps its value.
pub proof fn law_fan(cs: Seq<u64>, ts: Seq<u64>, s: spec_fn(u64) -> bool)
    requires
        distinct(ts),
        disjoint(cs, ts),
    ensures
        forall|k: int| 0 <= k < ts.len() ==> #[trigger] run(fan_gates(cs, ts), s)(ts[k]) == (s(ts[k]) != all_on(s, cs)),
        forall|q: u64| !ts.contains(q) ==> #[trigger] run(fan_gates(cs, ts), s)(q) == s(q),
{
    assert forall|k: int| 0 <= k < ts.len() implies #[trigger] run(fan_gates(cs, ts), s)(ts[k]) == (s(ts[k]) != all_on(
        s,
        cs,
    )) by {
        assert(ts.contains(ts[k]));
        lemma_run_fan(cs, ts, s, ts[k]);
    }
    assert forall|q: u64| !ts.contains(q) implies #[trigger] run(fan_gates(cs, ts), s)(q) == s(q) by {
        lemma_run_fan(cs, ts, s, q);
    }
}


/// Every qubit of `r` is clear in `s`.
pub open spec fn all_clear(s: spec_fn(u64) -> bool, r: Seq<u64>) -> bool {
    forall|i: int| 0 <= i < r.len() ==> !#[trigger] s(r[i])
}

/// The inputs of a comparison: `r` is as long as `a`, `b` at least as long,
/// all three distinct and pairwise disjoint, and the flag `f` outside them.
pub open spec fn compare_inputs(a: Seq<u64>, b: Seq<u64>, r: Seq<u64>, f: u64) -> bool {
    &&& r.len() == a.len()
    &&& a.len() <= b.len()
    &&& distinct(a)
    &&& distinct(b)
    &&& distinct(r)
    &&& disjoint(a, b)
    &&& disjoint(a, r)
    &&& disjoint(b, r)
    &&& !a.contains(f)
    &&& !b.contains(f)
    &&& !r.contains(f)
}

proof fn lemma_fan_flag(r: Seq<u64>, f: u64, u: spec_fn(u64) -> bool, q: u64)
    requires
        distinct(r),
        !r.contains(f),
    ensures
        q == f ==> run(fan_gates(r, seq![f]), u)(q) == (u(f) != all_on(u, r)),
        q != f ==> run(fan_gates(r, seq![f]), u)(q) == u(q),
{
    let t = seq![f];
    assert(distinct(t));
    assert(disjoint(r, t)) by {
        assert forall|i: int, j: int| 0 <= i < r.len() && 0 <= j < t.len() implies r[i] != t[j] by {
            if r[i] == f {
                assert(r.contains(f));
            }
        }
    }
    assert(t.contains(q) == (q == f)) by {
        if q == f {
            assert(t[0] == q);
        }
    }
    lemma_run_fan(r, t, u, q);
}

/// `register_eq`: on a fresh (clear) result register the flag is flipped
/// exactly when `a` and `b` agree on their first `a.len()` bits, and both
/// inputs end as they started.
pub proof fn law_register_eq(a: Seq<u64>, b: Seq<u64>, r: Seq<u64>, f: u64, s: spec_fn(u64) -> bool)
    requires
        compare_inputs(a, b, r, f),
        all_clear(s, r),
    ensures
        run(eq_gates(a, b, r, f), s)(f) == (s(f) != (forall|i: int| 0 <= i < a.len() ==> #[trigger] s(a[i]) == s(
            b[i],
        ))),
        forall|q: u64| a.contains(q) || b.contains(q) ==> #[trigger] run(eq_gates(a, b, r, f), s)(q) == s(q),
{
    let x = xor_gates(a, b, r);
    let nr = not_gates(r);
    let fan = fan_gates(r, seq![f]);
    let t = run(x, s);
    let u = run(nr, t);
    lemma_run_append(x, nr, s);
    lemma_run_append(x + nr, fan, s);
    assert(eq_gates(a, b, r, f) == x + nr + fan);
    law_register_xor(a, b, r, s);
    assert forall|k: int| 0 <= k < r.len() implies #[trigger] u(r[k]) == (s(a[k]) == s(b[k])) by {
        lemma_run_not_gates(r, t, r[k]);
        assert(r.contains(r[k]));
    }
    lemma_fan_flag(r, f, u, f);
    lemma_run_not_gates(r, t, f);
    assert(all_on(u, r) == (forall|i: int| 0 <= i < a.len() ==> #[trigger] s(a[i]) == s(b[i]))) by {
        if all_on(u, r) {
            assert forall|i: int| 0 <= i < a.len() implies #[trigger] s(a[i]) == s(b[i]) by {
                assert(u(r[i]));
            }
        }
        if forall|i: int| 0 <= i < a.len() ==> #[trigger] s(a[i]) == s(b[i]) {
            assert forall|k: int| 0 <= k < r.len() implies #[trigger] u(r[k]) by {
                assert(s(a[k]) == s(b[k]));
            }
        }
    }
    assert forall|q: u64| a.contains(q) || b.contains(q) implies #[trigger] run(eq_gates(a, b, r, f), s)(q) == s(q) by {
        if a.contains(q) {
            lemma_not_in(r, a, q);
        } else {
            lemma_not_in(r, b, q);
        }
        lemma_fan_flag(r, f, u, q);
        lemma_run_not_gates(r, t, q);
    }
}

/// `register_more_eq`: on a fresh (clear) result register the flag is flipped
/// exactly when every one of the first `a.len()` bits of `a` that is set is
/// also set in `b`, and both inputs end as they started.
pub proof fn law_register_more_eq(a: Seq<u64>, b: Seq<u64>, r: Seq<u64>, f: u64, s: spec_fn(u64) -> bool)
    requires
        compare_inputs(a, b, r, f),
        all_clear(s, r),
    ensures
        run(more_eq_gates(a, b, r, f), s)(f) == (s(f) != (forall|i: int| 0 <= i < a.len() ==> #[trigger] s(a[i])
            ==> s(b[i]))),
        forall|q: u64| a.contains(q) || b.contains(q) ==> #[trigger] run(more_eq_gates(a, b, r, f), s)(q) == s(q),
{
    let p = pair_gates(a, b, r, a.len());
    let na = not_gates(a);
    let nb = not_gates(b);
    let fan = fan_gates(r, seq![f]);
    let s1 = run(p, s);
    let s2 = run(na, s1);
    let s3 = run(p, s2);
    let s4 = run(nb, s3);
    let s5 = run(p, s4);
    let s6 = run(na, s5);
    let s7 = run(nb, s6);
    lemma_run_append(p, na, s);
    lemma_run_append(p + na, p, s);
    lemma_run_append(p + na + p, nb, s);
    lemma_run_append(p + na + p + nb, p, s);
    lemma_run_append(p + na + p + nb + p, na, s);
    lemma_run_append(p + na + p + nb + p + na, nb, s);
    lemma_run_append(p + na + p + nb + p + na + nb, fan, s);
    assert(more_eq_gates(a, b, r, f) == p + na + p + nb + p + na + nb + fan);
    assert forall|q: u64| #[trigger] s7(q) == (if r.contains(q) {
        s(q) != (!s(a[r.index_of(q)]) || s(b[r.index_of(q)]))
    } else {
        s(q)
    }) by {
        lemma_run_not_gates(b, s6, q);
        lemma_run_not_gates(a, s5, q);
        lemma_run_pair(a, b, r, s4, q);
        lemma_run_not_gates(b, s3, q);
        lemma_run_pair(a, b, r, s2, q);
        lemma_run_not_gates(a, s1, q);
        lemma_run_pair(a, b, r, s, q);
        if r.contains(q) {
            let i = r.index_of(q);
            let x = a[i];
            let y = b[i];
            lemma_apart(a, b, r, i);
            lemma_run_pair(a, b, r, s, x);
            lemma_run_pair(a, b, r, s, y);
            lemma_run_not_gates(a, s1, x);
            lemma_run_not_gates(a, s1, y);
            lemma_run_pair(a, b, r, s2, x);
            lemma_run_pair(a, b, r, s2, y);
            lemma_run_not_gates(b, s3, x);
            lemma_run_not_gates(b, s3, y);
            assert(!a.contains(q) && !b.contains(q)) by {
                lemma_not_in(a, r, q);
                lemma_not_in(b, r, q);
            }
        } else {
            if a.contains(q) {
                lemma_not_in(r, a, q);
            }
            if b.contains(q) {
                lemma_not_in(r, b, q);
            }
        }
    }
    assert forall|k: int| 0 <= k < r.len() implies #[trigger] s7(r[k]) == (s(a[k]) ==> s(b[k])) by {
        lemma_index_of_distinct(r, k);
    }
    lemma_fan_flag(r, f, s7, f);
    assert(s7(f) == s(f));
    assert(all_on(s7, r) == (forall|i: int| 0 <= i < a.len() ==> #[trigger] s(a[i]) ==> s(b[i]))) by {
        if all_on(s7, r) {
            assert forall|i: int| 0 <= i < a.len() && #[trigger] s(a[i]) implies s(b[i]) by {
                assert(s7(r[i]));
            }
        }
        if forall|i: int| 0 <= i < a.len() ==> #[trigger] s(a[i]) ==> s(b[i]) {
            assert forall|k: int| 0 <= k < r.len() implies #[trigger] s7(r[k]) by {
                assert(s(a[k]) ==> s(b[k]));
            }
        }
    }
    assert forall|q: u64| a.contains(q) || b.contains(q) implies #[trigger] run(more_eq_gates(a, b, r, f), s)(q) == s(q) by {
        if a.contains(q) {
            lemma_not_in(r, a, q);
        } else {
            lemma_not_in(r, b, q);
        }
        lemma_fan_flag(r, f, s7, q);
    }
}


/// One adder step on single qubits `x, y, r, p, k1, k2, k3` (pairwise
/// distinct, the three ancillas clear): `r` is flipped by `x ^ y ^ p`, the
/// carry `p` becomes `p == (((x ^ y) & p) | (x & y))`, and every qubit other
/// than `r`, `p` and the ancillas keeps its value.
pub proof fn law_sum_step(x: u64, y: u64, r: u64, p: u64, k1: u64, k2: u64, k3: u64, s: spec_fn(u64) -> bool)
    requires
        distinct(seq![x, y, r, p, k1, k2, k3]),
        !s(k1),
        !s(k2),
        !s(k3),
    ensures
        ({
            let t = run(sum_step_gates(seq![x], seq![y], seq![r], seq![p], seq![k1], seq![k2], seq![k3]), s);
            let sx = s(x);
            let sy = s(y);
            let sp = s(p);
            &&& t(r) == (s(r) != ((sx != sy) != sp))
            &&& t(p) == (sp == (((sx != sy) && sp) || (sx && sy)))
            &&& forall|q: u64| q != r && q != p && q != k1 && q != k2 && q != k3 ==> #[trigger] t(q) == s(q)
        }),
{
    let d = seq![x, y, r, p, k1, k2, k3];
    assert(x != y && x != r && x != p && x != k1 && x != k2 && x != k3) by {
        assert(d[0] != d[1] && d[0] != d[2] && d[0] != d[3] && d[0] != d[4] && d[0] != d[5] && d[0] != d[6]);
    }
    assert(y != r && y != p && y != k1 && y != k2 && y != k3) by {
        assert(d[1] != d[2] && d[1] != d[3] && d[1] != d[4] && d[1] != d[5] && d[1] != d[6]);
    }
    assert(r != p && r != k1 && r != k2 && r != k3) by {
        assert(d[2] != d[3] && d[2] != d[4] && d[2] != d[5] && d[2] != d[6]);
    }
    assert(p != k1 && p != k2 && p != k3) by {
        assert(d[3] != d[4] && d[3] != d[5] && d[3] != d[6]);
    }
    assert(k1 != k2 && k1 != k3 && k2 != k3) by {
        assert(d[4] != d[5] && d[4] != d[6] && d[5] != d[6]);
    }
    let g1 = qubit_xor_gates(seq![x], seq![y], seq![k3]);
    let g2 = qubit_xor_gates(seq![k3], seq![p], seq![r]);
    let g3 = fan_gates(seq![k3] + seq![p], seq![k2]);
    let g4 = fan_gates(seq![x] + seq![y], seq![k1]);
    let g5 = qubit_or_gates(seq![k2], seq![k1], seq![p]);
    assert(sum_step_gates(seq![x], seq![y], seq![r], seq![p], seq![k1], seq![k2], seq![k3]) == g1 + g2 + g3 + g4
        + g5);
    lemma_run_append(g1, g2, s);
    lemma_run_append(g1 + g2, g3, s);
    lemma_run_append(g1 + g2 + g3, g4, s);
    lemma_run_append(g1 + g2 + g3 + g4, g5, s);
    let s1 = run(g1, s);
    let s2 = run(g2, s1);
    let s3 = run(g3, s2);
    let s4 = run(g4, s3);
    let s5 = run(g5, s4);
    law_qubit_xor(x, y, k3, s);
    law_qubit_xor(k3, p, r, s1);
    law_qubit_and(k3, p, k2, s2);
    law_qubit_and(x, y, k1, s3);
    law_qubit_nor(k2, k1, p, s4);
}

proof fn lemma_distinct3(x: u64, y: u64, z: u64)
    requires
        x != y,
        x != z,
        y != z,
    ensures
        distinct(seq![x]),
        distinct(seq![y]),
        distinct(seq![z]),
        disjoint(seq![x], seq![y]),
        disjoint(seq![x], seq![z]),
        disjoint(seq![y], seq![z]),
        disjoint(seq![x] + seq![y], seq![z]),
        seq![x].contains(x),
        seq![y].contains(y),
        seq![z].contains(z),
{
    assert(seq![x].contains(x)) by {
        assert(seq![x][0] == x);
    }
    assert(seq![y].contains(y)) by {
        assert(seq![y][0] == y);
    }
    assert(seq![z].contains(z)) by {
        assert(seq![z][0] == z);
    }
    assert(seq![x] + seq![y] =~= seq![x, y]);
}

proof fn lemma_single_contains(x: u64, q: u64)
    ensures
        seq![x].contains(q) == (q == x),
{
    if q == x {
        assert(seq![x][0] == q);
    }
}

/// `qubit_xor` on single qubits: `z` is flipped by `x ^ y`, the rest stays.
pub proof fn law_qubit_xor(x: u64, y: u64, z: u64, s: spec_fn(u64) -> bool)
    requires
        x != y,
        x != z,
        y != z,
    ensures
        run(qubit_xor_gates(seq![x], seq![y], seq![z]), s)(z) == (s(z) != (s(x) != s(y))),
        forall|q: u64| q != z ==> #[trigger] run(qubit_xor_gates(seq![x], seq![y], seq![z]), s)(q) == s(q),
{
    lemma_distinct3(x, y, z);
    assert(seq![x] + seq![y] =~= seq![x, y]);
    assert(fan_gates(seq![x] + seq![y], seq![z]) =~= pair_gates(seq![x], seq![y], seq![z], 1));
    assert(qubit_xor_gates(seq![x], seq![y], seq![z]) == xor_gates(seq![x], seq![y], seq![z]));
    law_register_xor(seq![x], seq![y], seq![z], s);
    assert(seq![z][0] == z);
    assert forall|q: u64| q != z implies #[trigger] run(qubit_xor_gates(seq![x], seq![y], seq![z]), s)(q) == s(q) by {
        lemma_single_contains(z, q);
    }
}

/// `qubit_and` on single qubits: `z` is flipped by `x & y`, the rest stays.
pub proof fn law_qubit_and(x: u64, y: u64, z: u64, s: spec_fn(u64) -> bool)
    requires
        x != y,
        x != z,
        y != z,
    ensures
        run(fan_gates(seq![x] + seq![y], seq![z]), s)(z) == (s(z) != (s(x) && s(y))),
        forall|q: u64| q != z ==> #[trigger] run(fan_gates(seq![x] + seq![y], seq![z]), s)(q) == s(q),
{
    lemma_distinct3(x, y, z);
    assert(seq![x] + seq![y] =~= seq![x, y]);
    lemma_all_on_pair(s, x, y);
    lemma_run_fan(seq![x, y], seq![z], s, z);
    assert forall|q: u64| q != z implies #[trigger] run(fan_gates(seq![x] + seq![y], seq![z]), s)(q) == s(q) by {
        lemma_single_contains(z, q);
        lemma_run_fan(seq![x, y], seq![z], s, q);
    }
}

/// `qubit_or` on single qubits: `z` is flipped by `!x & !y` (so a clear `z`
/// ends as `x | y` negated), the rest stays.
pub proof fn law_qubit_nor(x: u64, y: u64, z: u64, s: spec_fn(u64) -> bool)
    requires
        x != y,
        x != z,
        y != z,
    ensures
        run(qubit_or_gates(seq![x], seq![y], seq![z]), s)(z) == (s(z) != (!s(x) && !s(y))),
        forall|q: u64| q != z ==> #[trigger] run(qubit_or_gates(seq![x], seq![y], seq![z]), s)(q) == s(q),
{
    lemma_distinct3(x, y, z);
    let nx = not_gates(seq![x]);
    let ny = not_gates(seq![y]);
    let f = fan_gates(seq![x] + seq![y], seq![z]);
    lemma_run_append(nx, ny, s);
    lemma_run_append(nx + ny, f, s);
    lemma_run_append(nx + ny + f, nx, s);
    lemma_run_append(nx + ny + f + nx, ny, s);
    assert(qubit_or_gates(seq![x], seq![y], seq![z]) == nx + ny + f + nx + ny);
    let s1 = run(nx, s);
    let s2 = run(ny, s1);
    let s3 = run(f, s2);
    let s4 = run(nx, s3);
    law_qubit_and(x, y, z, s2);
    assert forall|q: u64| #[trigger] run(qubit_or_gates(seq![x], seq![y], seq![z]), s)(q) == (if q == z {
        s(z) != (!s(x) && !s(y))
    } else {
        s(q)
    }) by {
        lemma_single_contains(x, q);
        lemma_single_contains(y, q);
        lemma_run_not_gates(seq![y], s4, q);
        lemma_run_not_gates(seq![x], s3, q);
        lemma_run_not_gates(seq![y], s1, q);
        lemma_run_not_gates(seq![x], s, q);
        lemma_single_contains(x, y);
        lemma_single_contains(y, x);
        lemma_single_contains(x, z);
        lemma_single_contains(y, z);
        lemma_run_not_gates(seq![x], s, y);
        lemma_run_not_gates(seq![y], s1, x);
        lemma_run_not_gates(seq![y], s1, y);
        lemma_run_not_gates(seq![x], s, x);
        lemma_run_not_gates(seq![x], s, z);
        lemma_run_not_gates(seq![y], s1, z);
    }
}


/// The carry of the adder before bit `i`: it starts clear and each step sets
/// it to `c == (((x ^ y) & c) | (x & y))`.
pub open spec fn adder_carry(s: spec_fn(u64) -> bool, a: Seq<u64>, b: Seq<u64>, i: nat) -> bool
    decreases i,
{
    if i == 0 {
        false
    } else {
        let c = adder_carry(s, a, b, (i - 1) as nat);
        let x = s(a[i - 1]);
        let y = s(b[i - 1]);
        c == (((x != y) && c) || (x && y))
    }
}

/// The inputs of `register_sum`: distinct disjoint registers below the first
/// fresh qubit `start`, and room for the qubits the adder allocates.
pub open spec fn sum_inputs(a: Seq<u64>, b: Seq<u64>, start: nat, s: spec_fn(u64) -> bool) -> bool {
    &&& a.len() <= b.len()
    &&& distinct(a)
    &&& distinct(b)
    &&& disjoint(a, b)
    &&& all_below(a, start)
    &&& all_below(b, start)
    &&& start + 4 * a.len() + 4 <= u64::MAX
    &&& forall|q: u64| start <= q < start + 4 * a.len() + 4 ==> !#[trigger] s(q)
}

proof fn lemma_sum_prefix(a: Seq<u64>, b: Seq<u64>, start: nat, s: spec_fn(u64) -> bool, k: nat)
    requires
        sum_inputs(a, b, start, s),
        k <= a.len(),
    ensures
        ({
            let n = a.len();
            let t = run(sum_gates(a, b, start, k), s);
            &&& forall|i: int| 0 <= i < k ==> #[trigger] t((start + i) as u64) == ((s(a[i]) != s(b[i])) != adder_carry(
                s,
                a,
                b,
                i as nat,
            ))
            &&& t((start + n) as u64) == adder_carry(s, a, b, k)
            &&& forall|q: u64| q < start ==> #[trigger] t(q) == s(q)
            &&& forall|q: u64| (start + k <= q < start + n) || (start + n + 1 + 3 * k <= q < start + 4 * n + 4) ==> #[trigger] t(q) == s(q)
            &&& forall|q: u64| start + 4 * n + 4 <= q ==> #[trigger] t(q) == s(q)
        }),
    decreases k,
{
    let n = a.len();
    if k == 0 {
        assert(sum_gates(a, b, start, 0) == Seq::<GateSpec>::empty());
        assert(!s((start + n) as u64));
    } else {
        let i = (k - 1) as nat;
        lemma_sum_prefix(a, b, start, s, i);
        let prev = sum_gates(a, b, start, i);
        let x = a[i as int];
        let y = b[i as int];
        let r = (start + i) as u64;
        let p = (start + n) as u64;
        let k1 = (start + n + 1 + 3 * i) as u64;
        let k2 = (start + n + 2 + 3 * i) as u64;
        let k3 = (start + n + 3 + 3 * i) as u64;
        let step = sum_step_gates(seq![x], seq![y], seq![r], seq![p], seq![k1], seq![k2], seq![k3]);
        assert(sum_gates(a, b, start, k) == prev + step);
        lemma_run_append(prev, step, s);
        let t0 = run(prev, s);
        assert(x < start && y < start);
        assert(x != y) by {
            assert(a.contains(x));
            lemma_not_in(b, a, x);
        }
        let d = seq![x, y, r, p, k1, k2, k3];
        assert(distinct(d)) by {
            assert forall|u: int, v: int| 0 <= u < d.len() && 0 <= v < d.len() && u != v implies d[u] != d[v] by {}
        }
        assert(t0(k1) == s(k1) && t0(k2) == s(k2) && t0(k3) == s(k3));
        law_sum_step(x, y, r, p, k1, k2, k3, t0);
        assert(t0(x) == s(x) && t0(y) == s(y));
        assert(t0(r) == s(r));
        assert(!s(r));
    }
}

/// `register_sum`: with the result register, the carry qubit and the
/// ancillas fresh (clear), result bit `i` holds `a[i] ^ b[i] ^ c(i)` for the
/// carry `c` of `adder_carry`, the carry qubit ends as `c(n)`, and every qubit
/// outside the adder's own qubits `start .. start + 4n + 4` (the inputs among
/// them) keeps its value.
pub proof fn law_register_sum(a: Seq<u64>, b: Seq<u64>, start: nat, s: spec_fn(u64) -> bool)
    requires
        sum_inputs(a, b, start, s),
    ensures
        ({
            let t = run(sum_gates(a, b, start, a.len()), s);
            &&& forall|i: int| 0 <= i < a.len() ==> #[trigger] t((start + i) as u64) == ((s(a[i]) != s(b[i])) != adder_carry(
                s,
                a,
                b,
                i as nat,
            ))
            &&& t((start + a.len()) as u64) == adder_carry(s, a, b, a.len())
            &&& forall|q: u64| q < start ==> #[trigger] t(q) == s(q)
            &&& forall|q: u64| start + 4 * a.len() + 4 <= q ==> #[trigger] t(q) == s(q)
        }),
{
    lemma_sum_prefix(a, b, start, s, a.len());
}


/// The values that the qubits `r` hold in `s`.
pub open spec fn reg_bits(s: spec_fn(u64) -> bool, r: Seq<u64>) -> Seq<bool> {
    Seq::new(r.len(), |i: int| s(r[i]))
}

/// The carry into bit `i` of the adder on the bit strings `x` and `y`, by
/// the recurrence of `adder_carry`.
pub open spec fn carry_bits(x: Seq<bool>, y: Seq<bool>, i: nat) -> bool
    decreases i,
{
    if i == 0 {
        false
    } else {
        let c = carry_bits(x, y, (i - 1) as nat);
        let a = x[i - 1];
        let b = y[i - 1];
        c == (((a != b) && c) || (a && b))
    }
}

/// The adder on bit strings: bit `i` of the sum of `x` and `y` (as long as
/// `x`) is `x[i] ^ y[i] ^ carry_bits(x, y, i)`.
pub open spec fn add_bits(x: Seq<bool>, y: Seq<bool>) -> Seq<bool> {
    Seq::new(x.len(), |i: int| (x[i] != y[i]) != carry_bits(x, y, i as nat))
}

proof fn lemma_carry_bits(s: spec_fn(u64) -> bool, a: Seq<u64>, b: Seq<u64>, i: nat)
    requires
        i <= a.len(),
        a.len() <= b.len(),
    ensures
        adder_carry(s, a, b, i) == carry_bits(reg_bits(s, a), reg_bits(s, b), i),
    decreases i,
{
    if i > 0 {
        lemma_carry_bits(s, a, b, (i - 1) as nat);
    }
}

/// The registers `r` hold the same values in `s` and `t`.
pub proof fn lemma_reg_bits_same(s: spec_fn(u64) -> bool, t: spec_fn(u64) -> bool, r: Seq<u64>)
    requires
        forall|i: int| 0 <= i < r.len() ==> s(r[i]) == t(r[i]),
    ensures
        reg_bits(s, r) == reg_bits(t, r),
{
    assert(reg_bits(s, r) =~= reg_bits(t, r));
}

/// `register_sum` on bit strings: with its own qubits clear, the result
/// register `fresh(start, n)` holds the sum of the values of `a` and `b`,
/// and every qubit below `start` or above the adder's qubits keeps its value.
pub proof fn law_adder_bits(a: Seq<u64>, b: Seq<u64>, start: nat, s: spec_fn(u64) -> bool)
    requires
        sum_inputs(a, b, start, s),
    ensures
        ({
            let t = run(sum_gates(a, b, start, a.len()), s);
            &&& reg_bits(t, fresh(start, a.len())) == add_bits(reg_bits(s, a), reg_bits(s, b))
            &&& forall|q: u64| q < start ==> #[trigger] t(q) == s(q)
            &&& forall|q: u64| start + 4 * a.len() + 4 <= q ==> #[trigger] t(q) == s(q)
        }),
{
    let t = run(sum_gates(a, b, start, a.len()), s);
    law_register_sum(a, b, start, s);
    assert forall|i: int| 0 <= i < a.len() implies #[trigger] reg_bits(t, fresh(start, a.len()))[i] == add_bits(
        reg_bits(s, a),
        reg_bits(s, b),
    )[i] by {
        lemma_carry_bits(s, a, b, i as nat);
        assert(t((start + i) as u64) == ((s(a[i]) != s(b[i])) != adder_carry(s, a, b, i as nat)));
    }
    assert(reg_bits(t, fresh(start, a.len())) =~= add_bits(reg_bits(s, a), reg_bits(s, b)));
}

proof fn lemma_distinct_parts(reg: Seq<u64>, res: Seq<u64>, lo: int, hi: int, lo2: int, hi2: int)
    requires
        distinct(reg),
        distinct(res),
        disjoint(reg, res),
        0 <= lo <= hi <= reg.len(),
        0 <= lo2 <= hi2 <= res.len(),
    ensures
        distinct(reg.subrange(lo, hi) + res.subrange(lo2, hi2)),
{
    let c = reg.subrange(lo, hi) + res.subrange(lo2, hi2);
    let m = hi - lo;
    assert forall|i: int, j: int| 0 <= i < c.len() && 0 <= j < c.len() && i != j implies c[i] != c[j] by {
        if i < m && j < m {
            assert(c[i] == reg[lo + i] && c[j] == reg[lo + j]);
        } else if i >= m && j >= m {
            assert(c[i] == res[lo2 + i - m] && c[j] == res[lo2 + j - m]);
        } else if i < m {
            assert(c[i] == reg[lo + i] && c[j] == res[lo2 + j - m]);
        } else {
            assert(c[j] == reg[lo + j] && c[i] == res[lo2 + i - m]);
        }
    }
}

/// The inputs of an in-place rotation: a register and a fresh register of
/// the same width, distinct and disjoint, and a step strictly inside.
pub open spec fn rotation_inputs(reg: Seq<u64>, res: Seq<u64>, st: int) -> bool {
    &&& reg.len() == res.len()
    &&& 0 < st < reg.len()
    &&& distinct(reg)
    &&& distinct(res)
    &&& disjoint(reg, res)
}

/// `register_rotr_inplace`: bit `j` of `reg` moves to position `j + st` (mod
/// `n`) of `res`, and `reg` takes over the former bits of `res`.
pub proof fn law_rotr_inplace(reg: Seq<u64>, res: Seq<u64>, st: int, s: spec_fn(u64) -> bool)
    requires
        rotation_inputs(reg, res, st),
    ensures
        ({
            let n = reg.len() as int;
            let t = run(rotr_inplace_gates(reg, res, st), s);
            &&& forall|j: int| 0 <= j < n - st ==> #[trigger] t(res[j + st]) == s(reg[j])
            &&& forall|j: int| n - st <= j < n ==> #[trigger] t(res[j - (n - st)]) == s(reg[j])
            &&& forall|q: u64| !reg.contains(q) && !res.contains(q) ==> #[trigger] t(q) == s(q)
        }),
{
    let n = reg.len() as int;
    let a1 = reg.subrange(0, n - st);
    let b1 = res.subrange(st, n);
    let a2 = reg.subrange(n - st, n);
    let b2 = res.subrange(0, st);
    lemma_distinct_parts(reg, res, 0, n - st, st, n);
    lemma_distinct_parts(reg, res, n - st, n, 0, st);
    let g1 = swap_gates(a1, b1);
    let g2 = swap_gates(a2, b2);
    lemma_run_append(g1, g2, s);
    let s1 = run(g1, s);
    assert(rotr_inplace_gates(reg, res, st) == g1 + g2);
    assert forall|j: int| 0 <= j < n - st implies #[trigger] run(rotr_inplace_gates(reg, res, st), s)(res[j + st]) == s(reg[j]) by {
        let q = res[j + st];
        assert(b1[j] == q);
        lemma_index_of_distinct(b1, j);
        assert(b1 == (a1 + b1).subrange(a1.len() as int, (a1 + b1).len() as int));
        lemma_subrange_distinct(a1 + b1, a1.len() as int, (a1 + b1).len() as int);
        lemma_index_of_distinct(b1, j);
        lemma_not_in_parts(a1, b1, q);
        lemma_run_swaps(a1, b1, s, q);
        lemma_outside_parts(reg, res, a2, b2, n - st, n, 0, st, q, j + st, false);
        lemma_run_swaps(a2, b2, s1, q);
    }
    assert forall|j: int| n - st <= j < n implies #[trigger] run(rotr_inplace_gates(reg, res, st), s)(res[j - (n - st)]) == s(reg[j]) by {
        let q = res[j - (n - st)];
        let k = j - (n - st);
        assert(b2[k] == q);
        assert(b2 == (a2 + b2).subrange(a2.len() as int, (a2 + b2).len() as int));
        lemma_subrange_distinct(a2 + b2, a2.len() as int, (a2 + b2).len() as int);
        lemma_index_of_distinct(b2, k);
        lemma_not_in_parts(a2, b2, q);
        lemma_run_swaps(a2, b2, s1, q);
        assert(a2[k] == reg[j]);
        lemma_outside_parts(reg, res, a1, b1, 0, n - st, st, n, reg[j], j, true);
        lemma_run_swaps(a1, b1, s, reg[j]);
    }
    assert forall|q: u64| !reg.contains(q) && !res.contains(q) implies #[trigger] run(rotr_inplace_gates(reg, res, st), s)(q) == s(q) by {
        lemma_sub_not_contains(reg, 0, n - st, q);
        lemma_sub_not_contains(res, st, n, q);
        lemma_sub_not_contains(reg, n - st, n, q);
        lemma_sub_not_contains(res, 0, st, q);
        lemma_run_swaps(a1, b1, s, q);
        lemma_run_swaps(a2, b2, s1, q);
    }
}

proof fn lemma_subrange_distinct(c: Seq<u64>, lo: int, hi: int)
    requires
        distinct(c),
        0 <= lo <= hi <= c.len(),
    ensures
        distinct(c.subrange(lo, hi)),
{
    let d = c.subrange(lo, hi);
    assert forall|i: int, j: int| 0 <= i < d.len() && 0 <= j < d.len() && i != j implies d[i] != d[j] by {
        assert(d[i] == c[lo + i] && d[j] == c[lo + j]);
    }
}

/// In a distinct concatenation `a + b`, a qubit of `b` is not in `a`.
proof fn lemma_not_in_parts(a: Seq<u64>, b: Seq<u64>, q: u64)
    requires
        distinct(a + b),
        b.contains(q),
    ensures
        !a.contains(q),
{
    if a.contains(q) {
        let i = choose|i: int| 0 <= i < a.len() && a[i] == q;
        let j = choose|j: int| 0 <= j < b.len() && b[j] == q;
        assert((a + b)[i] == q && (a + b)[a.len() + j] == q);
    }
}

proof fn lemma_sub_not_contains(c: Seq<u64>, lo: int, hi: int, q: u64)
    requires
        !c.contains(q),
        0 <= lo <= hi <= c.len(),
    ensures
        !c.subrange(lo, hi).contains(q),
{
    if c.subrange(lo, hi).contains(q) {
        let i = choose|i: int| 0 <= i < hi - lo && c.subrange(lo, hi)[i] == q;
        assert(c[lo + i] == q);
    }
}

/// A qubit of `reg` or `res` at a position outside the given ranges lies in
/// neither `a = reg[lo..hi]` nor `b = res[lo2..hi2]`.
proof fn lemma_outside_parts(
    reg: Seq<u64>,
    res: Seq<u64>,
    a: Seq<u64>,
    b: Seq<u64>,
    lo: int,
    hi: int,
    lo2: int,
    hi2: int,
    q: u64,
    pos: int,
    in_reg: bool,
)
    requires
        distinct(reg),
        distinct(res),
        disjoint(reg, res),
        0 <= lo <= hi <= reg.len(),
        0 <= lo2 <= hi2 <= res.len(),
        a == reg.subrange(lo, hi),
        b == res.subrange(lo2, hi2),
        in_reg ==> 0 <= pos < reg.len() && reg[pos] == q && !(lo <= pos < hi),
        !in_reg ==> 0 <= pos < res.len() && res[pos] == q && !(lo2 <= pos < hi2),
    ensures
        !a.contains(q),
        !b.contains(q),
{
    if a.contains(q) {
        let i = choose|i: int| 0 <= i < a.len() && a[i] == q;
        assert(reg[lo + i] == q);
        if in_reg {
            assert(lo + i != pos);
        } else {
            assert(reg[lo + i] != res[pos]);
        }
    }
    if b.contains(q) {
        let i = choose|i: int| 0 <= i < b.len() && b[i] == q;
        assert(res[lo2 + i] == q);
        if in_reg {
            assert(reg[pos] != res[lo2 + i]);
        } else {
            assert(lo2 + i != pos);
        }
    }
}

/// The qubits `start..end` of every layer, layer after layer.
pub open spec fn range_targets(layers: Seq<Seq<u64>>, start: int, end: int) -> Seq<u64> {
    concat_registers(layers.map_values(|l: Seq<u64>| l.subrange(start, end)))
}

proof fn lemma_mirror_is_fan(sign: Seq<u64>, layers: Seq<Seq<u64>>, start: int, end: int)
    ensures
        mirror_gates(sign, layers, start, end) == fan_gates(sign, range_targets(layers, start, end)),
    decreases layers.len(),
{
    let ranges = layers.map_values(|l: Seq<u64>| l.subrange(start, end));
    if layers.len() == 0 {
        assert(mirror_gates(sign, layers, start, end) =~= fan_gates(sign, range_targets(layers, start, end)));
    } else {
        lemma_mirror_is_fan(sign, layers.drop_last(), start, end);
        assert(ranges.drop_last() =~= layers.drop_last().map_values(|l: Seq<u64>| l.subrange(start, end)));
        let a = range_targets(layers.drop_last(), start, end);
        let b = layers.last().subrange(start, end);
        assert(range_targets(layers, start, end) == a + b);
        assert(fan_gates(sign, a + b) =~= fan_gates(sign, a) + fan_gates(sign, b));
    }
}

/// Mirroring a sign onto the range `start..end` of every layer (as the
/// search does after each prediction): each qubit in those ranges is flipped
/// when all sign qubits are set, and every other qubit keeps its value.
pub proof fn law_mirror(sign: Seq<u64>, layers: Seq<Seq<u64>>, start: int, end: int, s: spec_fn(u64) -> bool)
    requires
        distinct(range_targets(layers, start, end)),
        disjoint(sign, range_targets(layers, start, end)),
    ensures
        forall|q: u64| #[trigger] range_targets(layers, start, end).contains(q) ==> run(
            mirror_gates(sign, layers, start, end),
            s,
        )(q) == (s(q) != all_on(s, sign)),
        forall|q: u64| !range_targets(layers, start, end).contains(q) ==> #[trigger] run(
            mirror_gates(sign, layers, start, end),
            s,
        )(q) == s(q),
{
    let ts = range_targets(layers, start, end);
    lemma_mirror_is_fan(sign, layers, start, end);
    law_fan(sign, ts, s);
    assert forall|q: u64| #[trigger] ts.contains(q) implies run(mirror_gates(sign, layers, start, end), s)(q) == (s(q)
        != all_on(s, sign)) by {
        let k = choose|k: int| 0 <= k < ts.len() && ts[k] == q;
        assert(run(fan_gates(sign, ts), s)(ts[k]) == (s(ts[k]) != all_on(s, sign)));
    }
}

/// The diffusion step on `q` (at least two qubits), gate by gate: a
/// Hadamard layer, an X layer, a Hadamard layer, an X layer, then Hadamard
/// on the last qubit, the not of `q[0]` controlled by all the others,
/// Hadamard on the last qubit again, and it closes with an X layer and a
/// Hadamard layer on every qubit.
pub proof fn law_diffuse_gates(q: Seq<u64>)
    requires
        q.len() >= 2,
    ensures
        ({
            let n = q.len() as int;
            let g = diffuse_gates(q);
            &&& g.len() == 6 * n + 3
            &&& forall|i: int|
                0 <= i < n ==> {
                    &&& g[i] == GateSpec::Hadamard(q[i])
                    &&& g[n + i] == GateSpec::Not(q[i])
                    &&& g[2 * n + i] == GateSpec::Hadamard(q[i])
                    &&& g[3 * n + i] == GateSpec::Not(q[i])
                    &&& g[4 * n + 3 + i] == GateSpec::Not(q[i])
                    &&& g[5 * n + 3 + i] == GateSpec::Hadamard(q[i])
                }
            &&& g[4 * n] == GateSpec::Hadamard(q[n - 1])
            &&& g[4 * n + 1] == GateSpec::ControlledNot(q.subrange(1, n), q[0])
            &&& g[4 * n + 2] == GateSpec::Hadamard(q[n - 1])
        }),
{
    let n = q.len() as int;
    let g = diffuse_gates(q);
    assert(g.len() == 6 * n + 3);
    assert forall|i: int| 0 <= i < n implies {
        &&& g[i] == GateSpec::Hadamard(q[i])
        &&& g[n + i] == GateSpec::Not(q[i])
        &&& g[2 * n + i] == GateSpec::Hadamard(q[i])
        &&& g[3 * n + i] == GateSpec::Not(q[i])
        &&& g[4 * n + 3 + i] == GateSpec::Not(q[i])
        &&& g[5 * n + 3 + i] == GateSpec::Hadamard(q[i])
    } by {}
}

/// Each layer of a register loaded with `data` holds the data in order: the
/// eight qubits at `start + 8 (k len + j)` start as byte `j` of the data, in
/// every layer `k`.
pub proof fn law_byte_init_views(start: nat, data: Seq<u8>, depth: nat)
    ensures
        byte_init_views(start, data, depth).len() == depth * data.len(),
        forall|k: int, j: int|
            0 <= k < depth && 0 <= j < data.len() ==> byte_init_views(start, data, depth)[#[trigger] (k * data.len()
                + j)] == (fresh((start + 8 * (k * data.len() + j)) as nat, 8), data[j] as u64),
{
    let len = data.len() as int;
    assert forall|k: int, j: int|
        0 <= k < depth && 0 <= j < len implies byte_init_views(start, data, depth)[#[trigger] (k * len + j)] == (
        fresh((start + 8 * (k * len + j)) as nat, 8),
        data[j] as u64,
    ) by {
        assert((k * len + j) % len == j) by (nonlinear_arith)
            requires
                0 <= k,
                0 <= j < len,
        ;
        assert(k * len + j < depth * len) by (nonlinear_arith)
            requires
                0 <= k < depth,
                0 <= j < len,
        ;
    }
}

/// `fresh(start, n)` holds exactly the qubits `start .. start + n`.
pub proof fn lemma_fresh_contains(start: nat, n: nat, q: u64)
    requires
        start + n <= u64::MAX + 1,
    ensures
        fresh(start, n).contains(q) <==> start <= q < start + n,
{
    if start <= q < start + n {
        assert(fresh(start, n)[q - start] == q);
    }
}

/// Fresh registers are distinct, and two that do not overlap are apart.
pub proof fn lemma_fresh_apart(x: nat, n: nat, y: nat, m: nat)
    requires
        x + n <= y,
        y + m <= u64::MAX + 1,
    ensures
        distinct(fresh(x, n)),
        distinct(fresh(y, m)),
        disjoint(fresh(x, n), fresh(y, m)),
{
}

/// `s` and `t` agree on the qubits `cs`, so all of them are set in one
/// exactly when in the other.
pub proof fn lemma_all_on_same(s: spec_fn(u64) -> bool, t: spec_fn(u64) -> bool, cs: Seq<u64>)
    requires
        forall|i: int| 0 <= i < cs.len() ==> s(cs[i]) == t(cs[i]),
    ensures
        all_on(s, cs) == all_on(t, cs),
{
    if all_on(s, cs) {
        assert forall|k: int| 0 <= k < cs.len() implies #[trigger] t(cs[k]) by {
            assert(s(cs[k]));
        }
    }
    if all_on(t, cs) {
        assert forall|k: int| 0 <= k < cs.len() implies #[trigger] s(cs[k]) by {
            assert(t(cs[k]));
        }
    }
}

/// Bit `i` of the left rotation by `r` of `a` as `register_rotl` builds it:
/// each target is a not controlled by its whole block of `a`, the block
/// `a[r..]` for the low bits and `a[..r]` for the `r` high bits.
pub open spec fn rotl_bit(s: spec_fn(u64) -> bool, a: Seq<u64>, r: int, i: int) -> bool {
    if i < a.len() - r {
        all_on(s, a.subrange(r, a.len() as int))
    } else {
        all_on(s, a.subrange(0, r))
    }
}

/// `register_rotl` into a clear register `c`: bit `i` of `c` becomes
/// `rotl_bit(s, a, r, i)`, and every qubit outside `c` keeps its value.
pub proof fn law_rotl_copy(a: Seq<u64>, c: Seq<u64>, r: int, s: spec_fn(u64) -> bool)
    requires
        a.len() == c.len(),
        0 < r < a.len(),
        distinct(c),
        disjoint(a, c),
        forall|i: int| 0 <= i < c.len() ==> !s(#[trigger] c[i]),
    ensures
        ({
            let t = run(rotl_gates(a, c, r), s);
            &&& forall|i: int| 0 <= i < c.len() ==> #[trigger] t(c[i]) == rotl_bit(s, a, r, i)
            &&& forall|q: u64| !c.contains(q) ==> #[trigger] t(q) == s(q)
        }),
{
    let n = a.len() as int;
    let ca = a.subrange(r, n);
    let ta = c.subrange(0, n - r);
    let cb = a.subrange(0, r);
    let tb = c.subrange(n - r, n);
    let f1 = fan_gates(ca, ta);
    let f2 = fan_gates(cb, tb);
    assert(rotl_gates(a, c, r) == f1 + f2);
    lemma_run_append(f1, f2, s);
    law_fan(ca, ta, s);
    let t1 = run(f1, s);
    law_fan(cb, tb, t1);
    let t = run(f2, t1);
    assert forall|i: int| 0 <= i < cb.len() implies s(cb[i]) == t1(cb[i]) by {
        assert(cb[i] == a[i]);
        if ta.contains(cb[i]) {
            let k = choose|k: int| 0 <= k < ta.len() && ta[k] == cb[i];
            assert(ta[k] == c[k]);
        }
    }
    lemma_all_on_same(s, t1, cb);
    assert forall|i: int| 0 <= i < c.len() implies #[trigger] t(c[i]) == rotl_bit(s, a, r, i) by {
        if i < n - r {
            assert(ta[i] == c[i]);
            if tb.contains(c[i]) {
                let k = choose|k: int| 0 <= k < tb.len() && tb[k] == c[i];
                assert(tb[k] == c[k + n - r]);
            }
        } else {
            assert(tb[i - (n - r)] == c[i]);
        }
    }
    assert forall|q: u64| !c.contains(q) implies #[trigger] t(q) == s(q) by {
        if ta.contains(q) {
            let k = choose|k: int| 0 <= k < ta.len() && ta[k] == q;
            assert(c[k] == q);
        }
        if tb.contains(q) {
            let k = choose|k: int| 0 <= k < tb.len() && tb[k] == q;
            assert(c[k + n - r] == q);
        }
    }
}

/// Bit `i` of the right rotation by `r` of `a` as `register_rotr` builds it:
/// each target is a not controlled by its whole block of `a`, the block
/// `a[..n - r]` for the bits from `r` on and `a[n - r..]` for the `r` low
/// bits.
pub open spec fn rotr_bit(s: spec_fn(u64) -> bool, a: Seq<u64>, r: int, i: int) -> bool {
    if i >= r {
        all_on(s, a.subrange(0, a.len() - r))
    } else {
        all_on(s, a.subrange(a.len() - r, a.len() as int))
    }
}

/// `register_rotr` into a clear register `c`: bit `i` of `c` becomes
/// `rotr_bit(s, a, r, i)`, and every qubit outside `c` keeps its value.
pub proof fn law_rotr_copy(a: Seq<u64>, c: Seq<u64>, r: int, s: spec_fn(u64) -> bool)
    requires
        a.len() == c.len(),
        0 < r < a.len(),
        distinct(c),
        disjoint(a, c),
        forall|i: int| 0 <= i < c.len() ==> !s(#[trigger] c[i]),
    ensures
        ({
            let t = run(rotr_gates(a, c, r), s);
            &&& forall|i: int| 0 <= i < c.len() ==> #[trigger] t(c[i]) == rotr_bit(s, a, r, i)
            &&& forall|q: u64| !c.contains(q) ==> #[trigger] t(q) == s(q)
        }),
{
    let n = a.len() as int;
    let ca = a.subrange(0, n - r);
    let ta = c.subrange(r, n);
    let cb = a.subrange(n - r, n);
    let tb = c.subrange(0, r);
    let f1 = fan_gates(ca, ta);
    let f2 = fan_gates(cb, tb);
    assert(rotr_gates(a, c, r) == f1 + f2);
    lemma_run_append(f1, f2, s);
    law_fan(ca, ta, s);
    let t1 = run(f1, s);
    law_fan(cb, tb, t1);
    let t = run(f2, t1);
    assert forall|i: int| 0 <= i < cb.len() implies s(cb[i]) == t1(cb[i]) by {
        assert(cb[i] == a[i + n - r]);
        if ta.contains(cb[i]) {
            let k = choose|k: int| 0 <= k < ta.len() && ta[k] == cb[i];
            assert(ta[k] == c[k + r]);
        }
    }
    lemma_all_on_same(s, t1, cb);
    assert forall|i: int| 0 <= i < c.len() implies #[trigger] t(c[i]) == rotr_bit(s, a, r, i) by {
        if i >= r {
            assert(ta[i - r] == c[i]);
            if tb.contains(c[i]) {
                let k = choose|k: int| 0 <= k < tb.len() && tb[k] == c[i];
                assert(tb[k] == c[k]);
            }
        } else {
            assert(tb[i] == c[i]);
        }
    }
    assert forall|q: u64| !c.contains(q) implies #[trigger] t(q) == s(q) by {
        if ta.contains(q) {
            let k = choose|k: int| 0 <= k < ta.len() && ta[k] == q;
            assert(c[k + r] == q);
        }
        if tb.contains(q) {
            let k = choose|k: int| 0 <= k < tb.len() && tb[k] == q;
            assert(c[k] == q);
        }
    }
}

/// Bit `i` of the right shift by `sh` of `a` as `register_shiftr` builds it.
pub open spec fn shiftr_bit(s: spec_fn(u64) -> bool, a: Seq<u64>, sh: int, i: int) -> bool {
    if i >= sh {
        s(a[i - sh])
    } else {
        false
    }
}

/// `register_shiftr` into a clear register `c`: bit `i` of `c` becomes
/// `shiftr_bit(s, a, sh, i)`, and every qubit outside `c` keeps its value.
pub proof fn law_shiftr_copy(a: Seq<u64>, c: Seq<u64>, sh: int, s: spec_fn(u64) -> bool)
    requires
        a.len() == c.len(),
        0 <= sh <= a.len(),
        distinct(c),
        disjoint(a, c),
        forall|i: int| 0 <= i < c.len() ==> !s(#[trigger] c[i]),
    ensures
        ({
            let t = run(copy_gates(a.subrange(0, a.len() - sh), c.subrange(sh, c.len() as int)), s);
            &&& forall|i: int| 0 <= i < c.len() ==> #[trigger] t(c[i]) == shiftr_bit(s, a, sh, i)
            &&& forall|q: u64| !c.contains(q) ==> #[trigger] t(q) == s(q)
        }),
{
    let n = a.len() as int;
    let src = a.subrange(0, n - sh);
    let dst = c.subrange(sh, n);
    law_copy(src, dst, s);
    let t = run(copy_gates(src, dst), s);
    assert forall|i: int| 0 <= i < c.len() implies #[trigger] t(c[i]) == shiftr_bit(s, a, sh, i) by {
        if i >= sh {
            assert(dst[i - sh] == c[i]);
        } else {
            if dst.contains(c[i]) {
                let k = choose|k: int| 0 <= k < dst.len() && dst[k] == c[i];
                assert(dst[k] == c[k + sh]);
            }
        }
    }
    assert forall|q: u64| !c.contains(q) implies #[trigger] t(q) == s(q) by {
        if dst.contains(q) {
            let k = choose|k: int| 0 <= k < dst.len() && dst[k] == q;
            assert(c[k + sh] == q);
        }
    }
}

} // verus!
