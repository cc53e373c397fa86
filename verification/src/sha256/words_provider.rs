use vstd::prelude::*;
use std::collections::HashMap;
use vstd::assert_seqs_equal;
use crate::searcher::circuit::{fresh, register_views, sub_register, swap_gates, CircuitBuilder, GateSpec, InitState, QubitRegister};
use vstd::pervasive::VecAdditionalExecFns;
use crate::searcher::utils::{
    append_inits, copy_gates, init_views, register_rotr, register_shiftr, register_sum, register_xor, rotr_gates, single_zero_views,
    sum_gates, swap_wrapper, xor_gates, zero_init_views, zeroed_register, LayeredRegister,
};

verus! {

// ---------------------------------------------------------------------------
// Mixing circuits of the message schedule
// ---------------------------------------------------------------------------

/// The gates of a schedule mixing circuit on `w` (width `n`) with rotation
/// steps `r1`, `r2` and shift `sh`, when its first fresh qubit is `start`:
/// two rotated copies, a shifted copy, and the xor of the three.
pub open spec fn mix_gates(w: Seq<u64>, start: nat, r1: int, r2: int, sh: int) -> Seq<GateSpec> {
    let n = w.len();
    let b1 = fresh(start, n);
    let b2 = fresh(start + n, n);
    let b3 = fresh(start + 2 * n, n);
    let x1 = fresh(start + 3 * n, n);
    let x2 = fresh(start + 4 * n, n);
    rotr_gates(w, b1, r1) + rotr_gates(w, b2, r2) + copy_gates(w.subrange(0, n - sh), b3.subrange(sh, n as int))
        + xor_gates(b1, b2, x1) + xor_gates(x1, b3, x2)
}

/// The initial states of a mixing circuit starting at `start` on a word of
/// width `n`.
pub open spec fn mix_init_views(start: nat, n: nat) -> Seq<(Seq<u64>, u64)> {
    zero_init_views(start, n) + zero_init_views(start + n, n) + zero_init_views(start + 2 * n, n)
        + zero_init_views(start + 3 * n, n) + zero_init_views(start + 4 * n, n)
}

/// The requirements of a mixing circuit on a word of width `n`.
pub open spec fn mix_ok(n: nat, r1: u64, r2: u64, sh: u64, start: nat) -> bool {
    &&& n > 0
    &&& r1 % (n as u64) != 0
    &&& r2 % (n as u64) != 0
    &&& sh <= n
    &&& start + 5 * n <= u64::MAX
}

fn mix(b: &mut CircuitBuilder, reg: QubitRegister, r1: u64, r2: u64, sh: u64) -> (out: (
    QubitRegister,
    QubitRegister,
    Vec<InitState>,
))
    requires
        mix_ok(reg@.len(), r1, r2, sh, old(b).allocated()),
    ensures
        out.0@ == reg@,
        out.1@ == fresh(old(b).allocated() + 4 * reg@.len(), reg@.len()),
        init_views(out.2@) == mix_init_views(old(b).allocated(), reg@.len()),
        final(b).allocated() == old(b).allocated() + 5 * reg@.len(),
        final(b).log() == old(b).log() + mix_gates(
            reg@,
            old(b).allocated(),
            (r1 % (reg@.len() as u64)) as int,
            (r2 % (reg@.len() as u64)) as int,
            sh as int,
        ),
{
    let ghost start = old(b).allocated();
    let ghost n = reg@.len();
    let mut init: Vec<InitState> = Vec::new();
    let (reg, buff1, init_buff) = register_rotr(b, reg, r1);
    append_inits(&mut init, init_buff);
    let (reg, buff2, init_buff) = register_rotr(b, reg, r2);
    append_inits(&mut init, init_buff);
    let (reg, buff3, init_buff) = register_shiftr(b, reg, sh);
    append_inits(&mut init, init_buff);
    let (buff1, buff2, xored1, init_buff) = register_xor(b, buff1, buff2);
    append_inits(&mut init, init_buff);
    let (xored1, buff3, xored2, init_buff) = register_xor(b, xored1, buff3);
    append_inits(&mut init, init_buff);
    proof {
        assert(init_views(init@) =~= mix_init_views(start, n));
        assert_seqs_equal!(b.log(), old(b).log() + mix_gates(reg@, start, (r1 % (n as u64)) as int, (r2 % (n as u64)) as int, sh as int));
    }
    (reg, xored2, init)
}

/// The first schedule mixing circuit: rotations by 7 and 18, shift by 3.
fn get_s0(b: &mut CircuitBuilder, reg: QubitRegister) -> (out: (QubitRegister, QubitRegister, Vec<InitState>))
    requires
        mix_ok(reg@.len(), 7, 18, 3, old(b).allocated()),
    ensures
        out.0@ == reg@,
        out.1@ == fresh(old(b).allocated() + 4 * reg@.len(), reg@.len()),
        init_views(out.2@) == mix_init_views(old(b).allocated(), reg@.len()),
        final(b).allocated() == old(b).allocated() + 5 * reg@.len(),
        final(b).log() == old(b).log() + mix_gates(
            reg@,
            old(b).allocated(),
            (7u64 % (reg@.len() as u64)) as int,
            (18u64 % (reg@.len() as u64)) as int,
            3,
        ),
{
    mix(b, reg, 7, 18, 3)
}

/// The second schedule mixing circuit: rotations by 17 and 19, shift by 10.
fn get_s1(b: &mut CircuitBuilder, reg: QubitRegister) -> (out: (QubitRegister, QubitRegister, Vec<InitState>))
    requires
        mix_ok(reg@.len(), 17, 19, 10, old(b).allocated()),
    ensures
        out.0@ == reg@,
        out.1@ == fresh(old(b).allocated() + 4 * reg@.len(), reg@.len()),
        init_views(out.2@) == mix_init_views(old(b).allocated(), reg@.len()),
        final(b).allocated() == old(b).allocated() + 5 * reg@.len(),
        final(b).log() == old(b).log() + mix_gates(
            reg@,
            old(b).allocated(),
            (17u64 % (reg@.len() as u64)) as int,
            (19u64 % (reg@.len() as u64)) as int,
            10,
        ),
{
    mix(b, reg, 17, 19, 10)
}

/// The gates of `get_wi`: `w16 + s0`, then `+ w7`, then `+ s1`, with the
/// adders starting at `start`, `start + 4n + 4` and `start + 8n + 8`.
pub open spec fn wi_gates(w16: Seq<u64>, s0: Seq<u64>, w7: Seq<u64>, s1: Seq<u64>, start: nat) -> Seq<GateSpec> {
    let n = w16.len();
    sum_gates(w16, s0, start, n) + sum_gates(fresh(start, n), w7, start + 4 * n + 4, n) + sum_gates(
        fresh(start + 4 * n + 4, n),
        s1,
        start + 8 * n + 8,
        n,
    )
}

pub open spec fn wi_init_views(start: nat, n: nat) -> Seq<(Seq<u64>, u64)> {
    zero_init_views(start, n) + single_zero_views(start + n, 3 * n + 4) + zero_init_views(start + 4 * n + 4, n)
        + single_zero_views(start + 5 * n + 4, 3 * n + 4) + zero_init_views(start + 8 * n + 8, n) + single_zero_views(
        start + 9 * n + 8,
        3 * n + 4,
    )
}

/// `w16 + s0 + w7 + s1` with three adders.
fn get_wi(b: &mut CircuitBuilder, w16: QubitRegister, s0: QubitRegister, w7: QubitRegister, s1: QubitRegister) -> (out: (
    QubitRegister,
    QubitRegister,
    QubitRegister,
    QubitRegister,
    QubitRegister,
    Vec<InitState>,
))
    requires
        w16@.len() > 0,
        w16@.len() <= s0@.len(),
        w16@.len() <= w7@.len(),
        w16@.len() <= s1@.len(),
        old(b).allocated() + 12 * w16@.len() + 12 <= u64::MAX,
    ensures
        out.0@ == w16@,
        out.1@ == s0@,
        out.2@ == w7@,
        out.3@ == s1@,
        out.4@ == fresh(old(b).allocated() + 8 * w16@.len() + 8, w16@.len()),
        init_views(out.5@) == wi_init_views(old(b).allocated(), w16@.len()),
        final(b).allocated() == old(b).allocated() + 12 * w16@.len() + 12,
        final(b).log() == old(b).log() + wi_gates(w16@, s0@, w7@, s1@, old(b).allocated()),
{
    let ghost start = old(b).allocated();
    let ghost n = w16@.len();
    let mut init: Vec<InitState> = Vec::new();
    let (w16, s0, buff1, init_buff) = register_sum(b, w16, s0);
    append_inits(&mut init, init_buff);
    let (buff1, w7, buff2, init_buff) = register_sum(b, buff1, w7);
    append_inits(&mut init, init_buff);
    let (buff2, s1, buff3, init_buff) = register_sum(b, buff2, s1);
    append_inits(&mut init, init_buff);
    proof {
        assert(init_views(init@) =~= wi_init_views(start, n));
        assert_seqs_equal!(b.log(), old(b).log() + wi_gates(w16@, s0@, w7@, s1@, start));
    }
    (w16, s0, w7, s1, buff3, init)
}


// ---------------------------------------------------------------------------
// The word map
// ---------------------------------------------------------------------------

/// Pools of words keyed by `(region, i)`. The only keys that are ever filled
/// are `i < 16` for all regions below some bound, so a pool is found by the
/// one key `16 * region + i`, and the keys `0 .. size` cover whole regions.
pub struct WordsMap {
    pools: HashMap<u64, Vec<QubitRegister>>,
    size: u64,
}

impl View for WordsMap {
    type V = Seq<Seq<Seq<u64>>>;

    closed spec fn view(&self) -> Seq<Seq<Seq<u64>>> {
        Seq::new(self.size as nat, |k: int| register_views(self.pools@[k as u64]@))
    }
}

/// The map has a pool for `(region, i)`.
pub open spec fn has_key(m: Seq<Seq<Seq<u64>>>, region: u64, i: u64) -> bool {
    i < 16 && region < m.len() / 16
}

proof fn lemma_key_index(len: nat, region: u64, i: u64)
    requires
        i < 16,
        region < len / 16,
    ensures
        16 * region + i < len,
{
    assert(16 * (len / 16) <= len) by (nonlinear_arith);
    assert(16 * region + 16 <= 16 * (len / 16)) by (nonlinear_arith)
        requires
            region < len / 16,
    ;
}

/// The map has a non-empty pool for `(region, i)`.
pub open spec fn has_word(m: Seq<Seq<Seq<u64>>>, region: u64, i: u64) -> bool {
    has_key(m, region, i) && m[16 * region + i].len() > 0
}

/// The last word of the pool `(region, i)`.
pub open spec fn top_word(m: Seq<Seq<Seq<u64>>>, region: u64, i: u64) -> Seq<u64> {
    m[16 * region + i].last()
}

/// The map after `insert_words_in_map` with `ws`: with `R = ws.len() / 16`,
/// the pool `k < 16 R` gets `ws[ws.len() - 1 - k]` appended (the words are
/// taken from the end), missing pools are created.
pub open spec fn inserted_view(m: Seq<Seq<Seq<u64>>>, ws: Seq<Seq<u64>>) -> Seq<Seq<Seq<u64>>> {
    filled_prefix(m, ws, 16 * (ws.len() / 16))
}

impl WordsMap {
    /// The keys `0 .. size` cover whole regions, and each has a pool.
    pub closed spec fn wf(&self) -> bool {
        &&& self.size % 16 == 0
        &&& forall|k: u64| k < self.size ==> #[trigger] self.pools@.contains_key(k)
    }

    pub fn new() -> (m: Self)
        ensures
            m.wf(),
            m@ == Seq::<Seq<Seq<u64>>>::empty(),
    {
        let m = WordsMap { pools: HashMap::new(), size: 0 };
        assert(m@ =~= Seq::<Seq<Seq<u64>>>::empty());
        m
    }

    /// Whether the map has a pool for `(region, i)`.
    pub fn contains_key(&self, region: u64, i: u64) -> (r: bool)
        ensures
            r == has_key(self@, region, i),
    {
        i < 16 && region < self.size / 16
    }

    /// The pool with key `k` taken out of the map.
    fn take_pool(&mut self, k: u64) -> (pool: Vec<QubitRegister>)
        requires
            k < old(self).size,
            forall|j: u64| j < old(self).size ==> #[trigger] old(self).pools@.contains_key(j),
        ensures
            register_views(pool@) == register_views(old(self).pools@[k]@),
            final(self).size == old(self).size,
            final(self).pools@ == old(self).pools@.remove(k),
    {
        broadcast use vstd::std_specs::hash::group_hash_axioms;

        assert(self.pools@.contains_key(k));
        let pool = self.pools.remove(&k);
        match pool {
            Some(p) => p,
            None => {
                assert(false);
                Vec::new()
            },
        }
    }

    /// The key of the pool `(region, i)`.
    fn key_of(&self, region: u64, i: u64) -> (k: u64)
        requires
            has_key(self@, region, i),
        ensures
            k == 16 * region + i,
            k < self.size,
    {
        proof {
            lemma_key_index(self.size as nat, region, i);
        }
        16 * region + i
    }

    /// Puts the pool with key `k` back after `take_pool`.
    fn put_pool(&mut self, k: u64, pool: Vec<QubitRegister>)
        requires
            k < old(self).size,
            old(self).size % 16 == 0,
            forall|j: u64| j < old(self).size && j != k ==> #[trigger] old(self).pools@.contains_key(j),
        ensures
            final(self).wf(),
            final(self).size == old(self).size,
            final(self).pools@ == old(self).pools@.insert(k, pool),
            final(self)@ == Seq::new(
                old(self).size as nat,
                |j: int| register_views(old(self).pools@[j as u64]@),
            ).update(k as int, register_views(pool@)),
    {
        broadcast use vstd::std_specs::hash::group_hash_axioms;

        self.pools.insert(k, pool);
        assert(self@ =~= Seq::new(old(self).size as nat, |j: int| register_views(old(self).pools@[j as u64]@)).update(
            k as int,
            register_views(pool@),
        ));
    }

    /// Takes the last word of the pool `(region, i)`, if there is one.
    pub fn pop_word(&mut self, region: u64, i: u64) -> (r: Option<QubitRegister>)
        requires
            old(self).wf(),
        ensures
            final(self).wf(),
            has_word(old(self)@, region, i) ==> r is Some && r.unwrap()@ == top_word(old(self)@, region, i)
                && final(self)@ == old(self)@.update(16 * region + i, old(self)@[16 * region + i].drop_last()),
            !has_word(old(self)@, region, i) ==> r is None && final(self)@ == old(self)@,
    {
        broadcast use vstd::std_specs::hash::group_hash_axioms;

        if !self.contains_key(region, i) {
            return None;
        }
        let ghost view0 = self@;
        let k = self.key_of(region, i);
        let mut pool = self.take_pool(k);
        let ghost taken = pool@;
        let r = pool.pop();
        let ghost popped = pool@;
        proof {
            assert(view0 =~= Seq::new(self.size as nat, |j: int| register_views(self.pools@[j as u64]@)).update(
                k as int,
                view0[k as int],
            ));
        }
        self.put_pool(k, pool);
        proof {
            if taken.len() > 0 {
                assert(register_views(popped) =~= register_views(taken).drop_last());
            } else {
                assert(popped =~= taken);
                assert(self@ =~= view0);
            }
        }
        r
    }

    /// Appends `w` to the pool `(region, i)`, which must exist.
    pub fn push_word(&mut self, region: u64, i: u64, w: QubitRegister)
        requires
            old(self).wf(),
            has_key(old(self)@, region, i),
        ensures
            final(self).wf(),
            final(self)@ == old(self)@.update(16 * region + i, old(self)@[16 * region + i].push(w@)),
    {
        broadcast use vstd::std_specs::hash::group_hash_axioms;

        let ghost view0 = self@;
        let k = self.key_of(region, i);
        let mut pool = self.take_pool(k);
        let ghost taken = pool@;
        let ghost wv = w@;
        pool.push(w);
        let ghost pushed = pool@;
        proof {
            assert(view0 =~= Seq::new(self.size as nat, |j: int| register_views(self.pools@[j as u64]@)).update(
                k as int,
                view0[k as int],
            ));
            assert(register_views(pushed) =~= register_views(taken).push(wv));
        }
        self.put_pool(k, pool);
    }
}

/// The map `m` after the first `k` words, taken from the end of `ws`, have
/// been appended to the pools `0 .. k`.
pub open spec fn filled_prefix(m: Seq<Seq<Seq<u64>>>, ws: Seq<Seq<u64>>, k: nat) -> Seq<Seq<Seq<u64>>> {
    Seq::new(
        if m.len() >= k { m.len() } else { k },
        |j: int|
            (if j < m.len() { m[j] } else { Seq::empty() }) + (if j < k { seq![ws[ws.len() - 1 - j]] } else { Seq::empty() }),
    )
}

/// Puts the words of whole regions into the map: with `R = words.len() / 16`,
/// word `words.len() - 1 - (16 r + i)` goes to the pool `(r, i)` for `r < R`
/// and `i < 16` (the words are taken from the end); the rest is dropped.
pub fn insert_words_in_map(words: Vec<QubitRegister>, full_map: &mut WordsMap)
    requires
        old(full_map).wf(),
    ensures
        final(full_map).wf(),
        final(full_map)@ == inserted_view(old(full_map)@, register_views(words@)),
{
    broadcast use vstd::std_specs::hash::group_hash_axioms;

    let ghost m = old(full_map)@;
    let ghost ws = register_views(words@);
    let ghost l = words@.len();
    let regions_amount = words.len() / 16;
    let total = regions_amount * 16;
    let mut words = words;
    let mut k: usize = 0;
    while k < total
        invariant
            k <= total,
            total == 16 * (l / 16),
            total <= l,
            l == ws.len(),
            m.len() % 16 == 0,
            words@.len() == l - k,
            forall|j: int| 0 <= j < l - k ==> #[trigger] words@[j]@ == ws[j],
            full_map.size % 16 == 0 || full_map.size == k,
            forall|j: u64| j < full_map.size ==> #[trigger] full_map.pools@.contains_key(j),
            full_map.size == if m.len() >= k { m.len() } else { k as nat },
            full_map@ == filled_prefix(m, ws, k as nat),
        decreases total - k,
    {
        let reg = words.pop().unwrap();
        let ghost rv = reg@;
        assert(rv == ws[l - 1 - k]);
        let ghost before = full_map@;
        let ghost next = filled_prefix(m, ws, (k + 1) as nat);
        let key = k as u64;
        if key < full_map.size {
            assert(before =~= Seq::new(
                full_map.size as nat,
                |j: int| register_views(full_map.pools@[j as u64]@),
            ).update(key as int, before[key as int]));
            let mut pool = full_map.take_pool(key);
            pool.push(reg);
            let ghost pushed = pool@;
            proof {
                assert(register_views(pushed) =~= before[k as int].push(rv));
            }
            full_map.put_pool(key, pool);
            proof {
                assert(full_map@ =~= before.update(k as int, before[k as int].push(rv)));
                assert(next.len() == before.len());
                assert forall|j: int| 0 <= j < next.len() implies #[trigger] next[j] == full_map@[j] by {
                    if j == k {
                        assert(before[j] =~= m[j] + Seq::<Seq<u64>>::empty());
                        assert(next[j] =~= m[j] + seq![ws[l - 1 - j]]);
                    }
                }
                assert(full_map@ =~= next);
            }
        } else {
            let pool = vec![reg];
            let ghost pv = pool@;
            let ghost pools0 = full_map.pools@;
            full_map.pools.insert(key, pool);
            full_map.size = full_map.size + 1;
            proof {
                assert(register_views(pv) =~= seq![rv]);
                assert forall|j: int| 0 <= j < before.len() implies #[trigger] full_map@[j] == before[j] by {
                    assert(j as u64 != key);
                }
                assert(full_map@ =~= before.push(seq![rv]));
                assert(next.len() == k + 1);
                assert forall|j: int| 0 <= j < next.len() implies #[trigger] next[j] == full_map@[j] by {
                    if j == k {
                        assert(next[j] =~= Seq::<Seq<u64>>::empty() + seq![ws[l - 1 - j]]);
                    }
                }
                assert(full_map@ =~= next);
            }
        }
        k += 1;
    }
}

/// The gates of `parse_data_into_words` on `reg` for its first `k` words:
/// word `w` swaps the qubits `32 w .. 32 w + 32` of `reg` with the fresh word
/// register at `start + 32 w`.
pub open spec fn parse_gates(reg: Seq<u64>, start: nat, k: nat) -> Seq<GateSpec>
    decreases k,
{
    if k == 0 {
        Seq::empty()
    } else {
        parse_gates(reg, start, (k - 1) as nat) + swap_gates(
            reg.subrange(32 * (k - 1), (32 * k) as int),
            fresh((start + 32 * (k - 1)) as nat, 32),
        )
    }
}

/// The fresh word registers of `parse_data_into_words`.
pub open spec fn parsed_words(start: nat, count: nat) -> Seq<Seq<u64>> {
    Seq::new(count, |w: int| fresh((start + 32 * w) as nat, 32))
}

/// Moves the data of `reg` into fresh 32-qubit word registers, one per whole
/// 32 qubits, by swapping.
pub fn parse_data_into_words(b: &mut CircuitBuilder, reg: QubitRegister) -> (out: (Vec<QubitRegister>, Vec<InitState>))
    requires
        old(b).allocated() + 32 * (reg@.len() / 32) <= u64::MAX,
    ensures
        register_views(out.0@) == parsed_words(old(b).allocated(), reg@.len() / 32),
        init_views(out.1@) == zero_init_views(old(b).allocated(), 32 * (reg@.len() / 32)),
        final(b).allocated() == old(b).allocated() + 32 * (reg@.len() / 32),
        final(b).log() == old(b).log() + parse_gates(reg@, old(b).allocated(), reg@.len() / 32),
{
    let ghost start = old(b).allocated();
    let mut init: Vec<InitState> = Vec::new();
    let n: usize = reg.qubits.len();
    let words_amount = n / 32;
    let mut words: Vec<QubitRegister> = Vec::new();
    let mut i: usize = 0;
    assert(32 * (n / 32) <= n) by (nonlinear_arith);
    while i < words_amount
        invariant
            i <= words_amount,
            words_amount == reg@.len() / 32,
            32 * words_amount <= n,
            n == reg@.len(),
            start + 32 * words_amount <= u64::MAX,
            b.allocated() == start + 32 * i,
            b.log() == old(b).log() + parse_gates(reg@, start, i as nat),
            register_views(words@) == parsed_words(start, i as nat),
            init_views(init@) == zero_init_views(start, (32 * i) as nat),
        decreases words_amount - i,
    {
        let (word, init_buff) = zeroed_register(b, 32);
        let part = sub_register(&reg, i * 32, (i + 1) * 32);
        let out = swap_wrapper(b, vec![part, word]);
        let mut out = out;
        let word = out.pop().unwrap();
        let ghost wv = word@;
        let ghost before = words@;
        words.push(word);
        append_inits(&mut init, init_buff);
        proof {
            assert(register_views(words@) =~= register_views(before).push(wv));
            assert(register_views(words@) =~= parsed_words(start, (i + 1) as nat));
            assert(b.log() =~= old(b).log() + parse_gates(reg@, start, (i + 1) as nat));
            assert forall|k: int| 0 <= k < chunk_count_of(32 * (i + 1)) implies #[trigger] zero_init_views(
                start,
                (32 * (i + 1)) as nat,
            )[k] == (zero_init_views(start, (32 * i) as nat) + zero_init_views((start + 32 * i) as nat, 32))[k] by {
                assert(32 * (i + 1) / 8 == 4 * (i + 1));
                assert((32 * i) / 8 == 4 * i);
            }
            assert((32 * (i + 1)) / 8 == 4 * (i + 1));
            assert((32 * i) / 8 == 4 * i);
            assert(init_views(init@) =~= zero_init_views(start, (32 * (i + 1)) as nat));
        }
        i += 1;
    }
    (words, init)
}

pub open spec fn chunk_count_of(len: int) -> int {
    len / 8 + if len % 8 != 0 { 1int } else { 0int }
}

// ---------------------------------------------------------------------------
// Generating schedule words
// ---------------------------------------------------------------------------

/// Every word in the map has 32 qubits.
pub open spec fn words_ok(m: Seq<Seq<Seq<u64>>>) -> bool {
    forall|k: int, j: int| 0 <= k < m.len() && 0 <= j < m[k].len() ==> (#[trigger] m[k][j]).len() == 32
}

/// Word `i >= 16` of a region can be generated: the map has the words
/// `i - 15`, `i - 2`, `i - 16` and `i - 7` of that region.
pub open spec fn can_generate(m: Seq<Seq<Seq<u64>>>, region: u64, i: u64) -> bool {
    &&& i >= 16
    &&& has_word(m, region, (i - 15) as u64)
    &&& has_word(m, region, (i - 2) as u64)
    &&& has_word(m, region, (i - 16) as u64)
    &&& has_word(m, region, (i - 7) as u64)
}

/// The gates of generating a word from `w15`, `w2`, `w16`, `w7` with the
/// first fresh qubit at `start`: the two mixing circuits, then the sum.
pub open spec fn generated_gates(w15: Seq<u64>, w2: Seq<u64>, w16: Seq<u64>, w7: Seq<u64>, start: nat) -> Seq<GateSpec> {
    mix_gates(w15, start, 7, 18, 3) + mix_gates(w2, start + 160, 17, 19, 10) + wi_gates(
        w16,
        fresh(start + 128, 32),
        w7,
        fresh(start + 288, 32),
        start + 320,
    )
}

pub open spec fn generated_init_views(start: nat) -> Seq<(Seq<u64>, u64)> {
    mix_init_views(start, 32) + mix_init_views(start + 160, 32) + wi_init_views(start + 320, 32)
}

/// The qubits of a generated word.
pub open spec fn generated_word(start: nat) -> Seq<u64> {
    fresh(start + 584, 32)
}

/// Qubits that generating one word allocates.
pub open spec fn generation_cost() -> nat {
    716
}

proof fn lemma_drop_push(s: Seq<Seq<u64>>)
    requires
        s.len() > 0,
    ensures
        s.drop_last().push(s.last()) == s,
{
    assert(s.drop_last().push(s.last()) =~= s);
}

/// Generates word `i` of `region` from the words `i - 15`, `i - 2`, `i - 16`
/// and `i - 7` of that region, which are taken from their pools and put back.
/// Returns `None`, with the map and the circuit unchanged, where one of them
/// is missing.
fn try_generate_word(b: &mut CircuitBuilder, full_map: &mut WordsMap, region: u64, i: u64) -> (r: Option<
    (QubitRegister, Vec<InitState>),
>)
    requires
        i >= 16,
        old(full_map).wf(),
        words_ok(old(full_map)@),
        old(b).allocated() + generation_cost() <= u64::MAX,
    ensures
        final(full_map).wf(),
        final(full_map)@ == old(full_map)@,
        can_generate(old(full_map)@, region, i) ==> r is Some && ({
            let m = old(full_map)@;
            let start = old(b).allocated();
            &&& r.unwrap().0@ == generated_word(start)
            &&& init_views(r.unwrap().1@) == generated_init_views(start)
            &&& final(b).allocated() == start + generation_cost()
            &&& final(b).log() == old(b).log() + generated_gates(
                top_word(m, region, (i - 15) as u64),
                top_word(m, region, (i - 2) as u64),
                top_word(m, region, (i - 16) as u64),
                top_word(m, region, (i - 7) as u64),
                start,
            )
        }),
        !can_generate(old(full_map)@, region, i) ==> r is None && final(b).allocated() == old(b).allocated()
            && final(b).log() == old(b).log(),
{
    let ghost m = full_map@;
    let ghost start = b.allocated();
    let word15 = match full_map.pop_word(region, i - 15) {
        None => {
            return None;
        },
        Some(w) => w,
    };
    let ghost m1 = full_map@;
    let word2 = match full_map.pop_word(region, i - 2) {
        None => {
            full_map.push_word(region, i - 15, word15);
            proof {
                lemma_drop_push(m[16 * region + i - 15]);
                assert(full_map@ =~= m);
            }
            return None;
        },
        Some(w) => w,
    };
    let ghost m2 = full_map@;
    let word16 = match full_map.pop_word(region, i - 16) {
        None => {
            full_map.push_word(region, i - 15, word15);
            full_map.push_word(region, i - 2, word2);
            proof {
                lemma_drop_push(m[16 * region + i - 15]);
                lemma_drop_push(m[16 * region + i - 2]);
                assert(full_map@ =~= m);
            }
            return None;
        },
        Some(w) => w,
    };
    let word7 = match full_map.pop_word(region, i - 7) {
        None => {
            full_map.push_word(region, i - 15, word15);
            full_map.push_word(region, i - 2, word2);
            full_map.push_word(region, i - 16, word16);
            proof {
                lemma_drop_push(m[16 * region + i - 15]);
                lemma_drop_push(m[16 * region + i - 2]);
                lemma_drop_push(m[16 * region + i - 16]);
                assert(full_map@ =~= m);
            }
            return None;
        },
        Some(w) => w,
    };
    proof {
        assert(word15@ == top_word(m, region, (i - 15) as u64));
        assert(word15@.len() == 32);
        assert(word2@.len() == 32);
        assert(word16@.len() == 32);
        assert(word7@.len() == 32);
        assert(7u64 % 32u64 == 7 && 18u64 % 32u64 == 18 && 17u64 % 32u64 == 17 && 19u64 % 32u64 == 19) by (bit_vector);
    }
    let mut init: Vec<InitState> = Vec::new();
    let (word15, s0, init_buff) = get_s0(b, word15);
    append_inits(&mut init, init_buff);
    let (word2, s1, init_buff) = get_s1(b, word2);
    append_inits(&mut init, init_buff);
    let (word16, s0, word7, s1, wi, init_buff) = get_wi(b, word16, s0, word7, s1);
    append_inits(&mut init, init_buff);
    full_map.push_word(region, i - 16, word16);
    full_map.push_word(region, i - 15, word15);
    full_map.push_word(region, i - 7, word7);
    full_map.push_word(region, i - 2, word2);
    proof {
        lemma_drop_push(m[16 * region + i - 15]);
        lemma_drop_push(m[16 * region + i - 2]);
        lemma_drop_push(m[16 * region + i - 16]);
        lemma_drop_push(m[16 * region + i - 7]);
        assert(full_map@ =~= m);
        assert(init_views(init@) =~= generated_init_views(start));
        assert(b.log() =~= old(b).log() + generated_gates(
            top_word(m, region, (i - 15) as u64),
            top_word(m, region, (i - 2) as u64),
            top_word(m, region, (i - 16) as u64),
            top_word(m, region, (i - 7) as u64),
            start,
        ));
    }
    Some((wi, init))
}

// ---------------------------------------------------------------------------
// The words provider
// ---------------------------------------------------------------------------

/// What `get_word` does from a map `m`, the layers `layers` that are left
/// and the next fresh qubit `next`: the word it hands out, the map, layers,
/// next fresh qubit after it, and the gates and initial states it adds.
/// `ok` is false where fetching the word cannot be done: a word number out of
/// range, no layer left to parse, or no qubit numbers left.
pub struct WordFetch {
    pub ok: bool,
    pub word: Seq<u64>,
    pub map: Seq<Seq<Seq<u64>>>,
    pub layers: Seq<Seq<u64>>,
    pub next: nat,
    pub gates: Seq<GateSpec>,
    pub inits: Seq<(Seq<u64>, u64)>,
}

pub open spec fn failed_fetch(m: Seq<Seq<Seq<u64>>>, layers: Seq<Seq<u64>>, next: nat) -> WordFetch {
    WordFetch { ok: false, word: Seq::empty(), map: m, layers, next, gates: Seq::empty(), inits: Seq::empty() }
}

/// Word `i` of `region`: taken from its pool where the pool has one;
/// generated from earlier words where `16 <= i < 64` and those are there;
/// otherwise the last layer is parsed into words, they are put into the
/// map, and the search starts again.
pub open spec fn fetch_word(m: Seq<Seq<Seq<u64>>>, layers: Seq<Seq<u64>>, next: nat, region: u64, i: u64) -> WordFetch
    decreases layers.len(),
{
    if has_word(m, region, i) {
        WordFetch {
            ok: true,
            word: top_word(m, region, i),
            map: m.update(16 * region + i, m[16 * region + i].drop_last()),
            layers,
            next,
            gates: Seq::empty(),
            inits: Seq::empty(),
        }
    } else if i >= 64 {
        failed_fetch(m, layers, next)
    } else if can_generate(m, region, i) {
        if next + generation_cost() <= u64::MAX {
            WordFetch {
                ok: true,
                word: generated_word(next),
                map: m,
                layers,
                next: next + generation_cost(),
                gates: generated_gates(
                    top_word(m, region, (i - 15) as u64),
                    top_word(m, region, (i - 2) as u64),
                    top_word(m, region, (i - 16) as u64),
                    top_word(m, region, (i - 7) as u64),
                    next,
                ),
                inits: generated_init_views(next),
            }
        } else {
            failed_fetch(m, layers, next)
        }
    } else if layers.len() == 0 {
        failed_fetch(m, layers, next)
    } else {
        let count = layers.last().len() / 32;
        if next + 32 * count + generation_cost() > u64::MAX {
            failed_fetch(m, layers, next)
        } else {
            let rest = fetch_word(
                inserted_view(m, parsed_words(next, count)),
                layers.drop_last(),
                next + 32 * count,
                region,
                i,
            );
            WordFetch {
                ok: rest.ok,
                word: rest.word,
                map: rest.map,
                layers: rest.layers,
                next: rest.next,
                gates: parse_gates(layers.last(), next, count) + rest.gates,
                inits: zero_init_views(next, 32 * count) + rest.inits,
            }
        }
    }
}

proof fn lemma_inserted_words_ok(m: Seq<Seq<Seq<u64>>>, ws: Seq<Seq<u64>>)
    requires
        words_ok(m),
        forall|j: int| 0 <= j < ws.len() ==> (#[trigger] ws[j]).len() == 32,
    ensures
        words_ok(inserted_view(m, ws)),
{
    let r = inserted_view(m, ws);
    assert forall|k: int, j: int| 0 <= k < r.len() && 0 <= j < r[k].len() implies (#[trigger] r[k][j]).len() == 32 by {
        let total = 16 * (ws.len() / 16);
        assert(16 * (ws.len() / 16) <= ws.len()) by (nonlinear_arith);
        let a: Seq<Seq<u64>> = if k < m.len() { m[k] } else { Seq::empty() };
        if j < a.len() {
            assert(r[k][j] == a[j]);
        } else {
            assert(r[k][j] == ws[ws.len() - 1 - k]);
        }
    }
}

/// Hands out 32-qubit words of the message schedule, keyed by region and
/// word number, parsing further layers of the main register when needed.
pub struct WordsProvider {
    words: WordsMap,
}

impl View for WordsProvider {
    type V = Seq<Seq<Seq<u64>>>;

    closed spec fn view(&self) -> Seq<Seq<Seq<u64>>> {
        self.words@
    }
}

impl WordsProvider {
    /// The pools cover whole regions.
    pub closed spec fn wf(&self) -> bool {
        self.words.wf()
    }

    pub fn init() -> (r: Self)
        ensures
            r.wf(),
            r@ == Seq::<Seq<Seq<u64>>>::empty(),
            words_ok(r@),
    {
        WordsProvider { words: WordsMap::new() }
    }

    /// Word `i` of `region`, as `fetch_word` describes, with the initial
    /// states of the qubits it allocated. The words it works with, generates
    /// and hands out have 32 qubits.
    #[verifier::rlimit(40)]
    pub fn get_word(&mut self, b: &mut CircuitBuilder, regs: &mut LayeredRegister, region: u64, i: u64) -> (out: (
        QubitRegister,
        Vec<InitState>,
    ))
        requires
            old(self).wf(),
            words_ok(old(self)@),
            old(regs).wf(),
            fetch_word(old(self)@, old(regs).layers_view(), old(b).allocated(), region, i).ok,
        ensures
            ({
                let f = fetch_word(old(self)@, old(regs).layers_view(), old(b).allocated(), region, i);
                &&& final(self).wf()
                &&& words_ok(final(self)@)
                &&& final(self)@ == f.map
                &&& out.0@ == f.word
                &&& f.word.len() == 32
                &&& init_views(out.1@) == f.inits
                &&& final(b).allocated() == f.next
                &&& final(b).log() == old(b).log() + f.gates
                &&& final(regs).wf()
                &&& final(regs).layers_view() == f.layers
                &&& final(regs).spec_current_layer() == old(regs).spec_current_layer() + (old(regs).layers_view().len()
                    - f.layers.len())
                &&& final(regs).spec_start_depth() == old(regs).spec_start_depth()
                &&& final(regs).spec_width() == old(regs).spec_width()
                &&& final(regs).spec_dif_range() == old(regs).spec_dif_range()
            }),
        decreases old(regs).layers_view().len(),
    {
        let ghost m = self@;
        let ghost layers = regs.layers_view();
        let ghost next = b.allocated();
        match self.words.pop_word(region, i) {
            Some(w) => {
                proof {
                    assert forall|k: int, j: int| 0 <= k < self@.len() && 0 <= j < self@[k].len() implies (
                    #[trigger] self@[k][j]).len() == 32 by {
                        assert(self@[k][j] == m[k][j]);
                    }
                }
                return (w, Vec::new());
            },
            None => {},
        }
        if i >= 16 {
            match try_generate_word(b, &mut self.words, region, i) {
                Some(val) => {
                    return val;
                },
                None => {},
            }
        }
        proof {
            regs.lemma_layers_left();
        }
        let layer = regs.pop_layer();
        let ghost count = layer@.len() / 32;
        let (words, init) = parse_data_into_words(b, layer);
        proof {
            assert forall|j: int| 0 <= j < register_views(words@).len() implies (#[trigger] register_views(words@)[j]).len() == 32 by {
                assert(register_views(words@)[j] == parsed_words(next, count)[j]);
            }
            lemma_inserted_words_ok(m, register_views(words@));
        }
        insert_words_in_map(words, &mut self.words);
        let (reg, init_buff) = self.get_word(b, regs, region, i);
        let mut init = init;
        append_inits(&mut init, init_buff);
        (reg, init)
    }

    /// Puts `word` back into the pool `(region, i)`, which must exist.
    pub fn return_word(&mut self, word: QubitRegister, region: u64, i: u64)
        requires
            old(self).wf(),
            has_key(old(self)@, region, i),
        ensures
            final(self).wf(),
            final(self)@ == old(self)@.update(16 * region + i, old(self)@[16 * region + i].push(word@)),
            words_ok(old(self)@) && word@.len() == 32 ==> words_ok(final(self)@),
    {
        let ghost m = self@;
        let ghost wv = word@;
        self.words.push_word(region, i, word);
        proof {
            assert forall|k: int, j: int|
                words_ok(m) && wv.len() == 32 && 0 <= k < self@.len() && 0 <= j < self@[k].len() implies (
            #[trigger] self@[k][j]).len() == 32 by {
                if k != 16 * region + i || j < m[k].len() {
                    assert(self@[k][j] == m[k][j]);
                } else {
                    assert(self@[k][j] == wv);
                }
            }
        }
    }
}

} // verus!
