use vstd::prelude::*;
use crate::searcher::data_preparer::{DataPreparer, DataPrepareResult};

verus! {

/// Classical preprocessing for the SHA-256 search: every complete 64-byte
/// block at the front of the message is folded into the chaining state
/// (the "service data"), and the incomplete tail is left for the oracle.
pub struct SHA256DataPreparer {}

// ---------------------------------------------------------------------------
// Word arithmetic
// ---------------------------------------------------------------------------

/// Rotation of a 32-bit word to the right by `n` places (`0 < n < 32`).
pub open spec fn rotr(x: u32, n: u32) -> u32 {
    ((x >> n) | (x << ((32 - n) as u32))) as u32
}

/// Addition modulo 2^32.
pub open spec fn wadd(x: u32, y: u32) -> u32 {
    ((x as int + y as int) % 0x1_0000_0000) as u32
}

/// The word whose least significant byte is `b0`.
pub open spec fn word_le(b0: u8, b1: u8, b2: u8, b3: u8) -> u32 {
    (b0 as int + b1 as int * 0x100 + b2 as int * 0x1_0000 + b3 as int * 0x100_0000) as u32
}

/// The word whose most significant byte is `b0`.
pub open spec fn word_be(b0: u8, b1: u8, b2: u8, b3: u8) -> u32 {
    word_le(b3, b2, b1, b0)
}

/// The four bytes of `x`, most significant first.
pub open spec fn be_bytes(x: u32) -> Seq<u8> {
    seq![
        (x as int / 0x100_0000) as u8,
        (x as int / 0x1_0000 % 0x100) as u8,
        (x as int / 0x100 % 0x100) as u8,
        (x as int % 0x100) as u8,
    ]
}

/// The words of `vars`, each written as four big-endian bytes, in order.
pub open spec fn words_be_bytes(vars: Seq<u32>) -> Seq<u8>
    decreases vars.len(),
{
    if vars.len() == 0 {
        Seq::empty()
    } else {
        words_be_bytes(vars.drop_last()) + be_bytes(vars.last())
    }
}

pub fn rotate_right32(x: u32, n: u32) -> (r: u32)
    requires
        0 < n < 32,
    ensures
        r == rotr(x, n),
{
    (x >> n) | (x << (32 - n))
}

pub fn add32(x: u32, y: u32) -> (r: u32)
    ensures
        r == wadd(x, y),
{
    x.wrapping_add(y)
}

/// Reads a word from `data[at..at + 4]`: with `little_endian` the first byte is
/// the least significant one, otherwise the most significant one.
pub fn load_word(data: &Vec<u8>, at: usize, little_endian: bool) -> (r: u32)
    requires
        at + 4 <= data.len(),
    ensures
        r == block_word(data@, at as int, 0, little_endian),
{
    let b0 = data[at] as u32;
    let b1 = data[at + 1] as u32;
    let b2 = data[at + 2] as u32;
    let b3 = data[at + 3] as u32;
    if little_endian {
        b0 + b1 * 0x100 + b2 * 0x1_0000 + b3 * 0x100_0000
    } else {
        b3 + b2 * 0x100 + b1 * 0x1_0000 + b0 * 0x100_0000
    }
}

// ---------------------------------------------------------------------------
// The block function
// ---------------------------------------------------------------------------

/// The chaining state the computation starts from.
pub open spec fn initial_vars() -> Seq<u32> {
    seq![
        0x6A09E667u32, 0xBB67AE85u32, 0x3C6EF372u32, 0xA54FF53Au32,
        0x510E527Fu32, 0x9B05688Cu32, 0x1F83D9ABu32, 0x5BE0CD19u32,
    ]
}

/// The 64 round constants.
pub open spec fn round_constants() -> Seq<u32> {
    seq![
        0x428A2F98u32, 0x71374491u32, 0xB5C0FBCFu32, 0xE9B5DBA5u32, 0x3956C25Bu32, 0x59F111F1u32, 0x923F82A4u32, 0xAB1C5ED5u32,
        0xD807AA98u32, 0x12835B01u32, 0x243185BEu32, 0x550C7DC3u32, 0x72BE5D74u32, 0x80DEB1FEu32, 0x9BDC06A7u32, 0xC19BF174u32,
        0xE49B69C1u32, 0xEFBE4786u32, 0x0FC19DC6u32, 0x240CA1CCu32, 0x2DE92C6Fu32, 0x4A7484AAu32, 0x5CB0A9DCu32, 0x76F988DAu32,
        0x983E5152u32, 0xA831C66Du32, 0xB00327C8u32, 0xBF597FC7u32, 0xC6E00BF3u32, 0xD5A79147u32, 0x06CA6351u32, 0x14292967u32,
        0x27B70A85u32, 0x2E1B2138u32, 0x4D2C6DFCu32, 0x53380D13u32, 0x650A7354u32, 0x766A0ABBu32, 0x81C2C92Eu32, 0x92722C85u32,
        0xA2BFE8A1u32, 0xA81A664Bu32, 0xC24B8B70u32, 0xC76C51A3u32, 0xD192E819u32, 0xD6990624u32, 0xF40E3585u32, 0x106AA070u32,
        0x19A4C116u32, 0x1E376C08u32, 0x2748774Cu32, 0x34B0BCB5u32, 0x391C0CB3u32, 0x4ED8AA4Au32, 0x5B9CCA4Fu32, 0x682E6FF3u32,
        0x748F82EEu32, 0x78A5636Fu32, 0x84C87814u32, 0x8CC70208u32, 0x90BEFFFAu32, 0xA4506CEBu32, 0xBEF9A3F7u32, 0xC67178F2u32,
    ]
}

/// Word `i` of the block that starts at byte `base` of `data`.
pub open spec fn block_word(data: Seq<u8>, base: int, i: int, little_endian: bool) -> u32 {
    let at = base + 4 * i;
    if little_endian {
        word_le(data[at], data[at + 1], data[at + 2], data[at + 3])
    } else {
        word_be(data[at], data[at + 1], data[at + 2], data[at + 3])
    }
}

/// The first mixing function of the message schedule (the last term is a
/// rotation by 3 places).
pub open spec fn sched_mix0(x: u32) -> u32 {
    rotr(x, 7) ^ rotr(x, 18) ^ rotr(x, 3)
}

/// The second mixing function of the message schedule (the last term is a
/// rotation by 10 places).
pub open spec fn sched_mix1(x: u32) -> u32 {
    rotr(x, 17) ^ rotr(x, 19) ^ rotr(x, 10)
}

/// Word `i` (`i < 64`) of the message schedule of one block.
pub open spec fn schedule_word(data: Seq<u8>, base: int, little_endian: bool, i: nat) -> u32
    decreases i,
{
    if i < 16 {
        block_word(data, base, i as int, little_endian)
    } else {
        wadd(
            wadd(
                wadd(
                    schedule_word(data, base, little_endian, (i - 16) as nat),
                    sched_mix0(schedule_word(data, base, little_endian, (i - 15) as nat)),
                ),
                schedule_word(data, base, little_endian, (i - 7) as nat),
            ),
            sched_mix1(schedule_word(data, base, little_endian, (i - 2) as nat)),
        )
    }
}

/// The 64 schedule words of the block at `base`.
pub open spec fn schedule(data: Seq<u8>, base: int, little_endian: bool) -> Seq<u32> {
    Seq::new(64, |i: int| schedule_word(data, base, little_endian, i as nat))
}

/// One round on the working state `st` (eight words) with schedule `w`.
/// The round reads the schedule words 4, 6 and 7 where the state words
/// e, g and h would stand, and the state words e and f in its choice term.
pub open spec fn round_step(st: Seq<u32>, w: Seq<u32>, i: int) -> Seq<u32> {
    let a = st[0];
    let b = st[1];
    let c = st[2];
    let d = st[3];
    let e = st[4];
    let f = st[5];
    let g = st[6];
    let sum0 = rotr(a, 2) ^ rotr(a, 13) ^ rotr(a, 22);
    let ma = (a & b) ^ (a & c) ^ (b & c);
    let t2 = wadd(sum0, ma);
    let sum1 = rotr(w[4], 6) ^ rotr(w[4], 11) ^ rotr(w[4], 25);
    let ch = (e & f) ^ ((w[4] ^ 0xFFFF_FFFFu32) & w[6]);
    let t1 = wadd(wadd(wadd(wadd(w[7], sum1), ch), round_constants()[i]), w[i]);
    seq![wadd(t1, t2), a, b, c, wadd(d, t1), e, f, g]
}

/// The working state after the first `n` rounds.
pub open spec fn rounds(st: Seq<u32>, w: Seq<u32>, n: nat) -> Seq<u32>
    decreases n,
{
    if n == 0 {
        st
    } else {
        round_step(rounds(st, w, (n - 1) as nat), w, n - 1)
    }
}

/// The chaining state after the block at `base`.
pub open spec fn compress_block(vars: Seq<u32>, data: Seq<u8>, base: int, little_endian: bool) -> Seq<u32> {
    let r = rounds(vars, schedule(data, base, little_endian), 64);
    Seq::new(8, |k: int| wadd(vars[k], r[k]))
}

/// The chaining state after the first `k` blocks of `data`.
pub open spec fn state_after_blocks(data: Seq<u8>, little_endian: bool, k: nat) -> Seq<u32>
    decreases k,
{
    if k == 0 {
        initial_vars()
    } else {
        compress_block(
            state_after_blocks(data, little_endian, (k - 1) as nat),
            data,
            64 * (k - 1),
            little_endian,
        )
    }
}

/// The bytes of `data` after its last complete 64-byte block.
pub open spec fn prepared_remains(data: Seq<u8>) -> Seq<u8> {
    data.subrange((64 * (data.len() / 64)) as int, data.len() as int)
}

/// The chaining state after all complete blocks, as 32 big-endian bytes.
pub open spec fn prepared_service(data: Seq<u8>, little_endian: bool) -> Seq<u8> {
    words_be_bytes(state_after_blocks(data, little_endian, data.len() / 64))
}

pub(crate) fn initial_vars_vec() -> (r: Vec<u32>)
    ensures
        r@ == initial_vars(),
{
    let r = vec![
        0x6A09E667u32, 0xBB67AE85u32, 0x3C6EF372u32, 0xA54FF53Au32,
        0x510E527Fu32, 0x9B05688Cu32, 0x1F83D9ABu32, 0x5BE0CD19u32,
    ];
    assert(r@ =~= initial_vars());
    r
}

pub(crate) fn round_constants_vec() -> (r: Vec<u32>)
    ensures
        r@ == round_constants(),
{
    let r = vec![
        0x428A2F98u32, 0x71374491u32, 0xB5C0FBCFu32, 0xE9B5DBA5u32, 0x3956C25Bu32, 0x59F111F1u32, 0x923F82A4u32, 0xAB1C5ED5u32,
        0xD807AA98u32, 0x12835B01u32, 0x243185BEu32, 0x550C7DC3u32, 0x72BE5D74u32, 0x80DEB1FEu32, 0x9BDC06A7u32, 0xC19BF174u32,
        0xE49B69C1u32, 0xEFBE4786u32, 0x0FC19DC6u32, 0x240CA1CCu32, 0x2DE92C6Fu32, 0x4A7484AAu32, 0x5CB0A9DCu32, 0x76F988DAu32,
        0x983E5152u32, 0xA831C66Du32, 0xB00327C8u32, 0xBF597FC7u32, 0xC6E00BF3u32, 0xD5A79147u32, 0x06CA6351u32, 0x14292967u32,
        0x27B70A85u32, 0x2E1B2138u32, 0x4D2C6DFCu32, 0x53380D13u32, 0x650A7354u32, 0x766A0ABBu32, 0x81C2C92Eu32, 0x92722C85u32,
        0xA2BFE8A1u32, 0xA81A664Bu32, 0xC24B8B70u32, 0xC76C51A3u32, 0xD192E819u32, 0xD6990624u32, 0xF40E3585u32, 0x106AA070u32,
        0x19A4C116u32, 0x1E376C08u32, 0x2748774Cu32, 0x34B0BCB5u32, 0x391C0CB3u32, 0x4ED8AA4Au32, 0x5B9CCA4Fu32, 0x682E6FF3u32,
        0x748F82EEu32, 0x78A5636Fu32, 0x84C87814u32, 0x8CC70208u32, 0x90BEFFFAu32, 0xA4506CEBu32, 0xBEF9A3F7u32, 0xC67178F2u32,
    ];
    assert(r@ =~= round_constants());
    r
}

/// The message schedule of the block at `base`.
pub fn message_schedule(data: &Vec<u8>, base: usize, little_endian: bool) -> (w: Vec<u32>)
    requires
        base + 64 <= data.len(),
    ensures
        w@ == schedule(data@, base as int, little_endian),
{
    let mut w: Vec<u32> = Vec::new();
    let mut i: usize = 0;
    while i < 16
        invariant
            base + 64 <= data.len(),
            i <= 16,
            w@.len() == i,
            forall|j: int| 0 <= j < i ==> w@[j] == schedule_word(data@, base as int, little_endian, j as nat),
        decreases 16 - i,
    {
        let x = load_word(data, base + 4 * i, little_endian);
        proof {
            assert(block_word(data@, (base + 4 * i) as int, 0, little_endian)
                == block_word(data@, base as int, i as int, little_endian));
        }
        w.push(x);
        i += 1;
    }
    while i < 64
        invariant
            16 <= i <= 64,
            w@.len() == i,
            forall|j: int| 0 <= j < i ==> w@[j] == schedule_word(data@, base as int, little_endian, j as nat),
        decreases 64 - i,
    {
        let x15 = w[i - 15];
        let x2 = w[i - 2];
        let s0 = rotate_right32(x15, 7) ^ rotate_right32(x15, 18) ^ rotate_right32(x15, 3);
        let s1 = rotate_right32(x2, 17) ^ rotate_right32(x2, 19) ^ rotate_right32(x2, 10);
        let x = add32(add32(add32(w[i - 16], s0), w[i - 7]), s1);
        w.push(x);
        i += 1;
    }
    assert(w@ =~= schedule(data@, base as int, little_endian));
    w
}

/// The 64 rounds on `vars` with schedule `w`.
pub fn compression_rounds(vars: &Vec<u32>, w: &Vec<u32>) -> (r: Vec<u32>)
    requires
        vars@.len() == 8,
        w@.len() == 64,
    ensures
        r@ == rounds(vars@, w@, 64),
{
    let k = round_constants_vec();
    let mut st: Vec<u32> = vars.clone();
    assert(st@ =~= rounds(vars@, w@, 0));
    let mut i: usize = 0;
    while i < 64
        invariant
            i <= 64,
            w@.len() == 64,
            k@ == round_constants(),
            st@ == rounds(vars@, w@, i as nat),
            st@.len() == 8,
        decreases 64 - i,
    {
        let a = st[0];
        let b = st[1];
        let c = st[2];
        let d = st[3];
        let e = st[4];
        let f = st[5];
        let g = st[6];
        let sum0 = rotate_right32(a, 2) ^ rotate_right32(a, 13) ^ rotate_right32(a, 22);
        let ma = (a & b) ^ (a & c) ^ (b & c);
        let t2 = add32(sum0, ma);
        let sum1 = rotate_right32(w[4], 6) ^ rotate_right32(w[4], 11) ^ rotate_right32(w[4], 25);
        let ch = (e & f) ^ ((w[4] ^ 0xFFFF_FFFFu32) & w[6]);
        let t1 = add32(add32(add32(add32(w[7], sum1), ch), k[i]), w[i]);
        let next = vec![add32(t1, t2), a, b, c, add32(d, t1), e, f, g];
        proof {
            assert(next@ =~= round_step(rounds(vars@, w@, i as nat), w@, i as int));
        }
        st = next;
        i += 1;
    }
    st
}

/// Folds the block at `base` into the chaining state `vars`.
pub fn process_block(vars: &Vec<u32>, data: &Vec<u8>, base: usize, little_endian: bool) -> (r: Vec<u32>)
    requires
        vars@.len() == 8,
        base + 64 <= data.len(),
    ensures
        r@ == compress_block(vars@, data@, base as int, little_endian),
{
    let w = message_schedule(data, base, little_endian);
    let buff = compression_rounds(vars, &w);
    let mut r: Vec<u32> = Vec::new();
    let mut k: usize = 0;
    while k < 8
        invariant
            k <= 8,
            vars@.len() == 8,
            buff@ == rounds(vars@, w@, 64),
            buff@.len() == 8,
            r@.len() == k,
            forall|j: int| 0 <= j < k ==> r@[j] == wadd(vars@[j], buff@[j]),
        decreases 8 - k,
    {
        r.push(add32(vars[k], buff[k]));
        k += 1;
    }
    proof {
        lemma_rounds_len(vars@, w@, 64);
    }
    assert(r@ =~= compress_block(vars@, data@, base as int, little_endian));
    r
}

proof fn lemma_rounds_len(st: Seq<u32>, w: Seq<u32>, n: nat)
    requires
        st.len() == 8,
    ensures
        rounds(st, w, n).len() == 8,
    decreases n,
{
    if n > 0 {
        lemma_rounds_len(st, w, (n - 1) as nat);
    }
}

/// The words of `vars` as big-endian bytes.
pub fn words_to_be_bytes(vars: &Vec<u32>) -> (r: Vec<u8>)
    ensures
        r@ == words_be_bytes(vars@),
{
    let mut r: Vec<u8> = Vec::new();
    let mut i: usize = 0;
    while i < vars.len()
        invariant
            i <= vars@.len(),
            r@ == words_be_bytes(vars@.take(i as int)),
        decreases vars@.len() - i,
    {
        let x = vars[i];
        r.push((x / 0x100_0000) as u8);
        r.push((x / 0x1_0000 % 0x100) as u8);
        r.push((x / 0x100 % 0x100) as u8);
        r.push((x % 0x100) as u8);
        proof {
            assert(vars@.take(i + 1).drop_last() =~= vars@.take(i as int));
            assert(r@ =~= words_be_bytes(vars@.take(i as int)) + be_bytes(x));
        }
        i += 1;
    }
    assert(vars@.take(vars@.len() as int) =~= vars@);
    r
}

/// The preparation with a given byte order for reading message words.
pub fn prepare_in_byte_order(data: &Vec<u8>, little_endian: bool) -> (res: DataPrepareResult)
    ensures
        res.data_remains@ == prepared_remains(data@),
        res.service_data@ == prepared_service(data@, little_endian),
{
    let length = data.len();
    let parts_amount = length / 64;
    let mut vars = initial_vars_vec();
    let mut p: usize = 0;
    while p < parts_amount
        invariant
            length == data@.len(),
            parts_amount == length / 64,
            p <= parts_amount,
            vars@ == state_after_blocks(data@, little_endian, p as nat),
            vars@.len() == 8,
        decreases parts_amount - p,
    {
        assert(64 * p + 64 <= length) by (nonlinear_arith)
            requires
                p < parts_amount,
                parts_amount == length / 64,
        ;
        let next = process_block(&vars, data, 64 * p, little_endian);
        vars = next;
        p += 1;
    }
    assert(64 * parts_amount <= length) by (nonlinear_arith)
        requires
            parts_amount == length / 64,
    ;
    let work_length = 64 * parts_amount;
    let mut data_remains: Vec<u8> = Vec::new();
    let mut i: usize = work_length;
    while i < length
        invariant
            work_length <= i <= length,
            length == data@.len(),
            data_remains@ == data@.subrange(work_length as int, i as int),
        decreases length - i,
    {
        data_remains.push(data[i]);
        assert(data_remains@ =~= data@.subrange(work_length as int, i + 1));
        i += 1;
    }
    let service_data = words_to_be_bytes(&vars);
    DataPrepareResult { data_remains, service_data }
}

/// `u32::from_ne_bytes`: reads four bytes as a word in the byte order of the
/// machine. Its documentation promises one of the two byte orders; which one
/// depends on the target and is left open here.
#[verifier::external_body]
fn native_word(bytes: [u8; 4]) -> (r: u32)
    ensures
        r == word_le(bytes[0], bytes[1], bytes[2], bytes[3]) || r == word_be(bytes[0], bytes[1], bytes[2], bytes[3]),
{
    u32::from_ne_bytes(bytes)
}

/// Whether the machine stores words least significant byte first. Which
/// it does is a property of the target, so nothing is claimed of the result.
fn native_is_little_endian() -> (r: bool) {
    let probe = native_word([1u8, 0u8, 0u8, 0u8]);
    probe == 1
}

impl DataPreparer for SHA256DataPreparer {
    /// The tail after the whole blocks, and the state after the blocks with
    /// the message words read in one of the two byte orders.
    open spec fn prepares(&self, data: Seq<u8>, remains: Seq<u8>, service: Seq<u8>) -> bool {
        &&& remains == prepared_remains(data)
        &&& service == prepared_service(data, true) || service == prepared_service(data, false)
    }

    /// Message words are read in the byte order of the machine.
    fn prepare(&self, data: &Vec<u8>) -> (res: DataPrepareResult)
        ensures
            res.data_remains@ == prepared_remains(data@),
            res.service_data@ == prepared_service(data@, true)
                || res.service_data@ == prepared_service(data@, false),
    {
        let little = native_is_little_endian();
        prepare_in_byte_order(data, little)
    }
}

} // verus!
