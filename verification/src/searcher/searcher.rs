use vstd::prelude::*;
use vstd::assert_seqs_equal;
use crate::searcher::circuit::{
    fan_gates, hadamard_gates, not_gates, sub_register, CircuitBuilder, GateSpec, InitState, QubitRegister,
};
use crate::searcher::checker::Checker;
use crate::searcher::data_preparer::DataPreparer;
use crate::searcher::oracle::Oracle;
use crate::searcher::utils::{append_inits, layers_gates, mirror_gates, LayerOp, LayeredRegister};

verus! {

/// The main qubit usage assumed when the oracle does not name one.
pub const DEFAULT_MAIN_QUBIT_USAGE: usize = 10;

/// The gates of the diffusion step on the qubits `q` (at least two).
pub open spec fn diffuse_gates(q: Seq<u64>) -> Seq<GateSpec> {
    let last = seq![q[q.len() - 1]];
    hadamard_gates(q) + not_gates(q) + hadamard_gates(q) + not_gates(q) + hadamard_gates(last) + fan_gates(
        q.subrange(1, q.len() as int),
        seq![q[0]],
    ) + hadamard_gates(last) + not_gates(q) + hadamard_gates(q)
}

/// Hadamard on every qubit of the last register of `rs`.
fn hadamard_wrapper(b: &mut CircuitBuilder, rs: Vec<QubitRegister>) -> (out: Vec<QubitRegister>)
    requires
        rs@.len() >= 1,
    ensures
        out@.len() == 1,
        out@[0]@ == rs@[rs@.len() - 1]@,
        final(b).allocated() == old(b).allocated(),
        final(b).log() == old(b).log() + hadamard_gates(rs@[rs@.len() - 1]@),
{
    let mut rs = rs;
    let reg = rs.pop().unwrap();
    let reg = b.hadamard(reg);
    vec![reg]
}

/// X on every qubit of the last register of `rs`.
fn x_wrapper(b: &mut CircuitBuilder, rs: Vec<QubitRegister>) -> (out: Vec<QubitRegister>)
    requires
        rs@.len() >= 1,
    ensures
        out@.len() == 1,
        out@[0]@ == rs@[rs@.len() - 1]@,
        final(b).allocated() == old(b).allocated(),
        final(b).log() == old(b).log() + not_gates(rs@[rs@.len() - 1]@),
{
    let mut rs = rs;
    let reg = rs.pop().unwrap();
    let reg = b.x(reg);
    vec![reg]
}

/// Controlled not from the last register of `rs` onto every qubit of the one
/// before it; returns both merged, the control first.
fn cnot_wrapper(b: &mut CircuitBuilder, rs: Vec<QubitRegister>) -> (out: Vec<QubitRegister>)
    requires
        rs@.len() >= 2,
    ensures
        out@.len() == 1,
        out@[0]@ == rs@[rs@.len() - 1]@ + rs@[rs@.len() - 2]@,
        final(b).allocated() == old(b).allocated(),
        final(b).log() == old(b).log() + fan_gates(rs@[rs@.len() - 1]@, rs@[rs@.len() - 2]@),
{
    let mut rs = rs;
    let r1 = rs.pop().unwrap();
    let r2 = rs.pop().unwrap();
    let (r1, r2) = b.cnot(r1, r2);
    let mut q = r1.qubits;
    let mut q2 = r2.qubits;
    q.append(&mut q2);
    vec![QubitRegister { qubits: q }]
}

/// The diffusion step of the search on `qubits`.
pub fn diffuse(b: &mut CircuitBuilder, qubits: QubitRegister) -> (out: QubitRegister)
    requires
        qubits@.len() >= 2,
    ensures
        out@ == qubits@,
        final(b).allocated() == old(b).allocated(),
        final(b).log() == old(b).log() + diffuse_gates(qubits@),
{
    let ghost q = qubits@;
    let qubits = b.hadamard(qubits);
    let qubits = b.x(qubits);
    let len = qubits.qubits.len();
    let _ = hadamard_wrapper(b, vec![sub_register(&qubits, 0, len)]);
    let _ = x_wrapper(b, vec![sub_register(&qubits, 0, len)]);
    let _ = hadamard_wrapper(b, vec![sub_register(&qubits, len - 1, len)]);
    let _ = cnot_wrapper(b, vec![sub_register(&qubits, 0, 1), sub_register(&qubits, 1, len)]);
    let _ = hadamard_wrapper(b, vec![sub_register(&qubits, len - 1, len)]);
    let _ = x_wrapper(b, vec![sub_register(&qubits, 0, len)]);
    let _ = hadamard_wrapper(b, vec![sub_register(&qubits, 0, len)]);
    proof {
        assert(q.subrange(0, len as int) =~= q);
        assert(q.subrange(len - 1, len as int) =~= seq![q[len - 1]]);
        assert(q.subrange(0, 1) =~= seq![q[0]]);
        assert_seqs_equal!(b.log(), old(b).log() + diffuse_gates(q));
    }
    qubits
}

/// Hadamard on every qubit of `reg`.
pub fn func_hadamard(b: &mut CircuitBuilder, reg: QubitRegister) -> (out: QubitRegister)
    ensures
        out@ == reg@,
        final(b).allocated() == old(b).allocated(),
        final(b).log() == old(b).log() + hadamard_gates(reg@),
{
    b.hadamard(reg)
}

// ---------------------------------------------------------------------------
// The search
// ---------------------------------------------------------------------------

/// The main qubit usage of a search: the one the oracle names, else the
/// default.
pub open spec fn usage_or_default(named: Option<usize>) -> usize {
    match named {
        Some(v) => v,
        None => DEFAULT_MAIN_QUBIT_USAGE,
    }
}

/// `usage_or_default`.
pub fn main_qubit_usage(named: Option<usize>) -> (r: usize)
    ensures
        r == usage_or_default(named),
{
    match named {
        Some(val) => val,
        None => DEFAULT_MAIN_QUBIT_USAGE,
    }
}

/// The nonce size of epoch `epoch`: `start + epoch * step`, where the first
/// size and the step are 1 unless given.
pub open spec fn epoch_size(start_nonce_size: Option<u64>, step: Option<u64>, epoch: int) -> int {
    let s = match start_nonce_size {
        Some(v) => v as int,
        None => 1int,
    };
    let d = match step {
        Some(v) => v as int,
        None => 1int,
    };
    s + epoch * d
}

/// `epoch_size`, or `None` where it does not fit a `u64`.
pub fn epoch_nonce_size(start_nonce_size: Option<u64>, step: Option<u64>, epoch: u64) -> (r: Option<u64>)
    ensures
        epoch_size(start_nonce_size, step, epoch as int) <= u64::MAX ==> r == Some(
            epoch_size(start_nonce_size, step, epoch as int) as u64,
        ),
        epoch_size(start_nonce_size, step, epoch as int) > u64::MAX ==> r is None,
{
    let start_nonce_size = match start_nonce_size {
        None => 1,
        Some(val) => val,
    };
    let step = match step {
        None => 1,
        Some(val) => val,
    };
    match epoch.checked_mul(step) {
        None => {
            assert(epoch * step > u64::MAX);
            assert(start_nonce_size + epoch * step > u64::MAX);
            None
        },
        Some(grown) => start_nonce_size.checked_add(grown),
    }
}

/// The data the oracle works on: with a data preparer, its remainder, and
/// the oracle gets its service data; without one, the data itself, and the
/// oracle gets none.
pub fn prepare_search_data<P: DataPreparer, O: Oracle>(data: Vec<u8>, data_preparer: Option<&P>, oracle: &mut O) -> (r:
    Vec<u8>)
    ensures
        data_preparer is None ==> r@ == data@ && final(oracle).service() == old(oracle).default_service(),
        data_preparer matches Some(p) ==> p.prepares(data@, r@, final(oracle).service()),
        final(oracle).default_service() == old(oracle).default_service(),
        final(oracle).main_usage() == old(oracle).main_usage(),
{
    match data_preparer {
        Some(prep) => {
            let prepared = prep.prepare(&data);
            oracle.set_service_data(Some(prepared.service_data));
            prepared.data_remains
        },
        None => {
            oracle.set_service_data(None);
            data
        },
    }
}

/// The gates of a Grover iteration after its prediction: the sign mirrored
/// onto the nonce range of every layer, then the diffusion step on it.
pub open spec fn grover_step_gates(sign: Seq<u64>, layers: Seq<Seq<u64>>, range: (u64, u64)) -> Seq<GateSpec> {
    mirror_gates(sign, layers, range.0 as int, range.1 as int) + layers_gates(
        LayerOp::Diffuse,
        layers,
        range.0 as int,
        range.1 as int,
    )
}

/// One Grover iteration of an epoch as `make_prediction` returned it: the
/// gates it added, the sign register, and the layers of the main register.
pub struct PredictionStep {
    pub gates: Seq<GateSpec>,
    pub sign: Seq<u64>,
    pub layers: Seq<Seq<u64>>,
}

/// An epoch as the oracle built it: the gates `init_main_data` added, the
/// layers of the main register it returned, and the iterations.
pub struct EpochTrace {
    pub setup: Seq<GateSpec>,
    pub init_layers: Seq<Seq<u64>>,
    pub steps: Seq<PredictionStep>,
}

/// The gates of the iterations `steps`: each prediction's gates, then the
/// prediction's sign mirrored onto the nonce range of the layers it
/// returned, then the diffusion step on them.
pub open spec fn iterations_log(steps: Seq<PredictionStep>, range: (u64, u64)) -> Seq<GateSpec>
    decreases steps.len(),
{
    if steps.len() == 0 {
        Seq::empty()
    } else {
        iterations_log(steps.drop_last(), range) + steps.last().gates + grover_step_gates(
            steps.last().sign,
            steps.last().layers,
            range,
        )
    }
}

/// The gates of an epoch: the set-up, Hadamard on the nonce range of every
/// layer of the main register, then the iterations.
pub open spec fn epoch_log(t: EpochTrace, range: (u64, u64)) -> Seq<GateSpec> {
    t.setup + layers_gates(LayerOp::Hadamard, t.init_layers, range.0 as int, range.1 as int) + iterations_log(
        t.steps,
        range,
    )
}

/// The layers of the main register before iteration `k`.
pub open spec fn layers_before(t: EpochTrace, k: int) -> Seq<Seq<u64>> {
    if k <= 0 {
        t.init_layers
    } else {
        t.steps[k - 1].layers
    }
}

/// Each prediction keeps a prefix of the layers it was given, uses up at
/// most `usage` of them, and returns a sign of at least one qubit.
pub open spec fn steps_follow(t: EpochTrace, usage: nat) -> bool {
    forall|k: int|
        0 <= k < t.steps.len() ==> {
            &&& (#[trigger] t.steps[k]).layers.is_prefix_of(layers_before(t, k))
            &&& layers_before(t, k).len() <= t.steps[k].layers.len() + usage
            &&& t.steps[k].sign.len() > 0
        }
}

/// The shape of the epoch `t` on the nonce range `range` (not empty): a main
/// register of `copies` layers, each of which holds the range, `iterations` predictions that use up at most
/// `usage` layers each, and `main_layers` left at the end.
pub open spec fn epoch_shape(
    t: EpochTrace,
    main_layers: Seq<Seq<u64>>,
    range: (u64, u64),
    copies: nat,
    iterations: nat,
    usage: nat,
) -> bool {
    &&& range.0 < range.1
    &&& forall|j: int| 0 <= j < t.init_layers.len() ==> range.1 <= (#[trigger] t.init_layers[j]).len()
    &&& t.init_layers.len() == copies
    &&& t.steps.len() == iterations
    &&& steps_follow(t, usage)
    &&& main_layers == layers_before(t, iterations as int)
}

/// Every iteration of `t` works on at least one layer.
pub open spec fn steps_have_layers(t: EpochTrace) -> bool {
    forall|k: int| 0 <= k < t.steps.len() ==> (#[trigger] t.steps[k]).layers.len() > 0
}

/// The range `start..end` can take the operation `op` on every layer of
/// `main_qubits`.
pub open spec fn range_fits(main_qubits: LayeredRegister, op: LayerOp, start: u64, end: u64) -> bool {
    &&& main_qubits.layers_view().len() > 0 ==> start < end <= main_qubits.spec_width()
    &&& main_qubits.layers_view().len() > 0 && op is Diffuse ==> end - start >= 2
}

fn check_range(main_qubits: &LayeredRegister, op: &LayerOp, start: u64, end: u64) -> (r: bool)
    requires
        main_qubits.wf(),
    ensures
        r == range_fits(*main_qubits, *op, start, end),
{
    proof {
        main_qubits.lemma_layers_left();
    }
    if main_qubits.depth() == 0 {
        return true;
    }
    let width = main_qubits.width();
    match op {
        LayerOp::Hadamard => start < end && end <= width,
        LayerOp::Diffuse => start < end && end <= width && end - start >= 2,
    }
}

/// The start of an epoch on the main register the oracle set up: Hadamard
/// on the nonce range of every layer. Returns the register and its nonce
/// range; `None` exactly where the register has no nonce range or the range
/// does not fit its layers.
pub fn start_search(b: &mut CircuitBuilder, main_qubits: LayeredRegister) -> (r: Option<(LayeredRegister, (u64, u64))>)
    requires
        main_qubits.wf(),
    ensures
        r is None <==> (main_qubits.spec_dif_range() is None || !range_fits(
            main_qubits,
            LayerOp::Hadamard,
            main_qubits.spec_dif_range().unwrap().0,
            main_qubits.spec_dif_range().unwrap().1,
        )),
        r is None ==> final(b).allocated() == old(b).allocated() && final(b).log() == old(b).log(),
        r matches Some(v) ==> {
            let range = main_qubits.spec_dif_range().unwrap();
            &&& v.1 == range
            &&& v.0.wf()
            &&& v.0.layers_view() == main_qubits.layers_view()
            &&& v.0.spec_current_layer() == main_qubits.spec_current_layer()
            &&& v.0.spec_start_depth() == main_qubits.spec_start_depth()
            &&& v.0.spec_width() == main_qubits.spec_width()
            &&& v.0.spec_dif_range() == main_qubits.spec_dif_range()
            &&& final(b).allocated() == old(b).allocated()
            &&& final(b).log() == old(b).log() + layers_gates(
                LayerOp::Hadamard,
                main_qubits.layers_view(),
                range.0 as int,
                range.1 as int,
            )
        },
{
    let nonce_range = match main_qubits.get_dif_range() {
        None => {
            return None;
        },
        Some(val) => val,
    };
    if !check_range(&main_qubits, &LayerOp::Hadamard, nonce_range.0, nonce_range.1) {
        return None;
    }
    let main_qubits = main_qubits.apply_to_layers1_in_range(LayerOp::Hadamard, b, nonce_range.0, nonce_range.1);
    Some((main_qubits, nonce_range))
}

/// The rest of a Grover iteration after a prediction with sign `sign`: the
/// sign mirrored onto the nonce range of every layer, then the diffusion
/// step on it. `None` exactly where the range does not fit the layers.
pub fn grover_step(b: &mut CircuitBuilder, main_qubits: LayeredRegister, sign: QubitRegister, range: (u64, u64)) -> (r:
    Option<LayeredRegister>)
    requires
        main_qubits.wf(),
    ensures
        r is None <==> !range_fits(main_qubits, LayerOp::Diffuse, range.0, range.1),
        r is None ==> final(b).allocated() == old(b).allocated() && final(b).log() == old(b).log(),
        r matches Some(v) ==> {
            &&& v.wf()
            &&& v.layers_view() == main_qubits.layers_view()
            &&& v.spec_current_layer() == main_qubits.spec_current_layer()
            &&& v.spec_start_depth() == main_qubits.spec_start_depth()
            &&& v.spec_width() == main_qubits.spec_width()
            &&& v.spec_dif_range() == main_qubits.spec_dif_range()
            &&& final(b).allocated() == old(b).allocated()
            &&& final(b).log() == old(b).log() + mirror_gates(
                sign@,
                main_qubits.layers_view(),
                range.0 as int,
                range.1 as int,
            ) + layers_gates(LayerOp::Diffuse, main_qubits.layers_view(), range.0 as int, range.1 as int)
        },
{
    if !check_range(&main_qubits, &LayerOp::Diffuse, range.0, range.1) {
        return None;
    }
    let (main_qubits, _sign) = main_qubits.mirror_in_range(b, sign, range.0, range.1);
    Some(main_qubits.apply_to_layers1_in_range(LayerOp::Diffuse, b, range.0, range.1))
}

proof fn lemma_iterations_push(steps: Seq<PredictionStep>, step: PredictionStep, range: (u64, u64))
    ensures
        iterations_log(steps.push(step), range) == iterations_log(steps, range) + step.gates + grover_step_gates(
            step.sign,
            step.layers,
            range,
        ),
{
    assert(steps.push(step).drop_last() =~= steps);
}

proof fn lemma_push_step(t: EpochTrace, step: PredictionStep, usage: nat)
    requires
        steps_follow(t, usage),
        step.layers.is_prefix_of(layers_before(t, t.steps.len() as int)),
        layers_before(t, t.steps.len() as int).len() <= step.layers.len() + usage,
        step.sign.len() > 0,
    ensures
        ({
            let t1 = EpochTrace { setup: t.setup, init_layers: t.init_layers, steps: t.steps.push(step) };
            &&& steps_follow(t1, usage)
            &&& layers_before(t1, t1.steps.len() as int) == step.layers
            &&& steps_have_layers(t) && step.layers.len() > 0 ==> steps_have_layers(t1)
        }),
{
    let t1 = EpochTrace { setup: t.setup, init_layers: t.init_layers, steps: t.steps.push(step) };
    assert forall|j: int| 0 <= j < t1.steps.len() implies {
        &&& (#[trigger] t1.steps[j]).layers.is_prefix_of(layers_before(t1, j))
        &&& layers_before(t1, j).len() <= t1.steps[j].layers.len() + usage
        &&& t1.steps[j].sign.len() > 0
    } by {
        if j < t.steps.len() {
            assert(t1.steps[j] == t.steps[j]);
            assert(layers_before(t1, j) == layers_before(t, j));
        } else {
            assert(layers_before(t1, j) == layers_before(t, t.steps.len() as int));
        }
    }
    if steps_have_layers(t) && step.layers.len() > 0 {
        assert forall|j: int| 0 <= j < t1.steps.len() implies (#[trigger] t1.steps[j]).layers.len() > 0 by {
            if j < t.steps.len() {
                assert(t1.steps[j] == t.steps[j]);
            }
        }
    }
}

/// With `left` iterations to go and at least `copies * left + 1` layers, a
/// prediction that uses up at most `per <= copies` layers leaves at least
/// `copies * (left - 1) + 1`.
proof fn lemma_copies_left(copies: nat, per: nat, left: nat, before: nat, after: nat)
    requires
        per <= copies,
        left >= 1,
        before >= copies * left + 1,
        before <= after + per,
    ensures
        after >= copies * (left - 1) + 1,
        after > 0,
{
    assert(copies * left == copies * (left - 1) + copies) by (nonlinear_arith)
        requires
            left >= 1,
    ;
    assert(copies * (left - 1) >= 0) by (nonlinear_arith)
        requires
            left >= 1,
    ;
}

/// One epoch of the search, up to running the circuit: the main register
/// with `main_qubit_usage * iterations_amount + 1` copies of the data and a
/// nonce of `nonce_size_bits`, Hadamard on the nonce range of every copy,
/// then `iterations_amount` times a prediction, its sign mirrored onto the
/// nonce range, and the diffusion step on it. Returns the main register, the
/// initial states of the circuit, and what the oracle returned on the way;
/// the gates it added are `epoch_log` of that. `None` where a step cannot be
/// done: the number of copies does not fit a `usize`, the oracle cannot set
/// up the main register, or it cannot make a prediction.
pub fn search_epoch<O: Oracle>(
    b: &mut CircuitBuilder,
    oracle: &mut O,
    data: &Vec<u8>,
    nonce_size_bits: u64,
    main_qubit_usage: usize,
    iterations_amount: u64,
) -> (r: Option<(LayeredRegister, Vec<InitState>, Ghost<EpochTrace>)>)
    ensures
        main_qubit_usage * iterations_amount + 1 > usize::MAX ==> r is None,
        main_qubit_usage * iterations_amount + 1 <= usize::MAX && !old(oracle).main_data_ready(
            data@,
            nonce_size_bits,
            (main_qubit_usage * iterations_amount + 1) as usize,
            old(b).allocated(),
        ) ==> r is None,
        main_qubit_usage * iterations_amount + 1 <= usize::MAX && old(oracle).main_data_ready(
            data@,
            nonce_size_bits,
            (main_qubit_usage * iterations_amount + 1) as usize,
            old(b).allocated(),
        ) && iterations_amount == 0 ==> r is Some,
        r is None ==> main_qubit_usage * iterations_amount + 1 > usize::MAX || !old(oracle).main_data_ready(
            data@,
            nonce_size_bits,
            (main_qubit_usage * iterations_amount + 1) as usize,
            old(b).allocated(),
        ) || exists|o: O, m: LayeredRegister, next: nat|
            #![trigger o.prediction_ready(m, next)]
            o.service() == old(oracle).service() && m.wf() && !o.prediction_ready(m, next),
        r matches Some(v) ==> {
            let range = v.0.spec_dif_range().unwrap();
            let copies = (main_qubit_usage * iterations_amount + 1) as nat;
            &&& v.0.wf()
            &&& v.0.spec_dif_range() == Some(O::main_data_range(old(oracle).service(), data@, nonce_size_bits))
            &&& v.2@.setup == O::main_data_gates(
                old(oracle).service(),
                data@,
                nonce_size_bits,
                copies,
                old(b).allocated(),
            )
            &&& v.2@.init_layers == O::main_data_layers(
                old(oracle).service(),
                data@,
                nonce_size_bits,
                copies,
                old(b).allocated(),
            )
            &&& final(b).log() == old(b).log() + epoch_log(v.2@, range)
            &&& epoch_shape(
                v.2@,
                v.0.layers_view(),
                range,
                (main_qubit_usage * iterations_amount + 1) as nat,
                iterations_amount as nat,
                usage_or_default(old(oracle).main_usage()) as nat,
            )
            &&& main_qubit_usage >= usage_or_default(old(oracle).main_usage()) ==> steps_have_layers(v.2@)
        },
        final(oracle).service() == old(oracle).service(),
        final(oracle).default_service() == old(oracle).default_service(),
        final(oracle).main_usage() == old(oracle).main_usage(),
{
    assert(main_qubit_usage * iterations_amount <= usize::MAX * u64::MAX) by (nonlinear_arith)
        requires
            main_qubit_usage <= usize::MAX,
            iterations_amount <= u64::MAX,
    ;
    let copies = main_qubit_usage as u128 * iterations_amount as u128 + 1;
    if copies > usize::MAX as u128 {
        return None;
    }
    let usage = copies as usize;
    if !oracle.can_init_main_data(data, nonce_size_bits, usage, b.qubit_count()) {
        return None;
    }
    let (main_qubits, initial_state) = oracle.init_main_data(b, data, nonce_size_bits, usage);
    let mut initial_state = initial_state;
    let ghost after_init = b.log();
    let ghost setup = after_init.skip(old(b).log().len() as int);
    let ghost init_layers = main_qubits.layers_view();
    proof {
        main_qubits.lemma_layer_widths();
    }
    let ghost per = usage_or_default(old(oracle).main_usage()) as nat;
    let (mut main_qubits, nonce_range) = match start_search(b, main_qubits) {
        None => {
            return None;
        },
        Some(val) => val,
    };
    let ghost after_start = b.log();
    let ghost mut steps: Seq<PredictionStep> = Seq::empty();
    proof {
        assert(after_init =~= old(b).log() + setup);
        assert(iterations_log(steps, nonce_range) =~= Seq::<GateSpec>::empty());
        assert(b.log() =~= after_start + iterations_log(steps, nonce_range));
    }
    let mut k: u64 = 0;
    while k < iterations_amount
        invariant
            k <= iterations_amount,
            usage == main_qubit_usage * iterations_amount + 1,
            init_layers.len() == usage,
            nonce_range.0 < nonce_range.1,
            main_qubits.wf(),
            main_qubits.spec_dif_range() == Some(nonce_range),
            range_fits(main_qubits, LayerOp::Diffuse, nonce_range.0, nonce_range.1),
            after_init == old(b).log() + setup,
            after_start == after_init + layers_gates(
                LayerOp::Hadamard,
                init_layers,
                nonce_range.0 as int,
                nonce_range.1 as int,
            ),
            steps.len() == k,
            b.log() == after_start + iterations_log(steps, nonce_range),
            steps_follow(EpochTrace { setup, init_layers, steps }, per),
            main_qubits.layers_view() == layers_before(EpochTrace { setup, init_layers, steps }, k as int),
            main_qubit_usage >= per ==> main_qubits.layers_view().len() >= main_qubit_usage * (iterations_amount
                - k) + 1,
            main_qubit_usage >= per ==> steps_have_layers(EpochTrace { setup, init_layers, steps }),
            per == usage_or_default(old(oracle).main_usage()),
            nonce_range == O::main_data_range(old(oracle).service(), data@, nonce_size_bits),
            oracle.service() == old(oracle).service(),
            oracle.default_service() == old(oracle).default_service(),
            oracle.main_usage() == old(oracle).main_usage(),
        decreases iterations_amount - k,
    {
        if !oracle.can_predict(&main_qubits, b.qubit_count()) {
            return None;
        }
        let ghost before = b.log();
        let ghost given = main_qubits.layers_view();
        let (buff, res, init) = oracle.make_prediction(b, main_qubits);
        append_inits(&mut initial_state, init);
        let ghost after_prediction = b.log();
        let ghost step = PredictionStep {
            gates: after_prediction.skip(before.len() as int),
            sign: res@,
            layers: buff.layers_view(),
        };
        main_qubits = match grover_step(b, buff, res, nonce_range) {
            None => {
                return None;
            },
            Some(val) => val,
        };
        proof {
            let t0 = EpochTrace { setup, init_layers, steps };
            assert(after_prediction =~= before + step.gates);
            lemma_iterations_push(steps, step, nonce_range);
            assert(b.log() =~= after_start + iterations_log(steps.push(step), nonce_range));
            if main_qubit_usage >= per {
                lemma_copies_left(main_qubit_usage as nat, per, (iterations_amount - k) as nat, given.len(), step.layers.len());
            }
            lemma_push_step(t0, step, per);
            steps = steps.push(step);
        }
        k += 1;
    }
    proof {
        assert(b.log() =~= old(b).log() + epoch_log(EpochTrace { setup, init_layers, steps }, nonce_range));
    }
    Some((main_qubits, initial_state, Ghost(EpochTrace { setup, init_layers, steps })))
}

/// `circuit` and `main` are the circuit and main register of epoch `epoch`
/// of a search on the data `data` under the service data `service`: the
/// nonce size of the epoch (which fits a `u64`), a number of iterations that
/// `iterations_amount` gives for it, a main register of `usage` copies per
/// iteration and one more (a number that fits a `usize`) that the oracle set
/// up from `data` and that nonce size, and the gates of `epoch_log`, each
/// iteration working on at least one layer.
pub open spec fn epoch_circuit<O: Oracle, I: Fn(u64) -> u64>(
    iterations_amount: I,
    start_nonce_size: Option<u64>,
    step: Option<u64>,
    usage: nat,
    data: Seq<u8>,
    service: Seq<u8>,
    epoch: int,
    circuit: &CircuitBuilder,
    main: &LayeredRegister,
) -> bool {
    exists|nonce_size: u64, iterations: u64, t: EpochTrace|
        #![trigger call_ensures(iterations_amount, (nonce_size,), iterations), epoch_log(t, main.spec_dif_range().unwrap())]
        {
            let copies = (usage * iterations + 1) as nat;
            let range = main.spec_dif_range().unwrap();
            &&& epoch >= 0
            &&& epoch_size(start_nonce_size, step, epoch) == nonce_size
            &&& call_ensures(iterations_amount, (nonce_size,), iterations)
            &&& usage * iterations + 1 <= usize::MAX
            &&& main.spec_dif_range() == Some(O::main_data_range(service, data, nonce_size))
            &&& t.setup == O::main_data_gates(service, data, nonce_size, copies, 0)
            &&& t.init_layers == O::main_data_layers(service, data, nonce_size, copies, 0)
            &&& circuit.log() == epoch_log(t, range)
            &&& epoch_shape(t, main.layers_view(), range, copies, iterations as nat, usage)
            &&& steps_have_layers(t)
        }
}

/// `out` is a result that `get_result` gave on the circuit of epoch `epoch`
/// (`epoch_circuit`).
pub open spec fn epoch_outcome<O: Oracle, I, R>(
    iterations_amount: I,
    get_result: R,
    start_nonce_size: Option<u64>,
    step: Option<u64>,
    usage: nat,
    data: Seq<u8>,
    service: Seq<u8>,
    epoch: int,
    out: Seq<u8>,
) -> bool
    where
        I: Fn(u64) -> u64,
        R: Fn(&CircuitBuilder, &LayeredRegister, &Vec<InitState>) -> Option<Vec<u8>>,
{
    exists|circuit: &CircuitBuilder, main: &LayeredRegister, inits: &Vec<InitState>, res: Vec<u8>|
        #![trigger call_ensures(get_result, (circuit, main, inits), Some(res))]
        {
            &&& epoch_circuit::<O, I>(iterations_amount, start_nonce_size, step, usage, data, service, epoch, circuit, main)
            &&& call_ensures(get_result, (circuit, main, inits), Some(res))
            &&& res@ == out
        }
}

/// Epoch `epoch` of a search stops it: its nonce size does not fit a `u64`;
/// or, for a number of iterations that `iterations_amount` gives for it, its
/// copies of the main data do not fit a `usize`, or the oracle (with the
/// service data `service`) cannot set up the main register or cannot make a
/// prediction; or `get_result` gives no result on its circuit.
pub open spec fn epoch_failed<O: Oracle, I, R>(
    iterations_amount: I,
    get_result: R,
    start_nonce_size: Option<u64>,
    step: Option<u64>,
    usage: nat,
    data: Seq<u8>,
    service: Seq<u8>,
    epoch: int,
) -> bool
    where
        I: Fn(u64) -> u64,
        R: Fn(&CircuitBuilder, &LayeredRegister, &Vec<InitState>) -> Option<Vec<u8>>,
{
    &&& epoch >= 0
    &&& {
        ||| epoch_size(start_nonce_size, step, epoch) > u64::MAX
        ||| exists|nonce_size: u64, iterations: u64|
            #![trigger call_ensures(iterations_amount, (nonce_size,), iterations)]
            {
                &&& epoch_size(start_nonce_size, step, epoch) == nonce_size
                &&& call_ensures(iterations_amount, (nonce_size,), iterations)
                &&& {
                    ||| usage * iterations + 1 > usize::MAX
                    ||| exists|o: O, copies: usize|
                        #![trigger o.main_data_ready(data, nonce_size, copies, 0)]
                        {
                            &&& copies == usage * iterations + 1
                            &&& o.service() == service
                            &&& !o.main_data_ready(data, nonce_size, copies, 0)
                        }
                    ||| exists|o: O, m: LayeredRegister, next: nat|
                        #![trigger o.prediction_ready(m, next)]
                        o.service() == service && m.wf() && !o.prediction_ready(m, next)
                }
            }
        ||| exists|circuit: &CircuitBuilder, main: &LayeredRegister, inits: &Vec<InitState>|
            #![trigger call_ensures(get_result, (circuit, main, inits), None::<Vec<u8>>)]
            {
                &&& epoch_circuit::<O, I>(
                    iterations_amount,
                    start_nonce_size,
                    step,
                    usage,
                    data,
                    service,
                    epoch,
                    circuit,
                    main,
                )
                &&& call_ensures(get_result, (circuit, main, inits), None::<Vec<u8>>)
            }
    }
}

/// The epochs before `epoch` each gave a result that the checker rejected
/// (so there are none where there is no checker).
pub open spec fn rejected_before<O: Oracle, C: Checker, I, R>(
    checker: Option<C>,
    iterations_amount: I,
    get_result: R,
    start_nonce_size: Option<u64>,
    step: Option<u64>,
    usage: nat,
    data: Seq<u8>,
    service: Seq<u8>,
    epoch: int,
) -> bool
    where
        I: Fn(u64) -> u64,
        R: Fn(&CircuitBuilder, &LayeredRegister, &Vec<InitState>) -> Option<Vec<u8>>,
{
    &&& checker is None ==> epoch == 0
    &&& checker matches Some(c) ==> exists|rejected: Seq<Seq<u8>>|
        {
            &&& rejected.len() == epoch
            &&& forall|j: int|
                0 <= j < epoch ==> epoch_outcome::<O, I, R>(
                    iterations_amount,
                    get_result,
                    start_nonce_size,
                    step,
                    usage,
                    data,
                    service,
                    j,
                    #[trigger] rejected[j],
                ) && !c.accepts(rejected[j])
        }
}

/// What a search returns, with `remains` the data it handed the oracle (the
/// preparer's remainder of `data`, or `data` itself without a preparer) and
/// `service` the oracle's service data: a result is `get_result`'s on the
/// circuit of an epoch whose earlier epochs were all rejected; `None` comes
/// from an epoch that stopped the search (`epoch_failed`), or from a rejected
/// result in the last epoch that a `u64` can count, its earlier epochs all
/// rejected.
pub open spec fn search_outcome<P: DataPreparer, O: Oracle, C: Checker, I, R>(
    data_preparer: Option<P>,
    checker: Option<C>,
    iterations_amount: I,
    get_result: R,
    start_nonce_size: Option<u64>,
    step: Option<u64>,
    usage: nat,
    data: Seq<u8>,
    remains: Seq<u8>,
    service: Seq<u8>,
    r: Option<Vec<u8>>,
) -> bool
    where
        I: Fn(u64) -> u64,
        R: Fn(&CircuitBuilder, &LayeredRegister, &Vec<InitState>) -> Option<Vec<u8>>,
{
    &&& data_preparer matches Some(p) ==> p.prepares(data, remains, service)
    &&& data_preparer is None ==> remains == data
    &&& r matches Some(v) ==> exists|epoch: int|
        #![trigger epoch_outcome::<O, I, R>(iterations_amount, get_result, start_nonce_size, step, usage, remains, service, epoch, v@)]
        {
            &&& epoch_outcome::<O, I, R>(
                iterations_amount,
                get_result,
                start_nonce_size,
                step,
                usage,
                remains,
                service,
                epoch,
                v@,
            )
            &&& rejected_before::<O, C, I, R>(
                checker,
                iterations_amount,
                get_result,
                start_nonce_size,
                step,
                usage,
                remains,
                service,
                epoch,
            )
        }
    &&& r is None ==> exists|epoch: int|
        #![trigger rejected_before::<O, C, I, R>(checker, iterations_amount, get_result, start_nonce_size, step, usage, remains, service, epoch)]
        {
            &&& rejected_before::<O, C, I, R>(
                checker,
                iterations_amount,
                get_result,
                start_nonce_size,
                step,
                usage,
                remains,
                service,
                epoch,
            )
            &&& {
                ||| epoch_failed::<O, I, R>(
                    iterations_amount,
                    get_result,
                    start_nonce_size,
                    step,
                    usage,
                    remains,
                    service,
                    epoch,
                )
                ||| {
                    &&& epoch == u64::MAX
                    &&& checker matches Some(c)
                    &&& exists|out: Seq<u8>|
                        #![trigger epoch_outcome::<O, I, R>(iterations_amount, get_result, start_nonce_size, step, usage, remains, service, epoch, out)]
                        epoch_outcome::<O, I, R>(
                            iterations_amount,
                            get_result,
                            start_nonce_size,
                            step,
                            usage,
                            remains,
                            service,
                            epoch,
                            out,
                        ) && !c.accepts(out)
                }
            }
        }
}

/// The search: prepares the data (the oracle gets the preparer's service
/// data, or its default without a preparer), then for epoch after epoch
/// (nonce size `start + epoch * step`) builds the circuit of `search_epoch`
/// on the prepared data with `iterations_amount(nonce size)` Grover
/// iterations, runs it with `get_result`, and returns the result where there
/// is no checker or the checker accepts it; a rejected result starts the
/// next epoch. `search_outcome` states what comes back: a result of
/// `get_result` on the circuit of an epoch whose earlier epochs were all
/// rejected (the first epoch where there is no checker), or `None` from an
/// epoch whose nonce size does not fit a `u64`, whose copies of the main data
/// do not fit a `usize` (already in the first epoch), where the oracle cannot
/// set up or predict, or where `get_result` gives nothing.
#[verifier::loop_isolation(false)]
pub fn search<P: DataPreparer, O: Oracle, C: Checker, I, R>(
    data: Vec<u8>,
    data_preparer: Option<P>,
    oracle: &mut O,
    checker: Option<C>,
    start_nonce_size: Option<u64>,
    step: Option<u64>,
    iterations_amount: I,
    get_result: R,
) -> (r: Option<Vec<u8>>)
    where
        I: Fn(u64) -> u64,
        R: Fn(&CircuitBuilder, &LayeredRegister, &Vec<InitState>) -> Option<Vec<u8>>,
    requires
        forall|n: u64| call_requires(iterations_amount, (n,)),
        forall|b: &CircuitBuilder, m: &LayeredRegister, i: &Vec<InitState>| call_requires(get_result, (b, m, i)),
    ensures
        r matches Some(v) ==> (checker matches Some(c) ==> c.accepts(v@)),
        data_preparer is None ==> final(oracle).service() == old(oracle).default_service(),
        (forall|it: u64|
            #![trigger call_ensures(iterations_amount, (epoch_size(start_nonce_size, step, 0) as u64,), it)]
            call_ensures(iterations_amount, (epoch_size(start_nonce_size, step, 0) as u64,), it) ==> usage_or_default(
                old(oracle).main_usage(),
            ) * it + 1 > usize::MAX) ==> r is None,
        exists|remains: Seq<u8>|
            #[trigger] search_outcome::<P, O, C, I, R>(
                data_preparer,
                checker,
                iterations_amount,
                get_result,
                start_nonce_size,
                step,
                usage_or_default(old(oracle).main_usage()) as nat,
                data@,
                remains,
                final(oracle).service(),
                r,
            ),
{
    let ghost data0 = data@;
    let data = match &data_preparer {
        Some(prep) => prepare_search_data(data, Some(prep), oracle),
        None => prepare_search_data::<P, O>(data, None, oracle),
    };
    let ghost service = oracle.service();
    let ghost usage = usage_or_default(old(oracle).main_usage()) as nat;
    let main_qubit_usage = main_qubit_usage(oracle.get_main_qubit_usage());
    let mut epoch: u64 = 0;
    let ghost mut rejected: Seq<Seq<u8>> = Seq::empty();
    loop
        invariant
            checker is None ==> epoch == 0,
            rejected.len() == epoch,
            checker matches Some(c) ==> forall|j: int|
                0 <= j < epoch ==> epoch_outcome::<O, I, R>(
                    iterations_amount,
                    get_result,
                    start_nonce_size,
                    step,
                    usage,
                    data@,
                    service,
                    j,
                    #[trigger] rejected[j],
                ) && !c.accepts(rejected[j]),
            oracle.main_usage() == old(oracle).main_usage(),
            forall|n: u64| call_requires(iterations_amount, (n,)),
            forall|b: &CircuitBuilder, m: &LayeredRegister, i: &Vec<InitState>| call_requires(get_result, (b, m, i)),
            oracle.service() == service,
            data_preparer is None ==> service == old(oracle).default_service() && data@ == data0,
            data_preparer matches Some(p) ==> p.prepares(data0, data@, service),
            usage == usage_or_default(old(oracle).main_usage()),
            main_qubit_usage == usage,
            epoch > 0 ==> !(forall|it: u64|
                #![trigger call_ensures(iterations_amount, (epoch_size(start_nonce_size, step, 0) as u64,), it)]
                call_ensures(iterations_amount, (epoch_size(start_nonce_size, step, 0) as u64,), it)
                    ==> usage_or_default(old(oracle).main_usage()) * it + 1 > usize::MAX),
        decreases u64::MAX - epoch,
    {
        proof {
            lemma_rejected_before::<O, C, I, R>(
                checker,
                iterations_amount,
                get_result,
                start_nonce_size,
                step,
                usage,
                data@,
                service,
                rejected,
                epoch as int,
            );
        }
        let nonce_size_bits = match epoch_nonce_size(start_nonce_size, step, epoch) {
            Some(v) => v,
            None => {
                proof {
                    assert(epoch_failed::<O, I, R>(
                    iterations_amount,
                    get_result,
                    start_nonce_size,
                    step,
                    usage,
                    data@,
                    service,
                    epoch as int,
                ));
                    assert(search_outcome::<P, O, C, I, R>(
                    data_preparer,
                    checker,
                    iterations_amount,
                    get_result,
                    start_nonce_size,
                    step,
                    usage,
                    data0,
                    data@,
                    service,
                    None::<Vec<u8>>,
                ));
                }
                return None;
            },
        };
        let mut builder = CircuitBuilder::new();
        let iterations = iterations_amount(nonce_size_bits);
        let ghost before_epoch = *oracle;
        let (main_qubits, initial_state, trace) = match search_epoch(
            &mut builder,
            oracle,
            &data,
            nonce_size_bits,
            main_qubit_usage,
            iterations,
        ) {
            Some(v) => v,
            None => {
                proof {
                    if main_qubit_usage * iterations + 1 <= usize::MAX {
                        let copies = (main_qubit_usage * iterations + 1) as usize;
                        if !before_epoch.main_data_ready(data@, nonce_size_bits, copies, 0) {
                            assert(before_epoch.service() == service);
                        }
                    }
                    assert(epoch_failed::<O, I, R>(
                    iterations_amount,
                    get_result,
                    start_nonce_size,
                    step,
                    usage,
                    data@,
                    service,
                    epoch as int,
                ));
                    assert(search_outcome::<P, O, C, I, R>(
                    data_preparer,
                    checker,
                    iterations_amount,
                    get_result,
                    start_nonce_size,
                    step,
                    usage,
                    data0,
                    data@,
                    service,
                    None::<Vec<u8>>,
                ));
                }
                return None;
            },
        };
        let ghost circuit_ok = epoch_circuit::<O, I>(
            iterations_amount,
            start_nonce_size,
            step,
            usage,
            data@,
            service,
            epoch as int,
            &builder,
            &main_qubits,
        );
        proof {
            assert(builder.log() =~= Seq::<GateSpec>::empty() + epoch_log(trace@, main_qubits.spec_dif_range().unwrap()));
            assert(circuit_ok);
        }
        let result = match get_result(&builder, &main_qubits, &initial_state) {
            Some(v) => v,
            None => {
                proof {
                    assert(epoch_failed::<O, I, R>(
                    iterations_amount,
                    get_result,
                    start_nonce_size,
                    step,
                    usage,
                    data@,
                    service,
                    epoch as int,
                ));
                    assert(search_outcome::<P, O, C, I, R>(
                    data_preparer,
                    checker,
                    iterations_amount,
                    get_result,
                    start_nonce_size,
                    step,
                    usage,
                    data0,
                    data@,
                    service,
                    None::<Vec<u8>>,
                ));
                }
                return None;
            },
        };
        let ghost found = result@;
        proof {
            assert(epoch_outcome::<O, I, R>(
                iterations_amount,
                get_result,
                start_nonce_size,
                step,
                usage,
                data@,
                service,
                epoch as int,
                found,
            ));
        }
        match epoch_result(&checker, result) {
            Some(v) => {
                proof {
                    assert(search_outcome::<P, O, C, I, R>(
                    data_preparer,
                    checker,
                    iterations_amount,
                    get_result,
                    start_nonce_size,
                    step,
                    usage,
                    data0,
                    data@,
                    service,
                    Some(v),
                ));
                }
                return Some(v);
            },
            None => {},
        }
        if epoch == u64::MAX {
            proof {
                assert(search_outcome::<P, O, C, I, R>(
                    data_preparer,
                    checker,
                    iterations_amount,
                    get_result,
                    start_nonce_size,
                    step,
                    usage,
                    data0,
                    data@,
                    service,
                    None::<Vec<u8>>,
                ));
            }
            return None;
        }
        proof {
            rejected = rejected.push(found);
            assert forall|j: int| 0 <= j < epoch + 1 implies #[trigger] rejected[j] == (if j < epoch {
                rejected.drop_last()[j]
            } else {
                found
            }) by {}
        }
        epoch = epoch + 1;
    }
}

/// The invariant of the search's loop gives `rejected_before`.
proof fn lemma_rejected_before<O: Oracle, C: Checker, I, R>(
    checker: Option<C>,
    iterations_amount: I,
    get_result: R,
    start_nonce_size: Option<u64>,
    step: Option<u64>,
    usage: nat,
    data: Seq<u8>,
    service: Seq<u8>,
    rejected: Seq<Seq<u8>>,
    epoch: int,
)
    where
        I: Fn(u64) -> u64,
        R: Fn(&CircuitBuilder, &LayeredRegister, &Vec<InitState>) -> Option<Vec<u8>>,
    requires
        checker is None ==> epoch == 0,
        rejected.len() == epoch,
        checker matches Some(c) ==> forall|j: int|
            0 <= j < epoch ==> epoch_outcome::<O, I, R>(
                iterations_amount,
                get_result,
                start_nonce_size,
                step,
                usage,
                data,
                service,
                j,
                #[trigger] rejected[j],
            ) && !c.accepts(rejected[j]),
    ensures
        rejected_before::<O, C, I, R>(
            checker,
            iterations_amount,
            get_result,
            start_nonce_size,
            step,
            usage,
            data,
            service,
            epoch,
        ),
{
}

/// What an epoch with the result `result` gives: the result where there is
/// no checker or the checker accepts it, else `None` (the search goes on).
pub fn epoch_result<C: Checker>(checker: &Option<C>, result: Vec<u8>) -> (r: Option<Vec<u8>>)
    ensures
        r is Some <==> (checker matches Some(c) ==> c.accepts(result@)),
        r matches Some(v) ==> v@ == result@,
{
    match checker {
        Some(check) => {
            if check.check_nonce(copy_bytes(&result)) {
                Some(result)
            } else {
                None
            }
        },
        None => Some(result),
    }
}

/// A copy of a byte vector.
fn copy_bytes(v: &Vec<u8>) -> (r: Vec<u8>)
    ensures
        r@ == v@,
{
    let mut r: Vec<u8> = Vec::new();
    let mut i: usize = 0;
    while i < v.len()
        invariant
            i <= v@.len(),
            r@ == v@.take(i as int),
        decreases v@.len() - i,
    {
        r.push(v[i]);
        assert(r@ =~= v@.take(i + 1));
        i += 1;
    }
    assert(v@.take(v@.len() as int) =~= v@);
    r
}

} // verus!
