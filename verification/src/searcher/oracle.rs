use vstd::prelude::*;
use crate::searcher::circuit::{CircuitBuilder, GateSpec, InitState, QubitRegister};
use crate::searcher::searcher::{range_fits, usage_or_default};
use crate::searcher::utils::{LayerOp, LayeredRegister};

verus! {

/// The problem-specific part of the search: encodes the data into the main
/// register and builds the circuit that marks the solutions.
pub trait Oracle {
    /// The inputs on which `make_prediction` completes: the oracle's state,
    /// the main register and the first free qubit of the circuit.
    spec fn prediction_ready(&self, main_data: LayeredRegister, next_qubit: nat) -> bool;

    /// The inputs on which `init_main_data` completes.
    spec fn main_data_ready(
        &self,
        data: Seq<u8>,
        nonce_size_bits: u64,
        main_qubit_usage: usize,
        next_qubit: nat,
    ) -> bool;

    /// The service data the oracle works from.
    spec fn service(&self) -> Seq<u8>;

    /// The service data the oracle takes when none is given.
    spec fn default_service(&self) -> Seq<u8>;

    /// Sets the state that the data preparer computed, or the default one.
    fn set_service_data(&mut self, service_data: Option<Vec<u8>>)
        ensures
            final(self).service() == match service_data {
                Some(d) => d@,
                None => old(self).default_service(),
            },
            final(self).default_service() == old(self).default_service(),
            final(self).main_usage() == old(self).main_usage(),
    ;

    /// How many copies of the main data one prediction uses up, if the
    /// oracle knows it.
    spec fn main_usage(&self) -> Option<usize>;

    /// `main_usage`.
    fn get_main_qubit_usage(&self) -> (r: Option<usize>)
        ensures
            r == self.main_usage(),
    ;

    /// Builds the prediction circuit on the main register; returns the main
    /// register, the qubit that is set on a solution, and the initial states
    /// of the qubits that it allocated. The main register keeps a prefix of
    /// its layers: a prediction uses up at most `main_usage` of them (the
    /// search's default where the oracle names none).
    fn make_prediction(&mut self, b: &mut CircuitBuilder, main_data: LayeredRegister) -> (out: (
        LayeredRegister,
        QubitRegister,
        Vec<InitState>,
    ))
        requires
            old(self).prediction_ready(main_data, old(b).allocated()),
        ensures
            out.0.wf(),
            out.0.spec_width() == main_data.spec_width(),
            out.0.spec_dif_range() == main_data.spec_dif_range(),
            out.0.layers_view().is_prefix_of(main_data.layers_view()),
            main_data.layers_view().len() <= out.0.layers_view().len() + usage_or_default(old(self).main_usage()),
            out.1@.len() > 0,
            old(b).log().is_prefix_of(final(b).log()),
            final(self).service() == old(self).service(),
            final(self).default_service() == old(self).default_service(),
            final(self).main_usage() == old(self).main_usage(),
    ;

    /// The gates with which `init_main_data` sets up the main register of
    /// `copies` copies of `data` and a nonce of `nonce_size_bits`, under the
    /// service data `service`, from the first free qubit `start`.
    spec fn main_data_gates(service: Seq<u8>, data: Seq<u8>, nonce_size_bits: u64, copies: nat, start: nat) -> Seq<
        GateSpec,
    >;

    /// The layers of the main register that `init_main_data` returns.
    spec fn main_data_layers(service: Seq<u8>, data: Seq<u8>, nonce_size_bits: u64, copies: nat, start: nat) -> Seq<
        Seq<u64>,
    >;

    /// The nonce range that `init_main_data` marks on the main register.
    spec fn main_data_range(service: Seq<u8>, data: Seq<u8>, nonce_size_bits: u64) -> (u64, u64);

    /// Allocates the main register with `main_qubit_usage` copies of the data
    /// and a nonce of `nonce_size_bits`, and marks the nonce as the range the
    /// search works on: a range that the Hadamard and diffusion steps can
    /// take on every layer.
    fn init_main_data(
        &mut self,
        b: &mut CircuitBuilder,
        data: &Vec<u8>,
        nonce_size_bits: u64,
        main_qubit_usage: usize,
    ) -> (out: (LayeredRegister, Vec<InitState>))
        requires
            old(self).main_data_ready(data@, nonce_size_bits, main_qubit_usage, old(b).allocated()),
        ensures
            out.0.wf(),
            out.0.layers_view().len() == main_qubit_usage,
            out.0.layers_view() == Self::main_data_layers(
                old(self).service(),
                data@,
                nonce_size_bits,
                main_qubit_usage as nat,
                old(b).allocated(),
            ),
            out.0.spec_dif_range() == Some(Self::main_data_range(old(self).service(), data@, nonce_size_bits)),
            range_fits(
                out.0,
                LayerOp::Diffuse,
                out.0.spec_dif_range().unwrap().0,
                out.0.spec_dif_range().unwrap().1,
            ),
            final(b).log() == old(b).log() + Self::main_data_gates(
                old(self).service(),
                data@,
                nonce_size_bits,
                main_qubit_usage as nat,
                old(b).allocated(),
            ),
            final(self).service() == old(self).service(),
            final(self).default_service() == old(self).default_service(),
            final(self).main_usage() == old(self).main_usage(),
    ;

    /// Whether `make_prediction` completes on `main_data` with `next_qubit`
    /// as the first free qubit.
    fn can_predict(&self, main_data: &LayeredRegister, next_qubit: u64) -> (r: bool)
        requires
            main_data.wf(),
        ensures
            r == self.prediction_ready(*main_data, next_qubit as nat),
    ;

    /// Whether `init_main_data` completes on these arguments.
    fn can_init_main_data(&self, data: &Vec<u8>, nonce_size_bits: u64, main_qubit_usage: usize, next_qubit: u64) -> (r:
        bool)
        ensures
            r == self.main_data_ready(data@, nonce_size_bits, main_qubit_usage, next_qubit as nat),
    ;
}

} // verus!
