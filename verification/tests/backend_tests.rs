use qip::UnitaryBuilder;
use quantum_nonce::searcher::backend::{realize, RealizeError};
use quantum_nonce::searcher::circuit::{CircuitBuilder, QubitRegister};
use quantum_nonce::searcher::utils::{register_sum, register_xor};

#[test]
fn a_built_circuit_is_realized_qubit_by_qubit() {
    let mut b = CircuitBuilder::new();
    let a = b.register(3);
    let c = b.register(3);
    let a = b.hadamard(a);
    let (a, c, _, _) = register_xor(&mut b, a, c);
    let (a, c) = b.swap(a, c);
    let _ = register_sum(&mut b, a, c);
    let realized = realize(&b);
    assert!(realized.is_ok());
    let (_, regs) = realized.unwrap();
    assert_eq!(regs.len() as u64, b.qubit_count());
}

#[test]
fn a_gate_on_an_unknown_qubit_is_refused() {
    let mut b = CircuitBuilder::new();
    let _ = b.register(1);
    let _ = b.not(QubitRegister { qubits: vec![5] });
    assert!(matches!(realize(&b), Err(RealizeError::QubitOutOfRange(5))));
}

#[test]
fn a_qubit_that_controls_itself_is_refused() {
    let mut b = CircuitBuilder::new();
    let _ = b.register(2);
    let _ = b.cnot(QubitRegister { qubits: vec![0, 1] }, QubitRegister { qubits: vec![1] });
    assert!(matches!(realize(&b), Err(RealizeError::QubitReused(1))));
    let mut b = CircuitBuilder::new();
    let _ = b.register(2);
    let _ = b.cnot(QubitRegister { qubits: vec![] }, QubitRegister { qubits: vec![1] });
    assert!(matches!(realize(&b), Err(RealizeError::NoControls)));
}

#[test]
fn the_realized_circuit_runs_the_gates_of_the_log() {
    let mut b = CircuitBuilder::new();
    let _ = b.register(3);
    let _ = b.not(QubitRegister { qubits: vec![0] });
    let _ = b.cnot(QubitRegister { qubits: vec![0] }, QubitRegister { qubits: vec![1] });
    let _ = b.swap(QubitRegister { qubits: vec![1] }, QubitRegister { qubits: vec![2] });
    let (mut ob, regs) = realize(&b).unwrap();
    let mut handles = Vec::new();
    let mut measured_regs = Vec::new();
    for reg in regs {
        let (reg, h) = ob.measure(reg);
        measured_regs.push(reg);
        handles.push(h);
    }
    let all = ob.merge(measured_regs).unwrap();
    let (_, measured) = qip::run_local::<f64>(&all).unwrap();
    let bits: Vec<u64> = handles.iter().map(|h| measured.get_measurement(h).unwrap().0).collect();
    assert_eq!(bits, vec![1, 0, 1]);
}
