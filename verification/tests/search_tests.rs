use quantum_nonce::searcher::circuit::{CircuitBuilder, Gate, InitState};
use quantum_nonce::searcher::oracle::Oracle;
use quantum_nonce::searcher::searcher::{
    diffuse, epoch_nonce_size, epoch_result, func_hadamard, grover_step, main_qubit_usage, prepare_search_data, search,
    search_epoch, start_search, DEFAULT_MAIN_QUBIT_USAGE,
};
use quantum_nonce::searcher::utils::LayeredRegister;
use quantum_nonce::sha256::sha256_checker::SHA256Checker;
use quantum_nonce::sha256::sha256_data_preparer::SHA256DataPreparer;
use quantum_nonce::sha256::sha256_oracle::SHA256Oracle;

#[test]
fn settings_default_to_ten_copies_and_unit_steps() {
    assert_eq!(DEFAULT_MAIN_QUBIT_USAGE, 10);
    assert_eq!(main_qubit_usage(None), 10);
    assert_eq!(main_qubit_usage(Some(3)), 3);
    assert_eq!(epoch_nonce_size(None, None, 0), Some(1));
    assert_eq!(epoch_nonce_size(None, None, 5), Some(6));
    assert_eq!(epoch_nonce_size(Some(4), Some(2), 3), Some(10));
    assert_eq!(epoch_nonce_size(Some(u64::MAX), None, 1), None);
    assert_eq!(epoch_nonce_size(Some(1), Some(u64::MAX), 2), None);
}

#[test]
fn the_preparer_leaves_the_tail() {
    let data: Vec<u8> = (0..70).collect();
    let mut oracle = SHA256Oracle::init([0; 32]);
    let rest = prepare_search_data(data.clone(), Some(&SHA256DataPreparer {}), &mut oracle);
    assert_eq!(rest, (64..70).collect::<Vec<u8>>());
    assert_eq!(oracle.service_data().len(), 32);
    let mut oracle = SHA256Oracle::init([0; 32]);
    let rest = prepare_search_data::<SHA256DataPreparer, SHA256Oracle>(data.clone(), None, &mut oracle);
    assert_eq!(rest, data);
    assert_eq!(oracle.service_data()[0..4].to_vec(), vec![0x6A, 0x09, 0xE6, 0x67]);
}

#[test]
fn diffusion_and_hadamard_gates() {
    let mut b = CircuitBuilder::new();
    let r = b.register(3);
    let r = diffuse(&mut b, r);
    assert_eq!(r.qubits, vec![0, 1, 2]);
    // H, X, H, X on three qubits, H on the last, the fan, H on the last, X, H.
    assert_eq!(b.gates().len(), 3 * 4 + 1 + 1 + 1 + 3 * 2);
    assert!(matches!(&b.gates()[12], Gate::Hadamard(2)));
    assert!(matches!(&b.gates()[13], Gate::ControlledNot(cs, 0) if cs == &vec![1, 2]));
    let mut b = CircuitBuilder::new();
    let r = b.register(2);
    let _ = func_hadamard(&mut b, r);
    assert!(matches!(b.gates()[1], Gate::Hadamard(1)));
}

#[test]
fn the_sha256_oracle_cannot_build_an_epoch() {
    let mut b = CircuitBuilder::new();
    let mut oracle = SHA256Oracle::init([0; 32]);
    oracle.set_service_data(None);
    let data: Vec<u8> = (0..50).collect();
    assert!(search_epoch(&mut b, &mut oracle, &data, 5, 10, 1).is_none());
}

#[test]
fn a_search_that_cannot_build_its_circuit_ends() {
    let data: Vec<u8> = (0..20).collect();
    let mut oracle = SHA256Oracle::init([0xFF; 32]);
    let result = search(
        data.clone(),
        Some(SHA256DataPreparer {}),
        &mut oracle,
        Some(SHA256Checker::init(data, [0xFF; 32])),
        None,
        None,
        |n: u64| n,
        |_b: &CircuitBuilder, _m: &LayeredRegister, _i: &Vec<InitState>| Some(vec![0u8]),
    );
    assert_eq!(result, None);
}

#[test]
fn an_epoch_starts_with_hadamard_on_the_nonce_range() {
    let mut b = CircuitBuilder::new();
    let regs = LayeredRegister::new(&mut b, 8, 2);
    assert!(start_search(&mut b, regs).is_none());
    let mut regs = LayeredRegister::new(&mut b, 8, 2);
    regs.set_dif_range(5, 9);
    assert!(start_search(&mut b, regs).is_none());
    let mut regs = LayeredRegister::new(&mut b, 8, 2);
    regs.set_dif_range(2, 5);
    let gates = b.gates().len();
    let (regs, range) = start_search(&mut b, regs).unwrap();
    assert_eq!(range, (2, 5));
    assert_eq!(b.gates().len(), gates + 6);
    assert!(matches!(b.gates()[gates], Gate::Hadamard(34)));
    assert_eq!(regs.depth(), 2);
}

#[test]
fn a_grover_step_mirrors_and_diffuses() {
    let mut b = CircuitBuilder::new();
    let regs = LayeredRegister::new(&mut b, 8, 1);
    let sign = b.register(1);
    let gates = b.gates().len();
    let regs = grover_step(&mut b, regs, sign, (2, 5)).unwrap();
    // The mirror: one controlled not per qubit of the range, from qubit 8.
    assert!(matches!(&b.gates()[gates], Gate::ControlledNot(cs, 2) if cs == &vec![8]));
    // Then the diffusion step on the three qubits (21 gates).
    assert_eq!(b.gates().len(), gates + 3 + 21);
    let sign = b.register(1);
    assert!(grover_step(&mut b, regs, sign, (3, 4)).is_none());
}

#[test]
fn the_checker_decides_the_epoch() {
    let data = b"x".to_vec();
    let accept = Some(SHA256Checker::init(data.clone(), [0xFF; 32]));
    let reject = Some(SHA256Checker::init(data, [0; 32]));
    assert_eq!(epoch_result(&accept, vec![1, 2]), Some(vec![1, 2]));
    assert_eq!(epoch_result(&reject, vec![1, 2]), None);
    assert_eq!(epoch_result::<SHA256Checker>(&None, vec![3]), Some(vec![3]));
}

#[test]
fn a_search_whose_first_epoch_needs_too_many_copies_ends() {
    let data: Vec<u8> = (0..20).collect();
    let mut oracle = SHA256Oracle::init([0xFF; 32]);
    let result = search(
        data.clone(),
        None::<SHA256DataPreparer>,
        &mut oracle,
        None::<SHA256Checker>,
        None,
        None,
        |_n: u64| u64::MAX,
        |_b: &CircuitBuilder, _m: &LayeredRegister, _i: &Vec<InitState>| Some(vec![1u8]),
    );
    assert_eq!(result, None);
    assert_eq!(oracle.service_data()[0..4].to_vec(), vec![0x6A, 0x09, 0xE6, 0x67]);
}

#[test]
fn the_search_hands_the_preparers_state_to_the_oracle() {
    let data: Vec<u8> = (0..70).collect();
    let mut oracle = SHA256Oracle::init([0xFF; 32]);
    let _ = search(
        data.clone(),
        Some(SHA256DataPreparer {}),
        &mut oracle,
        None::<SHA256Checker>,
        None,
        None,
        |_n: u64| u64::MAX,
        |_b: &CircuitBuilder, _m: &LayeredRegister, _i: &Vec<InitState>| Some(vec![1u8]),
    );
    let mut direct = SHA256Oracle::init([0xFF; 32]);
    let _ = prepare_search_data(data, Some(&SHA256DataPreparer {}), &mut direct);
    assert_eq!(oracle.service_data(), direct.service_data());
    assert_ne!(oracle.service_data()[0..4].to_vec(), vec![0x6A, 0x09, 0xE6, 0x67]);
}
