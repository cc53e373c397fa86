use quantum_nonce::searcher::circuit::{CircuitBuilder, Gate, QubitRegister};
use quantum_nonce::searcher::oracle::Oracle;
use quantum_nonce::searcher::utils::{zeroed_register, LayeredRegister};
use quantum_nonce::sha256::sha256_oracle::{
    compression_round, get_Ch, get_Ma, get_Sum0, get_Sum1, get_next_vars, get_t1, get_t2, get_vars_copy, init_consts,
    padded_main_data, SHA256Oracle,
};
use quantum_nonce::sha256::words_provider::WordsProvider;

fn simulate(b: &CircuitBuilder) -> Vec<bool> {
    let mut bits = vec![false; b.qubit_count() as usize];
    for g in b.gates().iter() {
        match g {
            Gate::Not(q) => bits[*q as usize] = !bits[*q as usize],
            Gate::ControlledNot(cs, t) => {
                if cs.iter().all(|c| bits[*c as usize]) {
                    bits[*t as usize] = !bits[*t as usize];
                }
            }
            Gate::Swap(a, c) => bits.swap(*a as usize, *c as usize),
            Gate::Hadamard(_) => panic!("a Hadamard gate has no classical effect"),
        }
    }
    bits
}

fn input(b: &mut CircuitBuilder, n: u64, value: u64) -> QubitRegister {
    let (reg, _) = zeroed_register(b, n);
    let mut flip = Vec::new();
    for i in 0..n as usize {
        if (value >> i) & 1 == 1 {
            flip.push(reg.qubits[i]);
        }
    }
    let _ = b.not(QubitRegister { qubits: flip });
    reg
}

fn read(bits: &[bool], r: &QubitRegister) -> u64 {
    let mut v = 0u64;
    for (i, q) in r.qubits.iter().enumerate() {
        if bits[*q as usize] {
            v |= 1 << i;
        }
    }
    v
}

const INITIAL_BYTES: [u8; 32] = [
    0x6A, 0x09, 0xE6, 0x67, 0xBB, 0x67, 0xAE, 0x85, 0x3C, 0x6E, 0xF3, 0x72, 0xA5, 0x4F, 0xF5, 0x3A, 0x51, 0x0E, 0x52,
    0x7F, 0x9B, 0x05, 0x68, 0x8C, 0x1F, 0x83, 0xD9, 0xAB, 0x5B, 0xE0, 0xCD, 0x19,
];

#[test]
fn service_data_defaults_to_the_initial_state() {
    let mut oracle = SHA256Oracle::init([0xAB; 32]);
    assert!(oracle.service_data().is_empty());
    oracle.set_service_data(None);
    assert_eq!(oracle.service_data().clone(), INITIAL_BYTES.to_vec());
    oracle.set_service_data(Some(vec![1, 2, 3, 4, 5, 6, 7, 8]));
    assert_eq!(oracle.service_data().clone(), vec![1, 2, 3, 4, 5, 6, 7, 8]);
    assert_eq!(oracle.get_main_qubit_usage(), None);
}

#[test]
fn a_main_register_with_a_block_cannot_be_predicted() {
    let mut b = CircuitBuilder::new();
    let regs = LayeredRegister::new(&mut b, 512, 2);
    let mut oracle = SHA256Oracle::init([0; 32]);
    oracle.set_service_data(Some(vec![0; 8]));
    assert!(!oracle.can_predict(&regs, b.qubit_count()));
}

#[test]
fn padding_appends_nonce_marker_zeros_and_length() {
    let data = padded_main_data(&vec![1, 2, 3], 2);
    // 40 bits of data and nonce; (40 + 72) % 512 = 112 zero bytes.
    assert_eq!(data.len(), 3 + 2 + 1 + 112 + 8);
    assert_eq!(data[0..6].to_vec(), vec![1, 2, 3, 0, 0, 0x80]);
    assert!(data[6..118].iter().all(|x| *x == 0));
    assert_eq!(data[118..126].to_vec(), 40u64.to_be_bytes().to_vec());
}

#[test]
fn main_data_only_without_layers() {
    // 50 bytes of data and a 5-byte nonce make 440 bits, and 440 + 72 = 512.
    let data: Vec<u8> = (0..50).collect();
    let mut oracle = SHA256Oracle::init([0; 32]);
    assert!(oracle.can_init_main_data(&data, 5, 0, 0));
    // With a layer the Hadamard range 440..40 is empty.
    assert!(!oracle.can_init_main_data(&data, 5, 1, 0));
    // 51 bytes leave padding zeros, so the width does not match the data.
    assert!(!oracle.can_init_main_data(&(0..51).collect(), 5, 0, 0));
    let mut b = CircuitBuilder::new();
    let (regs, init) = oracle.init_main_data(&mut b, &data, 5, 0);
    assert_eq!(regs.width(), 512);
    assert_eq!(regs.depth(), 0);
    assert_eq!(regs.start_depth(), 0);
    assert_eq!(regs.get_dif_range(), Some((400, 440)));
    assert!(init.is_empty());
    assert_eq!(b.qubit_count(), 0);
}

#[test]
fn round_constants_are_loaded_into_registers() {
    let mut b = CircuitBuilder::new();
    let (regs, init) = init_consts(&mut b);
    assert_eq!(regs.len(), 64);
    assert_eq!(init.len(), 64);
    assert_eq!(regs[1].qubits, (32..64).collect::<Vec<u64>>());
    assert_eq!(init[0].value, 0x428A2F98);
    assert_eq!(init[63].value, 0xC67178F2);
    assert_eq!(init[63].qubits, (2016..2048).collect::<Vec<u64>>());
    assert_eq!(b.qubit_count(), 2048);
}

#[test]
fn majority_and_choice() {
    let (x, y, z) = (0b1100_1010u64, 0b1010_0110u64, 0b0110_1100u64);
    let mut b = CircuitBuilder::new();
    let a = input(&mut b, 8, x);
    let bb = input(&mut b, 8, y);
    let c = input(&mut b, 8, z);
    let start = b.qubit_count();
    let (a, bb, c, ma, init) = get_Ma(&mut b, a, bb, c);
    assert_eq!(ma.qubits, (start + 32..start + 40).collect::<Vec<u64>>());
    assert_eq!(init.len(), 5);
    let (_, _, _, ch, _) = get_Ch(&mut b, a, bb, c);
    let bits = simulate(&b);
    assert_eq!(read(&bits, &ma), (x & y) ^ (x & z) ^ (y & z));
    assert_eq!(read(&bits, &ch), (x & y) ^ (!x & z & 0xff));
}

#[test]
fn rotation_sums_use_five_registers() {
    let mut b = CircuitBuilder::new();
    let a = b.register(8);
    let (a, sum0, init) = get_Sum0(&mut b, a);
    assert_eq!(a.qubits, (0..8).collect::<Vec<u64>>());
    assert_eq!(sum0.qubits, (40..48).collect::<Vec<u64>>());
    assert_eq!(init.len(), 5);
    let (_, sum1, _) = get_Sum1(&mut b, a);
    assert_eq!(sum1.qubits, (80..88).collect::<Vec<u64>>());
    assert_eq!(b.qubit_count(), 88);
}

#[test]
fn t1_and_t2_chain_adders() {
    let mut b = CircuitBuilder::new();
    let h = b.register(8);
    let s1 = b.register(8);
    let ch = b.register(8);
    let k = b.register(32);
    let w = b.register(32);
    let start = b.qubit_count();
    let (_, s1, _, _, _, t1, _) = get_t1(&mut b, h, s1, ch, k, w);
    assert_eq!(t1.qubits, (start + 12 * 8 + 12..start + 13 * 8 + 12).collect::<Vec<u64>>());
    assert_eq!(b.qubit_count(), start + 16 * 8 + 16);
    let ma = b.register(8);
    let before = b.qubit_count();
    let (sum0, _, t2, _) = get_t2(&mut b, s1, ma);
    assert_eq!(sum0.qubits, (8..16).collect::<Vec<u64>>());
    assert_eq!(t2.qubits, (before..before + 8).collect::<Vec<u64>>());
}

#[test]
fn state_copies_and_next_state() {
    let mut b = CircuitBuilder::new();
    let vars: Vec<QubitRegister> = (0..8).map(|j| input(&mut b, 8, 3 * j + 1)).collect();
    let start = b.qubit_count();
    let (vars, copies, init) = get_vars_copy(&mut b, vars);
    assert_eq!(copies.len(), 8);
    assert_eq!(copies[2].qubits, (start + 16..start + 24).collect::<Vec<u64>>());
    assert_eq!(init.len(), 8);
    let bits = simulate(&b);
    for j in 0..8 {
        assert_eq!(read(&bits, &copies[j]), 3 * j as u64 + 1);
    }
    let before = b.qubit_count();
    let (next, init) = get_next_vars(&mut b, vars, copies);
    assert_eq!(next.len(), 8);
    assert_eq!(next[1].qubits, (before + 36..before + 44).collect::<Vec<u64>>());
    assert_eq!(init.len(), 8 * (1 + 3 * 8 + 4));
}

#[test]
fn one_compression_round() {
    let mut b = CircuitBuilder::new();
    let vars: Vec<QubitRegister> = (0..8).map(|_| b.register(8)).collect();
    let k = b.register(32);
    let mut main = LayeredRegister::new(&mut b, 512, 1);
    let mut wp = WordsProvider::init();
    let start = b.qubit_count();
    let (out, init) = compression_round(&mut b, vars, &k, &mut wp, &mut main, 0, 0);
    let n = 8u64;
    // The head, the parsed layer (16 words of 32 qubits), then the tail.
    let q = start + 23 * n + 4 + 512;
    assert_eq!(b.qubit_count(), q + 24 * n + 24);
    assert_eq!(out.len(), 8);
    assert_eq!(out[0].qubits, (q + 20 * n + 20..q + 21 * n + 20).collect::<Vec<u64>>());
    assert_eq!(out[1].qubits, (0..8).collect::<Vec<u64>>());
    assert_eq!(out[4].qubits, (q + 16 * n + 16..q + 17 * n + 16).collect::<Vec<u64>>());
    assert_eq!(out[7].qubits, (48..56).collect::<Vec<u64>>());
    assert_eq!(main.depth(), 0);
    assert!(!init.is_empty());
}
