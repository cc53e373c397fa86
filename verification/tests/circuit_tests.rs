use quantum_nonce::searcher::circuit::{CircuitBuilder, Gate, QubitRegister};
use quantum_nonce::searcher::utils::{
    oneed_register, qubit_and, qubit_or, qubit_xor, register_and, register_entangled_copy, register_eq, register_more, register_more_eq, register_not,
    register_or, register_rotl, register_rotl_inplace, register_rotr, register_rotr_inplace, register_shiftl,
    register_shiftr, register_sum, register_xor, zeroed_register, LayeredRegister,
};

/// Runs the classical gates of the circuit from the all-zero state.
fn simulate(b: &CircuitBuilder) -> Vec<bool> {
    let mut bits = vec![false; b.qubit_count() as usize];
    for g in b.gates().iter() {
        match g {
            Gate::Not(q) => bits[*q as usize] = !bits[*q as usize],
            Gate::ControlledNot(cs, t) => {
                if cs.iter().all(|c| bits[*c as usize]) {
                    bits[*t as usize] = !bits[*t as usize];
                }
            }
            Gate::Swap(a, c) => bits.swap(*a as usize, *c as usize),
            Gate::Hadamard(_) => panic!("a Hadamard gate has no classical effect"),
        }
    }
    bits
}

/// A register of `n` fresh qubits holding `value` (bit `i` in qubit `i`).
fn input(b: &mut CircuitBuilder, n: u64, value: u64) -> QubitRegister {
    let (reg, _) = zeroed_register(b, n);
    let mut flip = Vec::new();
    for i in 0..n as usize {
        if (value >> i) & 1 == 1 {
            flip.push(reg.qubits[i]);
        }
    }
    let _ = b.not(QubitRegister { qubits: flip });
    reg
}

fn read(bits: &[bool], r: &QubitRegister) -> u64 {
    let mut v = 0u64;
    for (i, q) in r.qubits.iter().enumerate() {
        if bits[*q as usize] {
            v |= 1 << i;
        }
    }
    v
}

#[test]
fn fresh_registers_take_the_next_qubits() {
    let mut b = CircuitBuilder::new();
    let (r1, init1) = zeroed_register(&mut b, 10);
    let (r2, init2) = zeroed_register(&mut b, 3);
    assert_eq!(r1.qubits, (0..10).collect::<Vec<u64>>());
    assert_eq!(r2.qubits, vec![10, 11, 12]);
    assert_eq!(init1.len(), 2);
    assert_eq!(init1[0].qubits, (0..8).collect::<Vec<u64>>());
    assert_eq!(init1[1].qubits, vec![8, 9]);
    assert!(init1.iter().all(|s| s.value == 0));
    assert_eq!(init2.len(), 1);
    assert_eq!(b.qubit_count(), 13);
    assert!(b.gates().is_empty());
}

#[test]
fn oneed_register_sets_every_qubit() {
    let mut b = CircuitBuilder::new();
    let (r, _) = oneed_register(&mut b, 5);
    let bits = simulate(&b);
    assert_eq!(read(&bits, &r), 0b11111);
}

#[test]
fn and_xor_or_compute_bitwise() {
    for (x, y) in [(0b1100u64, 0b1010u64), (0b1111, 0b0000), (0b0110, 0b0110)] {
        let mut b = CircuitBuilder::new();
        let a = input(&mut b, 4, x);
        let c = input(&mut b, 4, y);
        let (a, c, and, _) = register_and(&mut b, a, c);
        let (a, c, xor, _) = register_xor(&mut b, a, c);
        let (a, c, or, _) = register_or(&mut b, a, c);
        let bits = simulate(&b);
        assert_eq!(read(&bits, &and), x & y);
        assert_eq!(read(&bits, &xor), x ^ y);
        assert_eq!(read(&bits, &or), x | y);
        assert_eq!(read(&bits, &a), x);
        assert_eq!(read(&bits, &c), y);
    }
}

#[test]
fn not_and_copy() {
    let mut b = CircuitBuilder::new();
    let a = input(&mut b, 6, 0b101100);
    let (a, neg, _) = register_not(&mut b, a);
    let (a, copy, _) = register_entangled_copy(&mut b, a);
    let bits = simulate(&b);
    assert_eq!(read(&bits, &neg), 0b010011);
    assert_eq!(read(&bits, &copy), 0b101100);
    assert_eq!(read(&bits, &a), 0b101100);
}

/// The adder's result as its gates compute it: bit `i` is `x ^ y ^ c`, and
/// the carry, starting clear, becomes `c == (((x ^ y) & c) | (x & y))`
/// (the or-step flips the carry by the negated or).
fn adder_reference(x: u64, y: u64, n: usize) -> (u64, bool) {
    let mut c = false;
    let mut r = 0u64;
    for i in 0..n {
        let xi = (x >> i) & 1 == 1;
        let yi = (y >> i) & 1 == 1;
        if xi ^ yi ^ c {
            r |= 1 << i;
        }
        let maj = ((xi ^ yi) & c) | (xi & yi);
        c = c == maj;
    }
    (r, c)
}

#[test]
fn sum_follows_its_carry_chain() {
    for (x, y) in [(5u64, 3u64), (15, 1), (9, 9), (0, 0), (200, 100)] {
        let mut b = CircuitBuilder::new();
        let a = input(&mut b, 8, x);
        let c = input(&mut b, 8, y);
        let start = b.qubit_count();
        let (a, c, s, init) = register_sum(&mut b, a, c);
        assert_eq!(s.qubits, (start..start + 8).collect::<Vec<u64>>());
        assert_eq!(b.qubit_count(), start + 4 * 8 + 4);
        assert_eq!(init.len(), 1 + 3 * 8 + 4);
        let bits = simulate(&b);
        let (expected, carry) = adder_reference(x, y, 8);
        assert_eq!(read(&bits, &s), expected, "{} + {}", x, y);
        assert_eq!(bits[(start + 8) as usize], carry);
        assert_eq!(read(&bits, &a), x);
        assert_eq!(read(&bits, &c), y);
    }
    // 5 + 3 on eight qubits: the carry chain gives 0b10101010.
    assert_eq!(adder_reference(5, 3, 8).0, 170);
}

#[test]
fn eq_flags_equal_registers() {
    for (x, y, expected) in [(0b1010u64, 0b1010u64, true), (0b1010, 0b1011, false), (0, 0, true), (0b1111, 0, false)] {
        let mut b = CircuitBuilder::new();
        let a = input(&mut b, 4, x);
        let c = input(&mut b, 4, y);
        let (a, c, flag, _) = register_eq(&mut b, a, c);
        let bits = simulate(&b);
        assert_eq!(bits[flag.qubits[0] as usize], expected, "{} == {}", x, y);
        assert_eq!(read(&bits, &a), x);
        assert_eq!(read(&bits, &c), y);
    }
}

#[test]
fn more_eq_flags_bitwise_inclusion() {
    // The flag is set when every bit set in the first register is set in the second.
    for (x, y, expected) in [(0b0010u64, 0b0110u64, true), (0b0110, 0b0010, false), (0, 0b1111, true), (0b1000, 0b0111, false)] {
        let mut b = CircuitBuilder::new();
        let a = input(&mut b, 4, x);
        let c = input(&mut b, 4, y);
        let (a, c, flag, _) = register_more_eq(&mut b, a, c);
        let bits = simulate(&b);
        assert_eq!(bits[flag.qubits[0] as usize], expected, "{:b} into {:b}", x, y);
        assert_eq!(read(&bits, &a), x);
        assert_eq!(read(&bits, &c), y);
    }
}

#[test]
fn more_combines_inclusion_and_difference() {
    for (x, y, expected) in [(0b0010u64, 0b0110u64, true), (0b0110, 0b0110, false), (0b0110, 0b0010, false)] {
        let mut b = CircuitBuilder::new();
        let a = input(&mut b, 4, x);
        let c = input(&mut b, 4, y);
        let start = b.qubit_count();
        let (_, _, flag, _) = register_more(&mut b, a, c);
        assert_eq!(flag.qubits, vec![start + 2 * 4 + 2]);
        let bits = simulate(&b);
        assert_eq!(bits[flag.qubits[0] as usize], expected);
    }
}

#[test]
fn rotations_fan_whole_ranges() {
    // `cnot` with a register of controls flips each target only when all
    // controls are set.
    let mut b = CircuitBuilder::new();
    let a = input(&mut b, 4, 0b0111);
    let (a, r, _) = register_rotr(&mut b, a, 1);
    let bits = simulate(&b);
    // Targets 1..4 need a[0..3] all set (they are); target 0 needs a[3] (clear).
    assert_eq!(read(&bits, &r), 0b1110);
    assert_eq!(read(&bits, &a), 0b0111);

    let mut b = CircuitBuilder::new();
    let a = input(&mut b, 4, 0b1000);
    let (_, r, _) = register_rotl(&mut b, a, 1);
    let bits = simulate(&b);
    // Targets 0..3 need a[1..4] all set (they are not); target 3 needs a[0].
    assert_eq!(read(&bits, &r), 0b0000);

    let mut b = CircuitBuilder::new();
    let a = input(&mut b, 4, 0b1111);
    let (_, r, _) = register_rotl(&mut b, a, 3);
    let bits = simulate(&b);
    assert_eq!(read(&bits, &r), 0b1111);
}

#[test]
fn inplace_rotation_moves_bits() {
    let mut b = CircuitBuilder::new();
    let a = input(&mut b, 5, 0b00011);
    let r = register_rotr_inplace(&mut b, a, 2);
    let bits = simulate(&b);
    assert_eq!(read(&bits, &r), 0b01100);

    let mut b = CircuitBuilder::new();
    let a = input(&mut b, 5, 0b00011);
    let r = register_rotl_inplace(&mut b, a, 1);
    let bits = simulate(&b);
    assert_eq!(read(&bits, &r), 0b10001);
}

#[test]
fn shifts_copy_bit_by_bit() {
    let mut b = CircuitBuilder::new();
    let a = input(&mut b, 6, 0b100110);
    let (a, r, _) = register_shiftr(&mut b, a, 2);
    let bits = simulate(&b);
    assert_eq!(read(&bits, &r), 0b011000);
    assert_eq!(read(&bits, &a), 0b100110);

    let mut b = CircuitBuilder::new();
    let a = input(&mut b, 6, 0b100110);
    let (_, r, _) = register_shiftl(&mut b, a, 2);
    let bits = simulate(&b);
    assert_eq!(read(&bits, &r), 0b001001);

    let mut b = CircuitBuilder::new();
    let a = input(&mut b, 6, 0b100110);
    let gates = b.gates().len();
    let (_, r, _) = register_shiftl(&mut b, a, 9);
    assert_eq!(b.gates().len(), gates);
    let bits = simulate(&b);
    assert_eq!(read(&bits, &r), 0);
}

#[test]
fn hadamard_and_x_log_one_gate_per_qubit() {
    let mut b = CircuitBuilder::new();
    let r = b.register(3);
    let r = b.hadamard(r);
    let r = b.x(r);
    let gates = b.gates();
    assert_eq!(gates.len(), 6);
    assert!(matches!(gates[0], Gate::Hadamard(0)));
    assert!(matches!(gates[2], Gate::Hadamard(2)));
    assert!(matches!(gates[3], Gate::Not(0)));
    assert_eq!(r.qubits, vec![0, 1, 2]);
}

#[test]
fn swap_exchanges_pairs() {
    let mut b = CircuitBuilder::new();
    let a = input(&mut b, 3, 0b101);
    let c = input(&mut b, 3, 0b010);
    let (a, c) = b.swap(a, c);
    let bits = simulate(&b);
    assert_eq!(read(&bits, &a), 0b010);
    assert_eq!(read(&bits, &c), 0b101);
}

#[test]
fn single_qubit_xor_and_nor() {
    for (x, y) in [(0u64, 0u64), (0, 1), (1, 0), (1, 1)] {
        let mut b = CircuitBuilder::new();
        let a = input(&mut b, 1, x);
        let c = input(&mut b, 1, y);
        let (z1, _) = zeroed_register(&mut b, 1);
        let (z2, _) = zeroed_register(&mut b, 1);
        let (z3, _) = zeroed_register(&mut b, 1);
        let (a, c, z1) = qubit_xor(&mut b, a, c, z1);
        let (a, c, z2) = qubit_and(&mut b, a, c, z2);
        let (a, c, z3) = qubit_or(&mut b, a, c, z3);
        let bits = simulate(&b);
        assert_eq!(read(&bits, &z1), x ^ y);
        assert_eq!(read(&bits, &z2), x & y);
        // The or-step flips its target by the negated or.
        assert_eq!(read(&bits, &z3), 1 - (x | y));
        assert_eq!(read(&bits, &a), x);
        assert_eq!(read(&bits, &c), y);
    }
}

#[test]
fn the_sign_is_mirrored_onto_every_layer() {
    use_mirror(true);
    use_mirror(false);
}

fn use_mirror(set: bool) {
    let mut b = CircuitBuilder::new();
    let layers = LayeredRegister::new(&mut b, 6, 2);
    let sign = input(&mut b, 1, if set { 1 } else { 0 });
    let (layers, sign) = layers.mirror_in_range(&mut b, sign, 1, 4);
    let bits = simulate(&b);
    // Layer qubits 1..4 of both layers (0..6 and 6..12) follow the sign.
    for q in 0..12u64 {
        let in_range = (1..4).contains(&(q % 6));
        assert_eq!(bits[q as usize], in_range && set, "qubit {}", q);
    }
    assert_eq!(bits[sign.qubits[0] as usize], set);
    assert_eq!(layers.depth(), 2);
}
