use quantum_nonce::searcher::circuit::{CircuitBuilder, Gate, QubitRegister};
use quantum_nonce::searcher::utils::LayeredRegister;
use quantum_nonce::sha256::words_provider::{insert_words_in_map, parse_data_into_words, WordsMap, WordsProvider};

fn single(q: u64) -> QubitRegister {
    QubitRegister { qubits: vec![q] }
}

#[test]
fn inserted_words_fill_the_pools_from_the_end() {
    let mut m = WordsMap::new();
    assert!(!m.contains_key(0, 0));
    let words: Vec<QubitRegister> = (0..20).map(single).collect();
    insert_words_in_map(words, &mut m);
    // One whole region: pool i of region 0 gets word 19 - i; words 0..4 are dropped.
    assert!(m.contains_key(0, 0));
    assert!(m.contains_key(0, 15));
    assert!(!m.contains_key(0, 16));
    assert!(!m.contains_key(1, 0));
    assert_eq!(m.pop_word(0, 0).unwrap().qubits, vec![19]);
    assert_eq!(m.pop_word(0, 15).unwrap().qubits, vec![4]);
    assert!(m.pop_word(0, 0).is_none());
    assert!(m.pop_word(3, 0).is_none());
    m.push_word(0, 0, single(99));
    assert_eq!(m.pop_word(0, 0).unwrap().qubits, vec![99]);
}

#[test]
fn a_second_insert_adds_to_the_pools() {
    let mut m = WordsMap::new();
    insert_words_in_map((0..16).map(single).collect(), &mut m);
    insert_words_in_map((100..132).map(single).collect(), &mut m);
    assert!(m.contains_key(1, 15));
    // Pool (0, 0) now holds word 15 from the first insert and word 131 on top.
    assert_eq!(m.pop_word(0, 0).unwrap().qubits, vec![131]);
    assert_eq!(m.pop_word(0, 0).unwrap().qubits, vec![15]);
    assert_eq!(m.pop_word(1, 0).unwrap().qubits, vec![115]);
}

#[test]
fn parsing_swaps_the_layer_into_fresh_words() {
    let mut b = CircuitBuilder::new();
    let reg = b.register(70);
    let (words, init) = parse_data_into_words(&mut b, reg);
    assert_eq!(words.len(), 2);
    assert_eq!(words[0].qubits, (70..102).collect::<Vec<u64>>());
    assert_eq!(words[1].qubits, (102..134).collect::<Vec<u64>>());
    assert_eq!(init.len(), 8);
    assert_eq!(b.qubit_count(), 134);
    let gates = b.gates();
    assert_eq!(gates.len(), 64);
    assert!(matches!(gates[0], Gate::Swap(0, 70)));
    assert!(matches!(gates[63], Gate::Swap(63, 133)));
}

#[test]
fn a_word_comes_from_the_last_layer_and_goes_back_to_its_pool() {
    let mut b = CircuitBuilder::new();
    let mut regs = LayeredRegister::new(&mut b, 512, 2);
    assert_eq!(b.qubit_count(), 1024);
    let mut wp = WordsProvider::init();
    let (w, init) = wp.get_word(&mut b, &mut regs, 0, 0);
    // The last layer (qubits 512..1024) became 16 words at 1024..1536; word 0
    // of region 0 is the last of them.
    assert_eq!(w.qubits, (1504..1536).collect::<Vec<u64>>());
    assert_eq!(init.len(), 64);
    assert_eq!(regs.depth(), 1);
    assert_eq!(b.qubit_count(), 1536);
    wp.return_word(w, 0, 0);
    let (again, init) = wp.get_word(&mut b, &mut regs, 0, 0);
    assert_eq!(again.qubits, (1504..1536).collect::<Vec<u64>>());
    assert!(init.is_empty());
    assert_eq!(regs.depth(), 1);
    assert_eq!(b.qubit_count(), 1536);
    let (w5, _) = wp.get_word(&mut b, &mut regs, 0, 5);
    assert_eq!(w5.qubits, (1344..1376).collect::<Vec<u64>>());
}

#[test]
fn word_sixteen_is_generated_from_earlier_words() {
    let mut b = CircuitBuilder::new();
    let mut regs = LayeredRegister::new(&mut b, 512, 1);
    let mut wp = WordsProvider::init();
    let (w0, _) = wp.get_word(&mut b, &mut regs, 0, 0);
    wp.return_word(w0, 0, 0);
    let next = b.qubit_count();
    let gates = b.gates().len();
    let (w16, init) = wp.get_word(&mut b, &mut regs, 0, 16);
    assert_eq!(w16.qubits, (next + 584..next + 616).collect::<Vec<u64>>());
    assert_eq!(b.qubit_count(), next + 716);
    assert!(b.gates().len() > gates);
    assert!(!init.is_empty());
    assert_eq!(regs.depth(), 0);
    // The four source words are back in their pools.
    let (w1, init) = wp.get_word(&mut b, &mut regs, 0, 1);
    assert!(init.is_empty());
    assert_eq!(w1.qubits.len(), 32);
}

#[test]
fn a_word_of_any_width_can_be_handed_back() {
    let mut b = CircuitBuilder::new();
    let mut regs = LayeredRegister::new(&mut b, 512, 2);
    let mut wp = WordsProvider::init();
    let (w, _) = wp.get_word(&mut b, &mut regs, 0, 3);
    assert_eq!(w.qubits.len(), 32);
    wp.return_word(w, 0, 3);
    wp.return_word(QubitRegister { qubits: vec![7, 8, 9] }, 0, 3);
    assert_eq!(regs.depth(), 1);
}
