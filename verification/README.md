# quantum_nonce

A verified library that builds Grover-search circuits for finding a nonce
whose SHA-256 digest (of data followed by the nonce) lies below a limit.

Layout:

- `src/searcher/circuit.rs`: the circuit model: registers as lists of qubit
  indices, a builder that hands out fresh qubits and logs gates, and the
  classical semantics of the gates.
- `src/searcher/utils.rs`: register operations (and, or, xor, not, copies,
  rotations, shifts, comparisons, the adder) and the layered main register.
- `src/searcher/laws.rs`: what the register operations compute on classical
  basis states.
- `src/searcher/searcher.rs`, `oracle.rs`, `checker.rs`, `data_preparer.rs`:
  the search and the interfaces it is built from.
- `src/searcher/backend.rs`: the circuit rebuilt in the `qip` crate.
- `src/sha256/`: the SHA-256 data preparer, checker, schedule word provider
  and oracle, with their laws in `laws.rs`.
- `app/main.rs`: the program: floating-point parts (the iteration count,
  simulation with `qip`) and running the search.

The functions in `src/` are verified with Verus against their contracts,
except the small wrappers marked `#[verifier::external_body]` that make the
calls into the outside crates: the `qip` builder calls in
`src/searcher/backend.rs`, the `sha2` digest in
`src/sha256/sha256_checker.rs`, and `u32::from_ne_bytes` in
`src/sha256/sha256_data_preparer.rs`. Their contracts are trusted; each
doc comment says what it claims of the outside function.
