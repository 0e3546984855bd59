# lattica_prover_p3

The verified core of a zero-knowledge prover over the Goldilocks field: the field and its quadratic
extension, the Poseidon2 permutation and the sponges over it, Merkle paths and caps, a native check of
FRI proofs, the constraint systems of an in-circuit verifier with the traces that meet them, the
admission and the layout of aggregates, and the bookkeeping of a spilling allocator.

- `src/` is the library. A constraint system is a list of polynomials (`expr`), and each has laws: that
  a trace which meets it is what it claims (`*_sound`), and that an honest trace meets it
  (`*_complete`). `monolith::accepted` has that an accepted proof gives an honest trace, and
  `monolith::public_laws` that a trace has its own public values. What is called in the `p3-*` crates
  and in `postcard` stands behind a few trusted functions, each with its contract beside it.
- `app/` proves and verifies with the constraint systems of the library, and holds configurations,
  serialisation, the environment and the allocator.
- `tests/` runs the library against real proofs.
