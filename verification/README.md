# ticit

Simulation and sampling of Clifford circuits with Pauli rotations, with the logic
proved in Verus.

- `src/` is the verified library. `src/lib.rs` says what the modules are. The tableau
  simulator tracks a Clifford frame and a sparse list of amplitudes; the sampler runs
  planned programs on many shots at once, as bit-planes of 64 shots to a word.
- `tests/` runs the library on double-precision amplitudes.
- `app/` is ordinary Rust around it: the double-precision arithmetic and the random
  numbers that the library is handed, threads and timing, error types, and Python
  classes.

Floating point stays outside the proofs. Angles, probabilities and expectation values
are carried as the bits of a double, and the library states of its callers' arithmetic
only what it needs: that lanes keep their lengths and that the same operands give the
same result.
