# si-geometric-demo

Geometric algebra multivectors for WASM: k-blades, conformal geometry in a
five-dimensional Clifford algebra, rotors, and subspace tracking of agent
trajectories.

Layout:

- `src/` is the verified library (Verus). It holds the exact, integer part of
  the algebra: binomial coefficients, the lexicographic listing of basis blades
  (k-element index subsets) and the position of a bivector in it, permutation
  signs (used by wedge products and Hodge duals), and the product, grade and
  reversal sign of bitmask-indexed basis blades. Each function carries a
  contract, and the laws of the algebra that these kernels carry (symmetry of
  the binomial coefficients, the sign of exchanging two index blocks, the
  anticommutation of basis vectors, and more) are proved as lemmas.
- `app/` is the rest of the library: blades, multivectors, rotors, the tracker
  and the agent demo, all of which compute with `f64` components, and the WASM
  bindings. It calls the verified kernels for binomial coefficients, the
  listing of basis blades, the position of bivector components, permutation
  signs (which also decide whether two index lists complement each other),
  and the product, grade and reversal sign of basis blades. The loops that
  walk over components and fill in floating-point values, with their running
  counters, stay in `app/`, as do fixed tables of multivector indices.
- `tests/` exercises the verified kernels.
