# fluid_sim

Verified integer and grid logic of a multi-block D2Q9 lattice Boltzmann flow
solver that runs in the browser.

- `src/` (Verus): block sizes, the D2Q9 directions and their reversal, streaming
  with and without half-way bounce-back (generic over the stored value), the
  solid map of the main block (cylinder, masks, drawing), the lists of fluid
  nodes that face a solid node, the RGB plot buffer, and the rotation of the
  stored time levels.
- `app/` (plain Rust, `wasm-bindgen`): the floating-point physics (equilibria,
  collision, boundary conditions, interpolation, line integral convolution,
  forces) and the JavaScript interface, calling the library for everything above.
- `tests/`: tests of the library.
