# rusparse

Sparse matrix formats (CSR, COO, CSC, BSR, ELL, dense, sparse vectors), their
validation and conversions, the symbolic phases of sparse addition and
multiplication, and the host-side planning of device launches, written in
Verus with their contracts proved.

Layout:

- `src/`: the verified library.
  - `csr.rs`, `dense.rs`, `vector.rs`, `formats.rs`: the formats, their
    validation (each constructor returns exactly the first failed check) and
    conversions to CSR; `pattern.rs` and `assemble.rs`: the counting sort,
    offset and row-assembly machinery they share.
  - `conversion.rs`: dense to and from CSR, COO and CSC.
  - `symbolic.rs`, `terms.rs`, `host.rs`: patterns of sums and products,
    where each operand entry or product term lands, gathering, scattering
    positions and the gradient of densification.
  - `launch.rs`: checks and plans of device launches, and the scatter that
    densifies on a device.
  - `roundtrip.rs`, `transposition.rs`, `sum_algebra.rs`, `routes.rs`: laws
    that relate several operations (dense round trips, transposition, the
    order of the operands of a sum, CSC to CSR against dense to CSR).
- `tests/`: tests of the library, run against the compiled crate.
- `app/`: what Verus does not check: printable errors, serde for CSR
  matrices, the nonzero test of dense to sparse conversions, single-precision
  arithmetic, and device execution on Ruda tensors.
