# ehd_cfd

Mesh handling for a finite-volume electrohydrodynamics (EHD) solver, written
in Verus: the parts that carry no floating-point numbers are verified against
their contracts.

## Layout

- `src/` — the verified library
  - `index.rs` — typed cell, face and node indices; field locations
  - `mesh.rs` — cell types, raw element records, boundary patches
  - `text.rs` — trimming, splitting and decimal parsing of text
  - `gmsh.rs` — the Gmsh MSH 2.2 ASCII reader (nodes as text tokens)
  - `names.rs`, `keyindex.rs` — sorted patch names; a bucketed index of face keys
  - `topology.rs` — element faces, the face table, the face order
  - `layout.rs` — the CSR mesh topology, its invariants, queries and VTK cell arrays
  - `kernel.rs`, `compute.rs`, `config.rs`, `driver.rs` — kernel field references,
    backend markers, configuration defaults, and the driver's output schedule
- `tests/` — tests of the library
- `app/` — the `ehd-sim` program: file I/O, floating-point geometry and
  solvers, VTU output and the command line, around the library
