# brres

A verified reader for BRRES archives, the resource container of the Wii's
NintendoWare graphics runtime.

- `src/` is the library, verified with Verus. Every reader is specified by a
  spec function over the archive's bytes (`spec_parse_brres`,
  `spec_index_header`, `spec_subfile_header`, ...) and returns exactly what
  that function gives, errors included. Proof functions state the shape of
  every tree that is read (`wf_entry`) and what generating the content of
  the sub-files does (`lemma_fill_entry`, `lemma_parse_brres`).
- `app/` is the command-line program: it reads `test.brres`, calls
  `parse_brres`, and prints what it found.
- `tests/` holds the tests, on archives built byte by byte.

Single-precision floats are held as their bit patterns in the library;
`f32::from_bits` turns them into numbers.
