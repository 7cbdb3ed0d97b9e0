# pgmind

A markdown vault with block identity and full history: a note is parsed into blocks that
keep their ids across writes, every write records what it replaced, and every past
state can be read again.

- `src/` is the library: parsing, hashing, extraction, identity, block operations,
  history and erasure, each with its contract.
- `tests/` runs it on concrete notes.
- `app/` is the program around it: the evaluation suites (`conformance`, `roundtrip`,
  `fuzz-roundtrip`, `hash-goldens`, `extraction-goldens`, `perf`), and the statements that
  carry the library's plans out on a server.
- `extras/schema.sql` holds the tables that those statements use.

The markdown grammar, YAML, Unicode normalization and BLAKE3 come from comrak,
yaml-rust2, unicode-normalization and blake3. What the library takes from them is stated
in the few functions that call them.
