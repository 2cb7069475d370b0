# maple-core

The engine of an AOB (array-of-bytes) pattern scanner and offset dumper, written in Verus. The
functions in `src/` carry contracts that Verus proves, except the small `external_body` wrappers
around calls into std, rayon and iced-x86 (paths, durations, clocks, I/O error kinds, the parallel
map over regions, the instruction decoder): Verus believes their contracts, which their doc
comments state.

- `pattern` — the pattern-file language (`Name = AA ?? BB`, `#32BIT` / `#64BIT` sections,
  `[category]` sections, comments as notes, quoting, wildcards) parsed into masked signatures.
- `scanner` — the masked matcher: every offset where a signature's fixed bytes agree.
- `resolver` — turning a match into a value: relative branch and call targets, RIP-relative
  operands, struct displacements (`_OFF`), immediate operands such as packet header opcodes
  (`_HDR`), nested calls (`_CALL`).
- `engine` — the scan itself (regions searched in parallel with rayon, each searched in exactly
  the bytes its read returned), the summary of a scan by outcome with a row per pattern (unique,
  ambiguous, unresolved, not found), and partial-read bookkeeping.
- `memory` — regions, their coalescing, and the memory-source trait with an in-memory source.
- `model` — the decode-verified direct-call graph of an image (instructions decoded with
  `iced-x86`).
- `config`, `attach`, `exit`, `mksig`, `unpack`, `profile` — the command-line rules: the
  configuration file, how command-line values and defaults combine, exit codes and messages.
- `domain`, `text`, `ioerr` — shared result types, character-level text helpers, I/O error classes.

Facts that span several functions are stated as proof functions next to them, for example that
coalescing is idempotent and does not depend on the order of its input, that a rendered address parses back to itself, and that a scan reports
every pattern exactly once.

`app/` is the command-line front end around the library: argument parsing, reading the
configuration and pattern files, and printing.
