# mips_workbench

A small MIPS32-inspired workbench, written in Verus: an instruction codec, a two-pass
assembler, a sequential reference machine, a five-stage pipeline with forwarding, a load-use
interlock and control flushes, and a set-associative LRU cache model. Every function of the
library carries a contract over a mathematical model, and Verus proves all of them but one:
`text::chars_to_string`, which collects characters into a `String` through the standard
library and whose contract (the string holds exactly those characters) is trusted.

## Layout

- `src/isa.rs`: instruction decoding, encoding and disassembly; the round-trip law.
- `src/syntax.rs`, `src/assembler.rs`: source text to machine words and symbols.
- `src/machine.rs`: the reference interpreter, one state transition per instruction.
- `src/pipeline.rs`: the IF/ID/EX/MEM/WB model, its trace and its JSON document.
- `src/refinement.rs`: the proof that a completed pipeline run ends in the state the
  reference machine reaches (`lemma_pipeline_matches_reference`).
- `src/round_trip.rs`: the proof that assembling an instruction's disassembly gives back
  its encoding (`lemma_assemble_disassembly`).
- `src/cache.rs`: the cache model and its least-recently-used laws (`lemma_recent_block_hits`,
  `lemma_displaced_block_misses`, `lemma_unused_block_misses`).
- `src/command.rs`, `src/text.rs`: limit parsing, the benchmark report, escaping and text
  rendering.
- `app/main.rs`: the command-line program (files, timing, floating-point ratios).
- `tests/`: executable tests of the library.

## What the main law assumes

The pipeline fetches ahead of the memory stage, so a store that rewrites an instruction
already fetched behind it makes the pipeline execute the old word. The refinement law leaves
out exactly the runs in which such a stale instruction is executed; a rewritten word that the
pipeline discards (behind a taken branch, a jump or `halt`) does not matter.
