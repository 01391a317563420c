# maple_core

A verified engine for cross-version byte signatures, and for cleaning unpacked client images.

Given several builds of one program and a target in one of them, the signature maker looks for the
pattern that finds the same target in every build. Where no pattern of bytes holds, it relocates the
target by what a recompile keeps: strings, imports, constants, callers, the call graph, vtables,
encodings and fingerprints. The unpacker edits a dumped PE image into one that loads and holds it to a
list of gates before anything is written.

## Layout

- `src/` is the library. Every function states what it returns, and Verus proves it. The exceptions are
  the few functions that call `iced-x86` or a part of `std` that has no contract: their contracts are
  believed, and their comments say what they claim.
  - `pattern`, `scanner`, `resolver`, `memory`, `fileimage`, `domain`, `stamp`: patterns, matching,
    memory sources and build stamps.
  - `sigmaker/`: the signature maker. `generate` is the entry point, `bytepath` and `candidates` make
    signatures from bytes, `relocate`, `partial` and `channels` relocate without them, `scoring` grades.
    `promises` states what a reported signature is good for.
  - `unpack/`: `pe` reads and writes headers, `clean` edits an image, `verify` holds it to the gates,
    `flow` decides what a run comes to, `keeps` states what cleaning leaves alone, and `again` that a
    cleaned file is cleaned to itself.
  - `x86`: the one place that asks `iced-x86` about an instruction.
- `tests/` runs the library on small images.
- `app/` is the ordinary Rust around it: files, processes, pipes and JSON.

Similarities are fractions, divided once into whole trillionths and rounded down
(`similarity::SIM_ONE` is one), so a bound that is a whole number of percent is reached exactly where
the fraction reaches it. No result depends on floating-point rounding.
