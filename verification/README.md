# zkvm

A small zero-knowledge virtual machine front end, verified with Verus: every
function under `src/` carries a `requires`/`ensures` contract that Verus
proves.

## Layout

- `src/field.rs` — BabyBear field arithmetic (`p = 2^31 - 2^27 + 1`).
- `src/vm.rs`, `src/vm/` — the field-native VM: eleven instructions, eight
  registers (`r0` hardwired to 0: it reads 0 and a write to it is dropped
  and recorded as 0; immediates and inputs are reduced into the field), sparse memory, public input/output tapes; `run`
  produces one step record per cycle, `build_columns` lays the records out as
  trace columns (sorted register/memory tables, program ROM, I/O tables,
  range-check bits), `hash_program` binds a program by SHA-256.
  `vm/consistency.rs` proves that in every successful run each read sees the
  last write and the tapes are bound to the `READ`/`WRITE` rows;
  `vm/sorted_tables.rs` that the sorted register and memory tables of the
  trace satisfy read after write.
- `src/decode.rs`, `src/cpu.rs`, `src/memory.rs`, `src/trace.rs`,
  `src/tables.rs`, `src/elf.rs`, `src/io.rs`, `src/host.rs` — the RV32I
  execution path: decoder, byte-addressed logged memory, CPU step and run
  with full trace rows, padding and sorted tables, ELF loading, the guest I/O
  tapes and the prover-builder configuration.
- `src/assembler.rs` — the assembler for the VM's text syntax.
- `src/mini.rs`, `src/mini/` — the `mini` language: lexer, compiler to
  assembly text closed by a final `HALT`; `mini/assembles.rs` proves that whatever `compile`
  produces, `assemble` accepts.
- `src/digest.rs`, `src/sorting.rs` — two of the three calls the library
  trusts: `sha2`'s SHA-256 and the standard library's stable sort; the third
  is `String`'s collection of characters, in `src/mini.rs`.
- `app/main.rs` — the command-line front end (`prove <file.mini|file.asm>
  [-i N ...]`): reads the file, compiles or assembles, runs the VM and builds
  the trace and the program hash.
- `tests/` — the tests.

## What is not here

The constraint system (the AIR over BabyBear and its quartic extension), the
STARK prover and the verifier are not part of this crate: they are built on
the `toyni` proving backend, which this crate does not depend on. The
command-line front end stops after building the trace columns and the
program hash, and says so.
