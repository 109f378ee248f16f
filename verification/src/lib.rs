//! A small zero-knowledge virtual machine: the BabyBear field arithmetic it
//! runs on, the field-native 11-instruction VM with its trace records, the
//! RV32I decoder / memory / CPU used by the RISC-V front end, the assembler
//! for the field-native ISA and the compiler of the `mini` language to it.

pub mod field;
pub mod vm;
pub mod digest;
pub mod decode;
pub mod memory;
pub mod cpu;
pub mod trace;
pub mod sorting;
pub mod tables;
pub mod elf;
pub mod io;
pub mod host;
pub mod air;
pub mod assembler;
pub mod mini;
