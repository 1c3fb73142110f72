//! A minimal static linker core for 64-bit little-endian x86 ELF relocatable
//! objects: it collects input sections, resolves global symbols, lays the
//! sections out into permission-grouped loadable segments, applies
//! `R_X86_64_PC32` and `R_X86_64_64` relocations, and emits an executable
//! ELF64 image.

pub mod args;
pub mod config;
pub mod decode;
pub mod elf;
pub mod error;
pub mod inputs;
pub mod laws;
pub mod layout;
pub mod linker;
pub mod math;
pub mod name_resolution;
pub mod permissions;
pub mod relocation;
pub mod section;
pub mod write_elf64;
