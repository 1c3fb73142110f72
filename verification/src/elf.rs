//! ELF constants used across the linker.

use vstd::prelude::*;

verus! {

/// Section holds program data.
pub const SHT_PROGBITS: u32 = 1;
/// Section occupies no file space (BSS); not supported.
pub const SHT_NOBITS: u32 = 8;
/// Section flag: writable at run time.
pub const SHF_WRITE: u64 = 1;
/// Section flag: executable at run time.
pub const SHF_EXECINSTR: u64 = 4;
/// Header type of a relocatable object.
pub const ET_REL: u16 = 1;
/// Header type of an executable.
pub const ET_EXEC: u16 = 2;
/// Machine number of x86-64.
pub const EM_X86_64: u16 = 0x3e;
/// Symbol binding: global.
pub const STB_GLOBAL: u8 = 1;
/// Symbol binding: weak.
pub const STB_WEAK: u8 = 2;
/// Symbol visibility: hidden.
pub const STV_HIDDEN: u8 = 2;
/// `st_info` value of a section symbol (local binding, type section).
pub const STT_SECTION: u8 = 3;
/// Absolute 64-bit relocation.
pub const R_X86_64_64: u32 = 1;
/// PC-relative 32-bit relocation.
pub const R_X86_64_PC32: u32 = 2;
/// Program header type of a loadable segment.
pub const PT_LOAD: u32 = 1;

} // verus!
