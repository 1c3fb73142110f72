//! Fatal conditions that abort a link.
//!
//! Every condition is fatal: the linker stops at the first error and flushes
//! no partial output. The variants fall into the classes usage error, input
//! format error, unsupported feature, symbol error and relocation error.

use vstd::prelude::*;

use crate::name_resolution::GlobalLocation;

verus! {

/// Why a patch was rejected by [`crate::section::SectionChunk::patch`].
#[derive(Debug, Clone, Copy, PartialEq, Eq, Structural)]
#[must_use]
pub enum InvalidPatch {
    /// The new patch would overlap an already installed patch.
    Overlapping,
    /// The patched range would extend past the end of the chunk.
    NotInRange,
}

/// A fatal linking error.
#[derive(Debug, Clone)]
pub enum LinkError {
    /// Usage error: an option that takes a value is last on the line.
    MissingOptionValue { option: String },
    /// Usage error: an option this linker does not know.
    UnknownOption { option: String },
    /// Usage error: no output path was given.
    MissingOutput,
    /// Usage error: an input path has no recognised extension.
    UnknownExtension { path: String },
    /// Input format error: the bytes could not be decoded as ELF64.
    UnparsableElf { path: String },
    /// Input format error: the bytes could not be decoded as an ar archive.
    UnparsableArchive { path: String },
    /// Input format error: the input is not 64-bit ELF.
    NotElf64 { path: String },
    /// Input format error: the input is not little-endian.
    NotLittleEndian { path: String },
    /// Input format error: the input is not a relocatable object.
    NotRelocatable { path: String },
    /// Unsupported feature: a PROGBITS input section asks for a fixed address.
    FixedAddressSection { name: String },
    /// Unsupported feature: a relocation mode other than `R_X86_64_PC32`
    /// or `R_X86_64_64`.
    UnknownRelocationMode { mode: u32 },
    /// Unsupported feature: a relocation names a symbol that its own input
    /// defines locally.
    LocalSymbolRelocation { name: String },
    /// Symbol error: two inputs define the same global symbol. Carries the
    /// existing definition's location and the conflicting one's.
    DuplicateSymbol { name: String, existing: GlobalLocation, incoming: GlobalLocation },
    /// Symbol error: a relocation names a symbol that no input has.
    UnresolvedSymbol { name: String },
    /// Symbol error: an imported symbol is not in the global symbol table.
    UnresolvedImport { name: String },
    /// Symbol error: the section that defines a symbol was not placed in
    /// any output segment.
    SectionNotIncluded { name: String },
    /// Symbol error: a section-relative relocation names a section that was
    /// not placed in any output segment.
    AnchorSectionNotIncluded { section_index: u32 },
    /// Relocation error: a PC-relative value does not fit in 32 signed bits.
    RelocationOverflow,
    /// Relocation error: the bytes under a patch were not all zero.
    NonZeroPatchTarget,
    /// Relocation error: a patch was overlapping or out of range.
    BadPatch { reason: InvalidPatch },
    /// A section whose permissions match no palette entry was left over
    /// during segment packing.
    UncollectedSections,
    /// The layout does not fit into the 64-bit address space.
    TooLarge,
}

} // verus!
