//! Decoding inputs with goblin.
//!
//! The third-party decoder is trusted: each wrapper names what its call
//! returns, as a function of the input bytes alone, and the rest of the
//! crate works on the plain values the wrappers hand back.

use vstd::prelude::*;

use crate::inputs::{
    InputObject, InputObjectV, RawReloc, RelocTable, RelocTableV, SectionInfo, SectionInfoV,
    SymbolInfo, SymbolInfoV,
};

verus! {

/// What `goblin::elf::Elf::parse` exposes of the file identification:
/// whether the input is 64-bit, whether it is little-endian, and its
/// header type. `None` when the bytes do not parse as ELF.
pub uninterp spec fn parsed_ident(bytes: Seq<u8>) -> Option<(bool, bool, u16)>;

/// The section header table `goblin::elf::Elf::parse` exposes, each header
/// with its name resolved through the header string table. `None` when the
/// bytes do not parse as ELF.
pub uninterp spec fn parsed_sections(bytes: Seq<u8>) -> Option<Seq<SectionInfoV>>;

/// The symbol table `goblin::elf::Elf::parse` exposes, each symbol with
/// its name resolved through the string table. `None` when the bytes do
/// not parse as ELF.
pub uninterp spec fn parsed_symbols(bytes: Seq<u8>) -> Option<Seq<SymbolInfoV>>;

/// The relocation sections `goblin::elf::Elf::parse` exposes: for each,
/// the relocation section's own index and its records. `None` when the
/// bytes do not parse as ELF.
pub uninterp spec fn parsed_reloc_tables(bytes: Seq<u8>) -> Option<Seq<RelocTableV>>;

/// One member of an ar archive: its name and its raw bytes.
pub struct ArchiveMember {
    pub name: String,
    pub bytes: Vec<u8>,
}

/// Mathematical image of an [`ArchiveMember`].
pub struct ArchiveMemberV {
    pub name: Seq<char>,
    pub bytes: Seq<u8>,
}

impl View for ArchiveMember {
    type V = ArchiveMemberV;

    open spec fn view(&self) -> ArchiveMemberV {
        ArchiveMemberV { name: self.name@, bytes: self.bytes@ }
    }
}

/// The members an ar archive stores, in the order they appear in the file,
/// duplicate names kept, each member's bytes cut out by the offset and size
/// its own header gives. `None` when the bytes do not parse as an archive
/// or a member's range lies outside the bytes.
pub uninterp spec fn archive_members_of(bytes: Seq<u8>) -> Option<Seq<ArchiveMemberV>>;

/// Relies on `goblin::elf::Elf::parse`: the `is_64` and `little_endian`
/// flags and the header's `e_type` of the parsed ELF.
#[verifier::external_body]
fn parse_ident(bytes: &Vec<u8>) -> (r: Option<(bool, bool, u16)>)
    ensures
        r == parsed_ident(bytes@),
{
    let elf = goblin::elf::Elf::parse(bytes).ok()?;
    Some((elf.is_64, elf.little_endian, elf.header.e_type))
}

/// Relies on `goblin::elf::Elf::parse`: the section header table it
/// exposes, names resolved through `shdr_strtab` (empty when absent).
#[verifier::external_body]
fn parse_section_headers(bytes: &Vec<u8>) -> (r: Option<Vec<SectionInfo>>)
    ensures
        match r {
            Some(v) => parsed_sections(bytes@) == Some(v@.map_values(|s: SectionInfo| s@)),
            None => parsed_sections(bytes@) is None,
        },
{
    let elf = goblin::elf::Elf::parse(bytes).ok()?;
    Some(elf.section_headers.iter().map(|sh| SectionInfo {
        name: elf.shdr_strtab.get_at(sh.sh_name).unwrap_or("").to_string(),
        sh_type: sh.sh_type,
        sh_flags: sh.sh_flags,
        sh_addr: sh.sh_addr,
        sh_info: sh.sh_info,
        sh_addralign: sh.sh_addralign,
        sh_offset: sh.sh_offset,
        sh_size: sh.sh_size,
    }).collect())
}

/// Relies on `goblin::elf::Elf::parse`: the symbol table it exposes, names
/// resolved through `strtab` (empty when absent).
#[verifier::external_body]
fn parse_symbols(bytes: &Vec<u8>) -> (r: Option<Vec<SymbolInfo>>)
    ensures
        match r {
            Some(v) => parsed_symbols(bytes@) == Some(v@.map_values(|s: SymbolInfo| s@)),
            None => parsed_symbols(bytes@) is None,
        },
{
    let elf = goblin::elf::Elf::parse(bytes).ok()?;
    Some(elf.syms.iter().map(|sym| SymbolInfo {
        name: elf.strtab.get_at(sym.st_name).unwrap_or("").to_string(),
        st_info: sym.st_info,
        st_other: sym.st_other,
        st_shndx: sym.st_shndx as u32,
        st_value: sym.st_value,
    }).collect())
}

/// Relies on `goblin::elf::Elf::parse`: the `shdr_relocs` table it
/// exposes — for each relocation section its header index and records.
#[verifier::external_body]
fn parse_reloc_tables(bytes: &Vec<u8>) -> (r: Option<Vec<RelocTable>>)
    ensures
        match r {
            Some(v) => parsed_reloc_tables(bytes@) == Some(v@.map_values(|t: RelocTable| t@)),
            None => parsed_reloc_tables(bytes@) is None,
        },
{
    let elf = goblin::elf::Elf::parse(bytes).ok()?;
    Some(elf.shdr_relocs.iter().map(|(ri, rs)| RelocTable {
        section_index: *ri as u32,
        relocs: rs.iter().map(|r| RawReloc {
            r_offset: r.r_offset,
            r_sym: r.r_sym as u32,
            r_type: r.r_type,
            r_addend: r.r_addend,
        }).collect(),
    }).collect())
}

/// Relies on `goblin::archive::Archive::parse`, `len` and `get_at`: the
/// archive's members in file order (`get_at` indexes the member array,
/// which goblin fills in the order the members appear), each one's bytes
/// taken from the offset and size of its header.
#[verifier::external_body]
pub(crate) fn archive_members(bytes: &Vec<u8>) -> (r: Option<Vec<ArchiveMember>>)
    ensures
        match r {
            Some(v) => archive_members_of(bytes@) == Some(
                v@.map_values(|m: ArchiveMember| m@),
            ),
            None => archive_members_of(bytes@) is None,
        },
{
    let archive = goblin::archive::Archive::parse(bytes).ok()?;
    let mut out = Vec::new();
    for i in 0..archive.len() {
        let m = archive.get_at(i)?;
        let start = m.offset as usize;
        let data = bytes.get(start..start.checked_add(m.size())?)?;
        out.push(ArchiveMember { name: m.extended_name().to_string(), bytes: data.to_vec() });
    }
    Some(out)
}

/// The decoded object of `bytes`: identification, section headers, symbol
/// table, relocation tables, and the bytes themselves. `None` when the
/// bytes do not parse as ELF.
pub open spec fn spec_load_object(bytes: Seq<u8>) -> Option<InputObjectV> {
    match (parsed_ident(bytes), parsed_sections(bytes), parsed_symbols(bytes), parsed_reloc_tables(
        bytes,
    )) {
        (Some(ident), Some(ss), Some(sy), Some(rt)) => Some(
            InputObjectV {
                is_64: ident.0,
                little_endian: ident.1,
                e_type: ident.2,
                sections: ss,
                symbols: sy,
                reloc_tables: rt,
                bytes,
            },
        ),
        _ => None,
    }
}

/// Decode one relocatable object from its bytes.
pub fn load_object(bytes: Vec<u8>) -> (r: Option<InputObject>)
    ensures
        match r {
            Some(o) => spec_load_object(bytes@) == Some(o@),
            None => spec_load_object(bytes@) is None,
        },
{
    let ident = match parse_ident(&bytes) {
        Some(x) => x,
        None => {
            return None;
        },
    };
    let sections = match parse_section_headers(&bytes) {
        Some(x) => x,
        None => {
            return None;
        },
    };
    let symbols = match parse_symbols(&bytes) {
        Some(x) => x,
        None => {
            return None;
        },
    };
    let reloc_tables = match parse_reloc_tables(&bytes) {
        Some(x) => x,
        None => {
            return None;
        },
    };
    Some(
        InputObject {
            is_64: ident.0,
            little_endian: ident.1,
            e_type: ident.2,
            sections,
            symbols,
            reloc_tables,
            bytes,
        },
    )
}

} // verus!
