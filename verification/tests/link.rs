// End-to-end and unit tests for the linker library.

use minilink::args::parse_args;
use minilink::config::Config;
use minilink::error::{InvalidPatch, LinkError};
use minilink::inputs::{
    InputCache, InputCacheItem, InputId, InputObject, RawReloc, RelocTable, SectionInfo,
    SourceFile, SymbolInfo,
};
use minilink::linker::{build, build_binary, extract_section_names, verify_inputs};
use minilink::math::align_up;
use minilink::name_resolution::{extract_globals, resolve_name, NameResolved};

use minilink::permissions::Permissions;
use minilink::relocation::lookup_input_section_addr;
use minilink::section::SectionChunk;

fn test_config() -> Config {
    Config { base_addr: 0x40_0000, segment_file_align: 0x1000, page_size: 0x1000 }
}

fn sec(name: &str, sh_type: u32, flags: u64, info: u32, align: u64, off: u64, size: u64) -> SectionInfo {
    SectionInfo {
        name: name.to_string(),
        sh_type,
        sh_flags: flags,
        sh_addr: 0,
        sh_info: info,
        sh_addralign: align,
        sh_offset: off,
        sh_size: size,
    }
}

fn sym(name: &str, st_info: u8, st_other: u8, st_shndx: u32, st_value: u64) -> SymbolInfo {
    SymbolInfo { name: name.to_string(), st_info, st_other, st_shndx, st_value }
}

fn obj(
    sections: Vec<SectionInfo>,
    symbols: Vec<SymbolInfo>,
    reloc_tables: Vec<RelocTable>,
    bytes: Vec<u8>,
) -> InputObject {
    InputObject { is_64: true, little_endian: true, e_type: 1, sections, symbols, reloc_tables, bytes }
}

fn cache_of(objs: Vec<InputObject>) -> InputCache {
    let mut cache = InputCache::new();
    for (i, o) in objs.into_iter().enumerate() {
        cache.files.push(InputCacheItem::Elf { object: o });
        cache.file_paths.push(format!("in{}.o", i));
    }
    cache
}

fn link_bytes(cache: &InputCache) -> Result<Vec<u8>, LinkError> {
    let config = test_config();
    verify_inputs(cache)?;
    let names = extract_section_names(cache);
    let globals = extract_globals(cache)?;
    let linked = build(&config, cache, &names, &globals)?;
    build_binary(&config, cache, &linked)
}

fn u16_at(image: &[u8], off: usize) -> u16 {
    u16::from_le_bytes([image[off], image[off + 1]])
}

fn u32_at(image: &[u8], off: usize) -> u32 {
    u32::from_le_bytes([image[off], image[off + 1], image[off + 2], image[off + 3]])
}

fn u64_at(image: &[u8], off: usize) -> u64 {
    let mut b = [0u8; 8];
    b.copy_from_slice(&image[off..off + 8]);
    u64::from_le_bytes(b)
}

// ---------------------------------------------------------------------------
// Small helpers
// ---------------------------------------------------------------------------

#[test]
fn align_up_basics() {
    assert_eq!(align_up(5, 4), 8);
    assert_eq!(align_up(8, 4), 8);
    assert_eq!(align_up(7, 0), 7);
    assert_eq!(align_up(7, 1), 7);
    assert_eq!(align_up(0, 4096), 0);
    assert_eq!(align_up(1, 4096), 4096);
}

#[test]
fn permissions_relax_and_restrict() {
    let mut p = Permissions { read: true, write: false, execute: false };
    p.relax(Permissions { read: false, write: true, execute: false });
    assert_eq!(p, Permissions { read: true, write: true, execute: false });
    p.restrict(Permissions { read: true, write: false, execute: true });
    assert_eq!(p, Permissions { read: true, write: false, execute: false });
}

// ---------------------------------------------------------------------------
// The patch API
// ---------------------------------------------------------------------------

fn plain_chunk(size: usize) -> SectionChunk {
    SectionChunk::new(
        InputId { file: 0, member: None },
        1,
        vec![0u8; size],
        1,
        Permissions { read: true, write: false, execute: false },
        Vec::new(),
    )
}

#[test]
fn patch_rejects_out_of_range() {
    let mut c = plain_chunk(8);
    assert!(matches!(c.patch(5, vec![1, 2, 3, 4]), Err(InvalidPatch::NotInRange)));
}

#[test]
fn patch_may_occupy_the_final_byte() {
    let mut c = plain_chunk(8);
    assert!(c.patch(4, vec![1, 2, 3, 4]).is_ok());
}

#[test]
fn patch_rejects_overlap() {
    let mut c = plain_chunk(16);
    assert!(c.patch(4, vec![1, 2, 3, 4]).is_ok());
    assert!(matches!(c.patch(6, vec![9, 9]), Err(InvalidPatch::Overlapping)));
    assert!(matches!(c.patch(0, vec![9, 9, 9, 9, 9]), Err(InvalidPatch::Overlapping)));
}

#[test]
fn touching_patches_are_allowed() {
    let mut c = plain_chunk(16);
    assert!(c.patch(4, vec![1, 2, 3, 4]).is_ok());
    assert!(c.patch(8, vec![5, 6]).is_ok()); // starts at the earlier patch's end
    assert!(c.patch(2, vec![7, 8]).is_ok()); // ends at the earlier patch's start
    let mut out = Vec::new();
    c.write_finalized(&mut out);
    assert_eq!(out, vec![0, 0, 7, 8, 1, 2, 3, 4, 5, 6, 0, 0, 0, 0, 0, 0]);
}

#[test]
fn write_finalized_overlays_patches() {
    let mut c = plain_chunk(8);
    c.patch(2, vec![0xaa, 0xbb]).unwrap();
    c.patch(6, vec![0xcc]).unwrap();
    let mut out = Vec::new();
    c.write_finalized(&mut out);
    assert_eq!(out, vec![0, 0, 0xaa, 0xbb, 0, 0, 0xcc, 0]);
    assert_eq!(out.len(), 8);
}

// ---------------------------------------------------------------------------
// Single object, absolute relocation
// ---------------------------------------------------------------------------

fn abs_reloc_object() -> InputObject {
    // Section 1: .text, 16 bytes at offset 0; section 2: .rodata, 16 bytes
    // at offset 16; section 3: a relocation table for .text.
    let bytes = vec![0u8; 32];
    let sections = vec![
        sec("", 0, 0, 0, 0, 0, 0),
        sec(".text", 1, 6, 0, 16, 0, 16),
        sec(".rodata", 1, 2 /* SHF_ALLOC */, 0, 8, 16, 16),
        sec(".rela.text", 4, 0, 1, 8, 0, 0),
    ];
    let symbols = vec![
        sym("", 0, 0, 0, 0),
        sym("K", 0x10, 0, 2, 8), // global, defined in .rodata at offset 8
    ];
    let reloc_tables = vec![RelocTable {
        section_index: 3,
        relocs: vec![RawReloc { r_offset: 4, r_sym: 1, r_type: 1, r_addend: Some(0) }],
    }];
    obj(sections, symbols, reloc_tables, bytes)
}

#[test]
fn single_object_absolute_reloc() {
    let cache = cache_of(vec![abs_reloc_object()]);
    let image = link_bytes(&cache).unwrap();

    // Reparse the header: executable, x86-64, two loadable segments.
    assert_eq!(&image[0..4], &[0x7f, 0x45, 0x4c, 0x46]);
    assert_eq!(u16_at(&image, 16), 2); // e_type == ET_EXEC
    assert_eq!(u16_at(&image, 18), 0x3e); // e_machine == EM_X86_64
    assert_eq!(u16_at(&image, 56), 2); // e_phnum == segment count

    // Program headers: r-x then r--, page-aligned addresses, file and
    // memory sizes equal.
    let ph0 = 64;
    let ph1 = 64 + 56;
    assert_eq!(u32_at(&image, ph0), 1); // PT_LOAD
    assert_eq!(u32_at(&image, ph0 + 4), 0b101); // r-x
    assert_eq!(u64_at(&image, ph0 + 16), 0x40_0000); // p_vaddr
    assert_eq!(u64_at(&image, ph0 + 8), 0x1000); // p_offset
    assert_eq!(u64_at(&image, ph0 + 32), u64_at(&image, ph0 + 40)); // filesz == memsz
    assert_eq!(u32_at(&image, ph1 + 4), 0b100); // r--
    assert_eq!(u64_at(&image, ph1 + 16), 0x40_1000);
    assert_eq!(u64_at(&image, ph1 + 8), 0x2000);
    assert_eq!(u64_at(&image, ph1 + 16) % 0x1000, 0);

    // The absolute relocation wrote base + .rodata start + K's offset
    // within .rodata into .text at offset 4.
    assert_eq!(u64_at(&image, 0x1000 + 4), 0x40_0000 + 0x1000 + 8);

    // Whole-file size: the first content offset plus one page per segment.
    assert_eq!(image.len(), 0x3000);
}

#[test]
fn segment_file_offsets_match_relocation_offsets() {
    let cache = cache_of(vec![abs_reloc_object()]);
    let config = test_config();
    let names = extract_section_names(&cache);
    let globals = extract_globals(&cache).unwrap();
    let linked = build(&config, &cache, &names, &globals).unwrap();
    // The .rodata chunk's base-relative address equals its segment's file
    // offset minus the first content offset.
    let addr = lookup_input_section_addr(
        &linked,
        &config,
        InputId { file: 0, member: None },
        2,
    );
    assert_eq!(addr, Some(0x1000));
    let image = build_binary(&config, &cache, &linked).unwrap();
    let p_offset1 = u64_at(&image, 64 + 56 + 8);
    assert_eq!(p_offset1 - 0x1000, 0x1000); // first content offset is 0x1000
}

// ---------------------------------------------------------------------------
// Two objects, PC-relative call
// ---------------------------------------------------------------------------

#[test]
fn two_objects_pc_relative_call() {
    // Object A: .text of 32 bytes, defines _start, calls helper with a
    // PC-relative relocation at offset 6, addend -4.
    let a = obj(
        vec![
            sec("", 0, 0, 0, 0, 0, 0),
            sec(".text", 1, 6, 0, 1, 0, 32),
            sec(".rela.text", 4, 0, 1, 8, 0, 0),
        ],
        vec![
            sym("", 0, 0, 0, 0),
            sym("_start", 0x10, 0, 1, 0),
            sym("helper", 0x10, 0, 0, 0), // undefined: an import
        ],
        vec![RelocTable {
            section_index: 2,
            relocs: vec![RawReloc { r_offset: 6, r_sym: 2, r_type: 2, r_addend: Some(-4) }],
        }],
        vec![0u8; 32],
    );
    // Object B: .text of 16 bytes, defines helper at offset 0.
    let b = obj(
        vec![sec("", 0, 0, 0, 0, 0, 0), sec(".text", 1, 6, 0, 1, 0, 16)],
        vec![sym("", 0, 0, 0, 0), sym("helper", 0x10, 0, 1, 0)],
        vec![],
        vec![0u8; 16],
    );
    let cache = cache_of(vec![a, b]);
    let image = link_bytes(&cache).unwrap();

    // One r-x segment holding A's then B's .text.
    assert_eq!(u16_at(&image, 56), 1);
    // helper sits at base-relative 32; the patched value is
    // helper - 4 - (A chunk start + 6) = 32 - 4 - 6 = 22.
    let v = u32_at(&image, 0x1000 + 6) as i32;
    assert_eq!(v, 22);
}

#[test]
fn absolute_reloc_adds_symbol_offset_and_addend() {
    // Same object as the absolute scenario, but with an addend of 8 on top
    // of K's offset of 8.
    let mut o = abs_reloc_object();
    o.reloc_tables[0].relocs[0].r_addend = Some(8);
    let cache = cache_of(vec![o]);
    let image = link_bytes(&cache).unwrap();
    assert_eq!(u64_at(&image, 0x1000 + 4), 0x40_0000 + 0x1000 + 8 + 8);
}

#[test]
fn adjacent_relocations_are_accepted() {
    // Two PC-relative patches whose ranges touch at offset 4.
    let o = reloc_object(
        vec![
            RawReloc { r_offset: 0, r_sym: 1, r_type: 2, r_addend: Some(0) },
            RawReloc { r_offset: 4, r_sym: 1, r_type: 2, r_addend: Some(0) },
        ],
        vec![sym("", 0, 0, 0, 0), sym("s", 0x10, 0, 1, 0)],
        vec![0u8; 16],
    );
    let cache = cache_of(vec![o]);
    assert!(link_bytes(&cache).is_ok());
}

// ---------------------------------------------------------------------------
// Duplicate global
// ---------------------------------------------------------------------------

#[test]
fn duplicate_global_is_fatal() {
    let mk = || {
        obj(
            vec![sec("", 0, 0, 0, 0, 0, 0), sec(".text", 1, 6, 0, 1, 0, 8)],
            vec![sym("", 0, 0, 0, 0), sym("dup", 0x10, 0, 1, 0)],
            vec![],
            vec![0u8; 8],
        )
    };
    let cache = cache_of(vec![mk(), mk()]);
    match extract_globals(&cache) {
        Err(LinkError::DuplicateSymbol { name, existing, incoming }) => {
            assert_eq!(name, "dup");
            // The diagnostic names both conflicting inputs.
            assert_eq!(existing.input, InputId { file: 0, member: None });
            assert_eq!(existing.symtab_index, 1);
            assert_eq!(incoming.input, InputId { file: 1, member: None });
            assert_eq!(incoming.symtab_index, 1);
        }
        other => panic!("expected a duplicate-symbol error, got {:?}", other.is_ok()),
    }
}

// ---------------------------------------------------------------------------
// Fixed-address input section
// ---------------------------------------------------------------------------

#[test]
fn fixed_address_section_is_fatal() {
    let mut o = obj(
        vec![sec("", 0, 0, 0, 0, 0, 0), sec(".text", 1, 6, 0, 1, 0, 8)],
        vec![],
        vec![],
        vec![0u8; 8],
    );
    o.sections[1].sh_addr = 0x1000;
    let cache = cache_of(vec![o]);
    let config = test_config();
    let names = extract_section_names(&cache);
    let globals = extract_globals(&cache).unwrap();
    match build(&config, &cache, &names, &globals) {
        Err(LinkError::FixedAddressSection { name }) => assert_eq!(name, ".text"),
        _ => panic!("expected a fixed-address error"),
    }
}

// ---------------------------------------------------------------------------
// Permission grouping
// ---------------------------------------------------------------------------

#[test]
fn permission_grouping_orders_segments() {
    let a = obj(
        vec![sec("", 0, 0, 0, 0, 0, 0), sec(".text.a", 1, 6, 0, 1, 0, 8)],
        vec![],
        vec![],
        vec![0u8; 8],
    );
    let b = obj(
        vec![sec("", 0, 0, 0, 0, 0, 0), sec(".rodata.b", 1, 2, 0, 1, 0, 8)],
        vec![],
        vec![],
        vec![0u8; 8],
    );
    // A writable section inside the .rodata group: read-write permissions.
    let c = obj(
        vec![sec("", 0, 0, 0, 0, 0, 0), sec(".rodata.mut", 1, 3, 0, 1, 0, 8)],
        vec![],
        vec![],
        vec![0u8; 8],
    );
    let cache = cache_of(vec![a, b, c]);
    let image = link_bytes(&cache).unwrap();
    assert_eq!(u16_at(&image, 56), 3);
    let flags = |i: usize| u32_at(&image, 64 + 56 * i + 4);
    assert_eq!(flags(0), 0b101); // r-x
    assert_eq!(flags(1), 0b100); // r--
    assert_eq!(flags(2), 0b110); // rw-
    for i in 0..3 {
        assert_eq!(u64_at(&image, 64 + 56 * i + 16) % 0x1000, 0);
    }
}

// ---------------------------------------------------------------------------
// Linking a single object defining _start in .text._start succeeds
// ---------------------------------------------------------------------------

#[test]
fn single_start_object_links() {
    let o = obj(
        vec![sec("", 0, 0, 0, 0, 0, 0), sec(".text._start", 1, 6, 0, 16, 0, 16)],
        vec![sym("", 0, 0, 0, 0), sym("_start", 0x10, 0, 1, 0)],
        vec![],
        vec![0u8; 16],
    );
    let cache = cache_of(vec![o]);
    let image = link_bytes(&cache).unwrap();
    assert_eq!(u16_at(&image, 16), 2);
    assert_eq!(u64_at(&image, 24), 0x40_0000); // e_entry is the base address
}

#[test]
fn empty_input_set_links_to_a_bare_header() {
    let cache = InputCache::new();
    let image = link_bytes(&cache).unwrap();
    // The header, then padding up to the first content offset.
    assert_eq!(image.len(), 0x1000);
    assert_eq!(u16_at(&image, 56), 0);
}

// ---------------------------------------------------------------------------
// Relocation error cases
// ---------------------------------------------------------------------------

fn reloc_object(relocs: Vec<RawReloc>, symbols: Vec<SymbolInfo>, text: Vec<u8>) -> InputObject {
    let size = text.len() as u64;
    obj(
        vec![
            sec("", 0, 0, 0, 0, 0, 0),
            sec(".text", 1, 6, 0, 1, 0, size),
            sec(".rela.text", 4, 0, 1, 8, 0, 0),
        ],
        symbols,
        vec![RelocTable { section_index: 2, relocs }],
        text,
    )
}

fn build_err(o: InputObject) -> LinkError {
    let cache = cache_of(vec![o]);
    let config = test_config();
    let names = extract_section_names(&cache);
    let globals = extract_globals(&cache).unwrap();
    build(&config, &cache, &names, &globals).err().expect("expected the link to fail")
}

#[test]
fn unknown_relocation_mode_is_fatal() {
    let o = reloc_object(
        vec![RawReloc { r_offset: 0, r_sym: 1, r_type: 99, r_addend: Some(0) }],
        vec![sym("", 0, 0, 0, 0), sym("x", 0x10, 0, 1, 0)],
        vec![0u8; 16],
    );
    assert!(matches!(build_err(o), LinkError::UnknownRelocationMode { mode: 99 }));
}

#[test]
fn local_symbol_relocation_is_fatal() {
    let o = reloc_object(
        vec![RawReloc { r_offset: 0, r_sym: 1, r_type: 2, r_addend: Some(0) }],
        vec![sym("", 0, 0, 0, 0), sym("loc", 0x00, 0, 1, 4)],
        vec![0u8; 16],
    );
    match build_err(o) {
        LinkError::LocalSymbolRelocation { name } => assert_eq!(name, "loc"),
        other => panic!("unexpected error: {:?}", matches!(other, LinkError::TooLarge)),
    }
}

#[test]
fn unresolved_import_is_fatal() {
    let o = reloc_object(
        vec![RawReloc { r_offset: 0, r_sym: 1, r_type: 2, r_addend: Some(0) }],
        vec![sym("", 0, 0, 0, 0), sym("missing", 0x10, 0, 0, 0)],
        vec![0u8; 16],
    );
    match build_err(o) {
        LinkError::UnresolvedImport { name } => assert_eq!(name, "missing"),
        _ => panic!("expected an unresolved import"),
    }
}

#[test]
fn symbol_in_uncollected_section_is_fatal() {
    // K is defined in .data, which no name group collects.
    let o = obj(
        vec![
            sec("", 0, 0, 0, 0, 0, 0),
            sec(".text", 1, 6, 0, 1, 0, 16),
            sec(".data", 1, 3, 0, 1, 16, 8),
            sec(".rela.text", 4, 0, 1, 8, 0, 0),
        ],
        vec![sym("", 0, 0, 0, 0), sym("K", 0x10, 0, 0, 0)],
        vec![RelocTable {
            section_index: 3,
            relocs: vec![RawReloc { r_offset: 0, r_sym: 1, r_type: 1, r_addend: Some(0) }],
        }],
        vec![0u8; 24],
    );
    let k_def = obj(
        vec![sec("", 0, 0, 0, 0, 0, 0), sec(".data", 1, 3, 0, 1, 0, 8)],
        vec![sym("", 0, 0, 0, 0), sym("K", 0x10, 0, 1, 0)],
        vec![],
        vec![0u8; 8],
    );
    let cache = cache_of(vec![o, k_def]);
    let config = test_config();
    let names = extract_section_names(&cache);
    let globals = extract_globals(&cache).unwrap();
    match build(&config, &cache, &names, &globals) {
        Err(LinkError::SectionNotIncluded { name }) => assert_eq!(name, "K"),
        _ => panic!("expected a missing-section error"),
    }
}

#[test]
fn anchor_section_not_included_is_fatal() {
    // A section-relative relocation (st_info == STT_SECTION) naming a
    // section that no segment includes.
    let o = reloc_object(
        vec![RawReloc { r_offset: 0, r_sym: 1, r_type: 1, r_addend: Some(0) }],
        vec![sym("", 0, 0, 0, 0), sym("", 3, 0, 7, 0)],
        vec![0u8; 16],
    );
    assert!(matches!(
        build_err(o),
        LinkError::AnchorSectionNotIncluded { section_index: 7 }
    ));
}

#[test]
fn pc_relative_overflow_is_fatal() {
    let o = reloc_object(
        vec![RawReloc { r_offset: 0, r_sym: 1, r_type: 2, r_addend: Some(i64::MAX) }],
        vec![sym("", 0, 0, 0, 0), sym("s", 0x10, 0, 1, 0)],
        vec![0u8; 16],
    );
    assert!(matches!(build_err(o), LinkError::RelocationOverflow));
}

#[test]
fn nonzero_patch_target_is_fatal() {
    let mut text = vec![0u8; 16];
    text[2] = 0x90;
    let o = reloc_object(
        vec![RawReloc { r_offset: 0, r_sym: 1, r_type: 2, r_addend: Some(0) }],
        vec![sym("", 0, 0, 0, 0), sym("s", 0x10, 0, 1, 0)],
        text,
    );
    assert!(matches!(build_err(o), LinkError::NonZeroPatchTarget));
}

#[test]
fn overlapping_relocations_are_fatal() {
    let o = reloc_object(
        vec![
            RawReloc { r_offset: 0, r_sym: 1, r_type: 2, r_addend: Some(0) },
            RawReloc { r_offset: 2, r_sym: 1, r_type: 2, r_addend: Some(0) },
        ],
        vec![sym("", 0, 0, 0, 0), sym("s", 0x10, 0, 1, 0)],
        vec![0u8; 16],
    );
    assert!(matches!(
        build_err(o),
        LinkError::BadPatch { reason: InvalidPatch::Overlapping }
    ));
}

#[test]
fn uncollected_sections_are_fatal() {
    // A name observed only as NOBITS yields an empty section whose
    // permissions match no palette entry.
    let o = obj(
        vec![sec("", 0, 0, 0, 0, 0, 0), sec(".text.bss", 8, 3, 0, 1, 0, 64)],
        vec![],
        vec![],
        vec![0u8; 8],
    );
    let cache = cache_of(vec![o]);
    let config = test_config();
    let names = extract_section_names(&cache);
    let globals = extract_globals(&cache).unwrap();
    assert!(matches!(
        build(&config, &cache, &names, &globals),
        Err(LinkError::UncollectedSections)
    ));
}

#[test]
fn absurd_alignment_is_too_large() {
    let o = obj(
        vec![sec("", 0, 0, 0, 0, 0, 0), sec(".text", 1, 6, 0, u64::MAX, 0, 8)],
        vec![],
        vec![],
        vec![0u8; 8],
    );
    let cache = cache_of(vec![o]);
    let config = test_config();
    let names = extract_section_names(&cache);
    let globals = extract_globals(&cache).unwrap();
    assert!(matches!(build(&config, &cache, &names, &globals), Err(LinkError::TooLarge)));
}

#[test]
fn inputs_must_be_relocatable_elf64() {
    let mut o = obj(vec![], vec![], vec![], vec![]);
    o.is_64 = false;
    assert!(matches!(
        verify_inputs(&cache_of(vec![o])),
        Err(LinkError::NotElf64 { .. })
    ));
    let mut o = obj(vec![], vec![], vec![], vec![]);
    o.little_endian = false;
    assert!(matches!(
        verify_inputs(&cache_of(vec![o])),
        Err(LinkError::NotLittleEndian { .. })
    ));
    let mut o = obj(vec![], vec![], vec![], vec![]);
    o.e_type = 2;
    assert!(matches!(
        verify_inputs(&cache_of(vec![o])),
        Err(LinkError::NotRelocatable { .. })
    ));
}

// ---------------------------------------------------------------------------
// Name resolution
// ---------------------------------------------------------------------------

#[test]
fn resolve_name_finds_imports_and_locals() {
    let o = obj(
        vec![sec("", 0, 0, 0, 0, 0, 0), sec(".text", 1, 6, 0, 1, 0, 8)],
        vec![
            sym("", 0, 0, 0, 0),
            sym("imp", 0x10, 0, 0, 0),
            sym("loc", 0x00, 0, 1, 4),
        ],
        vec![],
        vec![0u8; 8],
    );
    assert!(matches!(
        resolve_name(&o, &"imp".to_string()),
        Some(NameResolved::Import)
    ));
    assert!(matches!(
        resolve_name(&o, &"loc".to_string()),
        Some(NameResolved::Local(_))
    ));
    assert!(resolve_name(&o, &"absent".to_string()).is_none());
}

#[test]
fn hidden_and_local_symbols_are_not_globals() {
    let o = obj(
        vec![sec("", 0, 0, 0, 0, 0, 0), sec(".text", 1, 6, 0, 1, 0, 8)],
        vec![
            sym("", 0, 0, 0, 0),
            sym("hidden", 0x10, 2, 1, 0), // global but hidden
            sym("local", 0x00, 0, 1, 0),  // local binding
            sym("undef", 0x10, 0, 0, 0),  // undefined
            sym("good", 0x10, 0, 1, 4),
        ],
        vec![],
        vec![0u8; 8],
    );
    let table = extract_globals(&cache_of(vec![o])).unwrap();
    assert_eq!(table.entries.len(), 1);
    assert_eq!(table.entries[0].name, "good");
    assert_eq!(table.entries[0].location.symtab_index, 4);
}

// ---------------------------------------------------------------------------
// Argument parsing
// ---------------------------------------------------------------------------

fn argv(args: &[&str]) -> Vec<String> {
    args.iter().map(|s| s.to_string()).collect()
}

#[test]
fn parse_args_collects_paths() {
    let a = parse_args(&argv(&[
        "-L",
        "libs",
        "-o",
        "out.elf",
        "-flavor",
        "gnu",
        "--as-needed",
        "--script=x.ld",
        "-zmax-page-size=0x1000",
        "a.o",
        "b.rlib",
    ]))
    .unwrap();
    assert_eq!(a.library_paths, vec!["libs".to_string()]);
    assert_eq!(a.inputs, vec!["a.o".to_string(), "b.rlib".to_string()]);
    assert_eq!(a.output, "out.elf");
}

#[test]
fn parse_args_rejects_unknown_options() {
    assert!(matches!(
        parse_args(&argv(&["-o", "x", "--bogus"])),
        Err(LinkError::UnknownOption { .. })
    ));
    assert!(matches!(
        parse_args(&argv(&["a.o"])),
        Err(LinkError::MissingOutput)
    ));
    assert!(matches!(
        parse_args(&argv(&["-o"])),
        Err(LinkError::MissingOptionValue { .. })
    ));
}

// ---------------------------------------------------------------------------
// Decoding real ELF and archive bytes
// ---------------------------------------------------------------------------

fn push_shdr(
    v: &mut Vec<u8>,
    name: u32,
    sh_type: u32,
    flags: u64,
    addr: u64,
    off: usize,
    size: usize,
    link: u32,
    info: u32,
    align: u64,
    entsize: u64,
) {
    v.extend(name.to_le_bytes());
    v.extend(sh_type.to_le_bytes());
    v.extend(flags.to_le_bytes());
    v.extend(addr.to_le_bytes());
    v.extend((off as u64).to_le_bytes());
    v.extend((size as u64).to_le_bytes());
    v.extend(link.to_le_bytes());
    v.extend(info.to_le_bytes());
    v.extend(align.to_le_bytes());
    v.extend(entsize.to_le_bytes());
}

/// A minimal ELF64 relocatable object with one `.text` section.
fn mini_elf(text: &[u8]) -> Vec<u8> {
    let shstrtab: &[u8] = b"\0.text\0.shstrtab\0";
    let text_off = 64usize;
    let str_off = text_off + text.len();
    let sh_off = (str_off + shstrtab.len() + 7) & !7usize;

    let mut v = Vec::new();
    v.extend_from_slice(&[0x7f, 0x45, 0x4c, 0x46, 2, 1, 1, 0, 0, 0, 0, 0, 0, 0, 0, 0]);
    v.extend(1u16.to_le_bytes()); // ET_REL
    v.extend(0x3eu16.to_le_bytes());
    v.extend(1u32.to_le_bytes());
    v.extend(0u64.to_le_bytes()); // e_entry
    v.extend(0u64.to_le_bytes()); // e_phoff
    v.extend((sh_off as u64).to_le_bytes());
    v.extend(0u32.to_le_bytes());
    v.extend(64u16.to_le_bytes());
    v.extend(0u16.to_le_bytes());
    v.extend(0u16.to_le_bytes());
    v.extend(64u16.to_le_bytes());
    v.extend(3u16.to_le_bytes());
    v.extend(2u16.to_le_bytes());
    assert_eq!(v.len(), 64);
    v.extend_from_slice(text);
    v.extend_from_slice(shstrtab);
    while v.len() < sh_off {
        v.push(0);
    }
    v.extend([0u8; 64]); // the null section header
    push_shdr(&mut v, 1, 1, 6, 0, text_off, text.len(), 0, 0, 16, 0);
    push_shdr(&mut v, 7, 3, 0, 0, str_off, shstrtab.len(), 0, 0, 1, 0);
    v
}

/// An ar archive of the given members.
fn ar_archive(members: &[(&str, &[u8])]) -> Vec<u8> {
    let mut v = b"!<arch>\n".to_vec();
    for (name, data) in members {
        v.extend(format!("{:<16}", format!("{}/", name)).bytes());
        v.extend(format!("{:<12}", 0).bytes());
        v.extend(format!("{:<6}", 0).bytes());
        v.extend(format!("{:<6}", 0).bytes());
        v.extend(format!("{:<8}", 100644).bytes());
        v.extend(format!("{:<10}", data.len()).bytes());
        v.extend_from_slice(b"`\n");
        v.extend_from_slice(data);
        if data.len() % 2 == 1 {
            v.push(b'\n');
        }
    }
    v
}

#[test]
fn read_all_decodes_an_object_file() {
    let mut cache = InputCache::new();
    cache
        .read_all(vec![SourceFile { path: "a.o".to_string(), bytes: mini_elf(&[0x90; 16]) }])
        .unwrap();
    let ids = cache.iter_ids();
    assert_eq!(ids.len(), 1);
    let o = cache.get_elf(ids[0]);
    assert!(o.is_64);
    assert!(o.little_endian);
    assert_eq!(o.e_type, 1);
    assert_eq!(o.sections.len(), 3);
    assert_eq!(o.sections[1].name, ".text");
    assert_eq!(o.sections[1].sh_size, 16);
    assert_eq!(o.sections[1].sh_addralign, 16);
    let names = extract_section_names(&cache);
    assert_eq!(names, vec![".text".to_string()]);
}

#[test]
fn read_all_expands_archives_and_skips_other_members() {
    // The members are listed in non-alphabetical order on purpose: the
    // archive's own order is what counts.
    let m1 = mini_elf(&[0x90; 8]);
    let m2 = mini_elf(&[0xcc; 24]);
    let rlib = ar_archive(&[("z.o", &m1), ("notes.txt", b"hello"), ("a.o", &m2)]);
    let mut cache = InputCache::new();
    cache
        .read_all(vec![SourceFile { path: "lib.rlib".to_string(), bytes: rlib }])
        .unwrap();
    let ids = cache.iter_ids();
    assert_eq!(ids.len(), 2);
    assert_eq!(ids[0], InputId { file: 0, member: Some(0) });
    assert_eq!(ids[1], InputId { file: 0, member: Some(1) });
    assert_eq!(cache.get_elf(ids[0]).sections[1].sh_size, 8);
    assert_eq!(cache.get_elf(ids[1]).sections[1].sh_size, 24);
    assert_eq!(cache.description(ids[0]), "z.o in lib.rlib");
    assert_eq!(cache.description(ids[1]), "a.o in lib.rlib");
}

#[test]
fn read_all_rejects_bad_inputs() {
    let mut cache = InputCache::new();
    assert!(matches!(
        cache.read_all(vec![SourceFile { path: "a.txt".to_string(), bytes: vec![] }]),
        Err(LinkError::UnknownExtension { .. })
    ));
    let mut cache = InputCache::new();
    assert!(matches!(
        cache.read_all(vec![SourceFile { path: "a.o".to_string(), bytes: vec![1, 2, 3] }]),
        Err(LinkError::UnparsableElf { .. })
    ));
    let mut cache = InputCache::new();
    assert!(matches!(
        cache.read_all(vec![SourceFile { path: "a.rlib".to_string(), bytes: vec![1, 2, 3] }]),
        Err(LinkError::UnparsableArchive { .. })
    ));
}

#[test]
fn end_to_end_from_real_elf_bytes() {
    // Parse a real object through the decoder, then link it.
    let mut cache = InputCache::new();
    cache
        .read_all(vec![SourceFile { path: "a.o".to_string(), bytes: mini_elf(&[0u8; 16]) }])
        .unwrap();
    let image = link_bytes(&cache).unwrap();
    assert_eq!(u16_at(&image, 16), 2);
    assert_eq!(u16_at(&image, 56), 1);
    // The 16 text bytes sit at the first content offset.
    assert_eq!(&image[0x1000..0x1010], &[0u8; 16]);
}

// ---------------------------------------------------------------------------
// Section-relative anchors and group ordering
// ---------------------------------------------------------------------------

#[test]
fn section_relative_anchor_resolves() {
    // An absolute relocation whose symbol is a section symbol (st_info 3):
    // it anchors at the start of that section.
    let o = obj(
        vec![
            sec("", 0, 0, 0, 0, 0, 0),
            sec(".text", 1, 6, 0, 1, 0, 16),
            sec(".rodata", 1, 2, 0, 1, 16, 8),
            sec(".rela.text", 4, 0, 1, 8, 0, 0),
        ],
        vec![sym("", 0, 0, 0, 0), sym("", 3, 0, 2, 0)],
        vec![RelocTable {
            section_index: 3,
            relocs: vec![RawReloc { r_offset: 0, r_sym: 1, r_type: 1, r_addend: Some(4) }],
        }],
        vec![0u8; 24],
    );
    let cache = cache_of(vec![o]);
    let image = link_bytes(&cache).unwrap();
    // .rodata starts one page after .text; the patch is base + 0x1000 + 4.
    assert_eq!(u64_at(&image, 0x1000), 0x40_0000 + 0x1000 + 4);
}

#[test]
fn weak_symbols_resolve_through_the_global_table() {
    // A weakly bound reference resolves like an import.
    let a = obj(
        vec![
            sec("", 0, 0, 0, 0, 0, 0),
            sec(".text", 1, 6, 0, 1, 0, 16),
            sec(".rela.text", 4, 0, 1, 8, 0, 0),
        ],
        vec![sym("", 0, 0, 0, 0), sym("w", 0x20, 0, 0, 0)],
        vec![RelocTable {
            section_index: 2,
            relocs: vec![RawReloc { r_offset: 0, r_sym: 1, r_type: 2, r_addend: Some(0) }],
        }],
        vec![0u8; 16],
    );
    let b = obj(
        vec![sec("", 0, 0, 0, 0, 0, 0), sec(".text", 1, 6, 0, 1, 0, 8)],
        vec![sym("", 0, 0, 0, 0), sym("w", 0x10, 0, 1, 0)],
        vec![],
        vec![0u8; 8],
    );
    let cache = cache_of(vec![a, b]);
    let image = link_bytes(&cache).unwrap();
    // w sits at base-relative 16; the PC-relative value is 16 - 0 = 16.
    assert_eq!(u32_at(&image, 0x1000) as i32, 16);
}

#[test]
fn groups_are_ordered_entry_text_rodata() {
    // One object contributes executable sections under all three groups,
    // in scrambled order; the output orders them .entry, .text, .rodata.
    let o = obj(
        vec![
            sec("", 0, 0, 0, 0, 0, 0),
            sec(".rodata.z", 1, 6, 0, 1, 0, 4),
            sec(".entry", 1, 6, 0, 1, 4, 4),
            sec(".text", 1, 6, 0, 1, 8, 4),
        ],
        vec![],
        vec![],
        vec![0xaa, 0xaa, 0xaa, 0xaa, 0xbb, 0xbb, 0xbb, 0xbb, 0xcc, 0xcc, 0xcc, 0xcc],
    );
    let cache = cache_of(vec![o]);
    let image = link_bytes(&cache).unwrap();
    assert_eq!(u16_at(&image, 56), 1);
    assert_eq!(
        &image[0x1000..0x100c],
        &[0xbb, 0xbb, 0xbb, 0xbb, 0xcc, 0xcc, 0xcc, 0xcc, 0xaa, 0xaa, 0xaa, 0xaa]
    );
}

#[test]
fn positions_are_monotonic() {
    let cache = cache_of(vec![abs_reloc_object()]);
    let config = test_config();
    let names = extract_section_names(&cache);
    let globals = extract_globals(&cache).unwrap();
    let linked = build(&config, &cache, &names, &globals).unwrap();
    let positions = linked.iter_with_positions(&config);
    assert_eq!(positions.len(), 2);
    for w in positions.windows(2) {
        let size = linked.segments[w[0].segment_index].sections[w[0].section_index].chunks
            [w[0].chunk_index]
            .size();
        assert!(w[0].chunk_start + size <= w[1].chunk_start);
    }
    let sizes = linked.segment_sizes(&config);
    assert_eq!(sizes, vec![0x1000, 0x1000]);
}
