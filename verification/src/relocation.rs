//! Relocation records and their application.

use vstd::prelude::*;

use crate::config::Config;
use crate::elf::{R_X86_64_64, R_X86_64_PC32, STT_SECTION};
use crate::error::{InvalidPatch, LinkError};
use crate::inputs::{InputCache, InputCacheV, InputId, InputObject, InputObjectV, RawReloc};
use crate::layout::{chunk_at, fits, lemma_positions_wf, table_of};
use crate::name_resolution::{
    resolve_name, spec_resolve_name, table_lookup, table_wf, GlobalTable, NameResolved,
};
use crate::section::{
    all_zero, patch_conflicts, patch_insert, ChunkV, LinkedProgram, PatchV, Section, SectionChunk,
    SectionV, Segment, SegmentV,
};

verus! {

/// One relocation to apply to a chunk's bytes.
#[derive(Debug, Clone)]
pub struct Relocate {
    /// Location to patch, relative to the start of the chunk.
    pub patch_offset: u64,
    /// Relocation mode, an ELF x86-64 relocation type number.
    pub mode: u32,
    /// What the relocation is relative to: its anchor.
    pub relative_to: RelativeTo,
    /// Constant applied to the anchor address: the addend.
    pub relative_offset: i64,
}

/// The anchor of a relocation.
#[derive(Debug, Clone)]
pub enum RelativeTo {
    /// Start of a section of the same input as the relocation.
    Section { index: u32 },
    /// Address of a named symbol.
    Symbol(String),
}

/// Mathematical image of a [`Relocate`].
pub struct RelocateV {
    pub patch_offset: u64,
    pub mode: u32,
    pub relative_to: RelativeToV,
    pub relative_offset: i64,
}

/// Mathematical image of a [`RelativeTo`].
pub enum RelativeToV {
    Section { index: u32 },
    Symbol(Seq<char>),
}

impl View for RelativeTo {
    type V = RelativeToV;

    open spec fn view(&self) -> RelativeToV {
        match self {
            RelativeTo::Section { index } => RelativeToV::Section { index: *index },
            RelativeTo::Symbol(name) => RelativeToV::Symbol(name@),
        }
    }
}

impl View for Relocate {
    type V = RelocateV;

    open spec fn view(&self) -> RelocateV {
        RelocateV {
            patch_offset: self.patch_offset,
            mode: self.mode,
            relative_to: self.relative_to@,
            relative_offset: self.relative_offset,
        }
    }
}

/// The [`Relocate`] record of one raw relocation of `obj`: a reference to a
/// section symbol anchors at that section, any other symbol anchors at its
/// name; a missing addend counts as 0.
pub open spec fn spec_reloc_of(obj: InputObjectV, r: RawReloc) -> RelocateV
    recommends
        r.r_sym < obj.symbols.len(),
{
    let s = obj.symbols[r.r_sym as int];
    RelocateV {
        patch_offset: r.r_offset,
        mode: r.r_type,
        relative_to: if s.st_info == STT_SECTION {
            RelativeToV::Section { index: s.st_shndx }
        } else {
            RelativeToV::Symbol(s.name)
        },
        relative_offset: match r.r_addend {
            Some(a) => a,
            None => 0,
        },
    }
}

/// Whether relocation table `t` of `obj` applies to section `target`: the
/// relocation section's header carries the target's index in `sh_info`.
pub open spec fn spec_table_matches(obj: InputObjectV, t: int, target: u32) -> bool
    recommends
        0 <= t < obj.reloc_tables.len(),
        obj.reloc_tables[t].section_index < obj.sections.len(),
{
    obj.sections[obj.reloc_tables[t].section_index as int].sh_info == target
}

/// The relocations of the first `t` relocation tables of `obj` that apply
/// to section `target`, in table order.
pub open spec fn spec_extract_upto(obj: InputObjectV, target: u32, t: int) -> Seq<RelocateV>
    decreases t,
{
    if t <= 0 {
        Seq::empty()
    } else {
        spec_extract_upto(obj, target, t - 1) + if spec_table_matches(obj, t - 1, target) {
            obj.reloc_tables[t - 1].relocs.map_values(|r: RawReloc| spec_reloc_of(obj, r))
        } else {
            Seq::empty()
        }
    }
}

/// Every relocation of `obj` that applies to section `target`.
pub open spec fn spec_extract(obj: InputObjectV, target: u32) -> Seq<RelocateV> {
    spec_extract_upto(obj, target, obj.reloc_tables.len() as int)
}

/// Extract the relocations that apply to the section of `obj` with index
/// `target_section_index`.
#[verifier::loop_isolation(false)]
pub fn extract(obj: &InputObject, target_section_index: u32) -> (r: Vec<Relocate>)
    requires
        obj@.wf(),
    ensures
        r@.map_values(|x: Relocate| x@) == spec_extract(obj@, target_section_index),
{
    let ghost ov = obj@;
    let mut result: Vec<Relocate> = Vec::new();
    let nt = obj.reloc_tables.len();
    for t in 0..nt
        invariant
            result@.map_values(|x: Relocate| x@) == spec_extract_upto(
                ov,
                target_section_index,
                t as int,
            ),
    {
        proof {
            assert(obj.reloc_tables@[t as int]@ == ov.reloc_tables[t as int]);
        }
        let table = &obj.reloc_tables[t];
        let si = table.section_index as usize;
        proof {
            assert(obj.sections@[si as int]@ == ov.sections[si as int]);
        }
        if obj.sections[si].sh_info == target_section_index {
            let ghost relocs = ov.reloc_tables[t as int].relocs;
            let nr = table.relocs.len();
            for ri in 0..nr
                invariant
                    nr == table.relocs.len(),
                    relocs == ov.reloc_tables[t as int].relocs,
                    spec_table_matches(ov, t as int, target_section_index),
                    result@.map_values(|x: Relocate| x@) == spec_extract_upto(
                        ov,
                        target_section_index,
                        t as int,
                    ) + relocs.take(ri as int).map_values(|r: RawReloc| spec_reloc_of(ov, r)),
            {
                let raw = table.relocs[ri];
                proof {
                    assert(table.relocs@[ri as int] == relocs[ri as int]);
                    assert(raw.r_sym < ov.symbols.len());
                    assert(obj.symbols@[raw.r_sym as int]@ == ov.symbols[raw.r_sym as int]);
                }
                let sym = &obj.symbols[raw.r_sym as usize];
                let relative_to = if sym.st_info == STT_SECTION {
                    RelativeTo::Section { index: sym.st_shndx }
                } else {
                    RelativeTo::Symbol(sym.name.clone())
                };
                let relative_offset = match raw.r_addend {
                    Some(a) => a,
                    None => 0,
                };
                let ghost prev = result@;
                result.push(
                    Relocate {
                        patch_offset: raw.r_offset,
                        mode: raw.r_type,
                        relative_to,
                        relative_offset,
                    },
                );
                proof {
                    assert(result@.last()@ == spec_reloc_of(ov, relocs[ri as int]));
                    assert(result@.map_values(|x: Relocate| x@) =~= prev.map_values(
                        |x: Relocate| x@,
                    ).push(spec_reloc_of(ov, relocs[ri as int])));
                    assert(relocs.take(ri + 1).drop_last() =~= relocs.take(ri as int));
                    assert(relocs.take(ri + 1).map_values(|r: RawReloc| spec_reloc_of(ov, r))
                        =~= relocs.take(ri as int).map_values(|r: RawReloc| spec_reloc_of(ov, r))
                        + seq![spec_reloc_of(ov, relocs[ri as int])]);
                    assert(result@.map_values(|x: Relocate| x@) =~= spec_extract_upto(
                        ov,
                        target_section_index,
                        t as int,
                    ) + relocs.take(ri + 1).map_values(|r: RawReloc| spec_reloc_of(ov, r)));
                }
            }
            proof {
                assert(relocs.take(nr as int) =~= relocs);
                assert(result@.map_values(|x: Relocate| x@) =~= spec_extract_upto(
                    ov,
                    target_section_index,
                    t + 1,
                ));
            }
        } else {
            proof {
                assert(result@.map_values(|x: Relocate| x@) =~= spec_extract_upto(
                    ov,
                    target_section_index,
                    t + 1,
                ));
            }
        }
    }
    result
}

// ---------------------------------------------------------------------------
// Anchor addresses
// ---------------------------------------------------------------------------

/// The first entry of the anchor table for input `input` and source section
/// `section_index`, scanning from `k`: the base-relative address of the
/// chunk that carries that section.
pub open spec fn addr_from(
    table: Seq<(InputId, u32, u64)>,
    input: InputId,
    section_index: u32,
    k: int,
) -> Option<u64>
    decreases table.len() - k,
{
    if k < 0 || k >= table.len() {
        None
    } else if table[k].0 == input && table[k].1 == section_index {
        Some(table[k].2)
    } else {
        addr_from(table, input, section_index, k + 1)
    }
}

/// The base-relative start of the first chunk in program order whose input
/// and source section index match, if that section was included.
pub open spec fn spec_section_addr(
    segs: Seq<SegmentV>,
    page: u64,
    input: InputId,
    section_index: u32,
) -> Option<u64> {
    addr_from(table_of(segs, page), input, section_index, 0)
}

/// Build the anchor table: for every chunk in program order, its input, its
/// source section index, and its base-relative start.
#[verifier::loop_isolation(false)]
fn build_anchor_table(linked: &LinkedProgram, config: &Config) -> (r: Vec<(InputId, u32, u64)>)
    requires
        fits(linked@, *config),
    ensures
        r@ == table_of(linked@, config.page_size),
{
    let ghost segs = linked@;
    let ghost page = config.page_size;
    let positions = linked.iter_with_positions(config);
    proof {
        let nseg = linked.segments.len();
        assert(segs.len() == nseg);
        assert forall|y: int| 0 <= y < segs.len() implies (#[trigger] segs[y]).sections.len()
            <= usize::MAX by {
            assert(segs[y] == linked.segments@[y]@);
            assert(segs[y].sections.len() == linked.segments@[y].sections@.len());
            assert(linked.segments@[y].sections.len() == linked.segments@[y].sections@.len());
        }
        assert forall|y: int, z: int|
            0 <= y < segs.len() && 0 <= z < (#[trigger] segs[y]).sections.len() implies (
        #[trigger] segs[y].sections[z]).chunks.len() <= usize::MAX by {
            assert(segs[y] == linked.segments@[y]@);
            assert(segs[y].sections[z] == linked.segments@[y].sections@[z]@);
            assert(segs[y].sections[z].chunks.len() == linked.segments@[y].sections@[z].chunks@.len());
            assert(linked.segments@[y].sections@[z].chunks.len()
                == linked.segments@[y].sections@[z].chunks@.len());
        }
        lemma_positions_wf(segs, segs.len() as int, page);
    }
    let mut r: Vec<(InputId, u32, u64)> = Vec::new();
    let n = positions.len();
    for x in 0..n
        invariant
            r@ == table_of(segs, page).take(x as int),
    {
        let e = positions[x];
        let chunk = &linked.segments[e.segment_index].sections[e.section_index].chunks[
            e.chunk_index
        ];
        proof {
            assert(chunk@ == chunk_at(segs, positions@[x as int]));
        }
        r.push((chunk.input, chunk.section_index, e.chunk_start));
        proof {
            assert(r@ =~= table_of(segs, page).take(x + 1));
        }
    }
    proof {
        assert(table_of(segs, page).take(n as int) =~= table_of(segs, page));
    }
    r
}

/// Look an anchor up in the table built by `build_anchor_table`.
#[verifier::loop_isolation(false)]
fn addr_lookup(table: &Vec<(InputId, u32, u64)>, input: InputId, section_index: u32) -> (r: Option<
    u64,
>)
    ensures
        r == addr_from(table@, input, section_index, 0),
{
    let n = table.len();
    for k in 0..n
        invariant
            addr_from(table@, input, section_index, 0) == addr_from(
                table@,
                input,
                section_index,
                k as int,
            ),
    {
        let e = &table[k];
        if e.0 == input && e.1 == section_index {
            return Some(e.2);
        }
    }
    None
}

/// Resolve a final base-relative address for an input file section: the
/// start of the first chunk of the program that carries it.
pub fn lookup_input_section_addr(
    linked: &LinkedProgram,
    config: &Config,
    input: InputId,
    section_index: u32,
) -> (r: Option<u64>)
    requires
        fits(linked@, *config),
    ensures
        r == spec_section_addr(linked@, config.page_size, input, section_index),
{
    let table = build_anchor_table(linked, config);
    addr_lookup(&table, input, section_index)
}

// ---------------------------------------------------------------------------
// Applying relocations
// ---------------------------------------------------------------------------

/// Why one relocation could not be applied.
pub enum RelocFailure {
    /// A relocation mode this linker does not honor.
    UnknownMode(u32),
    /// The named symbol is defined locally in the referring input.
    LocalSymbol(Seq<char>),
    /// The named symbol does not appear in the referring input.
    Unresolved(Seq<char>),
    /// The named symbol is imported but no input defines it globally.
    UnresolvedImport(Seq<char>),
    /// A section-relative anchor names a section that no output segment
    /// includes.
    AnchorSectionMissing(u32),
    /// The section defining the named symbol is in no output segment.
    SymbolSectionMissing(Seq<char>),
    /// A PC-relative value does not fit in 32 signed bits.
    Overflow,
    /// The bytes under the patch are not all zero.
    NonZero,
    /// The patch would reach past the end of the chunk.
    OutOfRange,
    /// The patch overlaps an earlier patch of the same chunk.
    Conflict,
}

/// Whether the fatal error `e` reports the relocation failure `f`.
pub open spec fn err_matches(e: LinkError, f: RelocFailure) -> bool {
    match f {
        RelocFailure::UnknownMode(m) => e matches LinkError::UnknownRelocationMode { mode }
            && mode == m,
        RelocFailure::LocalSymbol(n) => e matches LinkError::LocalSymbolRelocation { name }
            && name@ == n,
        RelocFailure::Unresolved(n) => e matches LinkError::UnresolvedSymbol { name } && name@
            == n,
        RelocFailure::UnresolvedImport(n) => e matches LinkError::UnresolvedImport { name }
            && name@ == n,
        RelocFailure::AnchorSectionMissing(i) => e matches LinkError::AnchorSectionNotIncluded {
            section_index,
        } && section_index == i,
        RelocFailure::SymbolSectionMissing(n) => e matches LinkError::SectionNotIncluded { name }
            && name@ == n,
        RelocFailure::Overflow => e is RelocationOverflow,
        RelocFailure::NonZero => e is NonZeroPatchTarget,
        RelocFailure::OutOfRange => e matches LinkError::BadPatch { reason }
            && reason is NotInRange,
        RelocFailure::Conflict => e matches LinkError::BadPatch { reason }
            && reason is Overlapping,
    }
}

/// The anchor of a relocation of a chunk of input `chunk_input`: a
/// base-relative address, and for named symbols the symbol's offset within
/// its defining section.
///
/// A section anchor is the start of the first chunk of the same input that
/// carries the given source section. A symbol anchor resolves through the
/// referring input's symbol table: an undefined symbol is looked up in the
/// global symbol table, and its definition's section start and value are
/// used; a locally defined symbol is not supported.
pub open spec fn spec_anchor(
    segs: Seq<SegmentV>,
    page: u64,
    cache: InputCacheV,
    globals: Seq<crate::name_resolution::GlobalEntryV>,
    chunk_input: InputId,
    rel: RelativeToV,
) -> Result<(u64, u64), RelocFailure> {
    match rel {
        RelativeToV::Section { index } => match spec_section_addr(segs, page, chunk_input, index) {
            Some(a) => Ok((a, 0)),
            None => Err(RelocFailure::AnchorSectionMissing(index)),
        },
        RelativeToV::Symbol(name) => match spec_resolve_name(cache.obj(chunk_input), name) {
            None => Err(RelocFailure::Unresolved(name)),
            Some(NameResolved::Local(_)) => Err(RelocFailure::LocalSymbol(name)),
            Some(NameResolved::Import) => match table_lookup(globals, name, 0) {
                None => Err(RelocFailure::UnresolvedImport(name)),
                Some(loc) => {
                    let sym = cache.obj(loc.input).symbols[loc.symtab_index as int];
                    match spec_section_addr(segs, page, loc.input, sym.st_shndx) {
                        Some(a) => Ok((a, sym.st_value)),
                        None => Err(RelocFailure::SymbolSectionMissing(name)),
                    }
                },
            },
        },
    }
}

/// `x` reduced to an unsigned 64-bit value.
pub open spec fn wrap64(x: int) -> u64 {
    (x % 0x10000000000000000) as u64
}

/// A signed 32-bit value as its unsigned two's-complement image.
pub open spec fn wrap32(v: int) -> u32
    recommends
        i32::MIN <= v <= i32::MAX,
{
    if v < 0 {
        (v + 0x100000000) as u32
    } else {
        v as u32
    }
}

/// The little-endian bytes a relocation writes.
///
/// `R_X86_64_PC32` writes the 4 bytes of `anchor + addend + symbol offset
/// - chunk start - patch offset`, which must fit in 32 signed bits;
/// `R_X86_64_64` writes the 8 bytes of `base address + anchor + symbol
/// offset + addend`, reduced to 64 bits. Any other mode is fatal.
pub open spec fn spec_patch_bytes(
    config: Config,
    cs: u64,
    rel: RelocateV,
    a: u64,
    s: u64,
) -> Result<Seq<u8>, RelocFailure> {
    if rel.mode == R_X86_64_PC32 {
        let v = a + rel.relative_offset + s - cs - rel.patch_offset;
        if v < i32::MIN || v > i32::MAX {
            Err(RelocFailure::Overflow)
        } else {
            Ok(vstd::bytes::spec_u32_to_le_bytes(wrap32(v)))
        }
    } else if rel.mode == R_X86_64_64 {
        Ok(
            vstd::bytes::spec_u64_to_le_bytes(
                wrap64(config.base_addr + a + s + rel.relative_offset),
            ),
        )
    } else {
        Err(RelocFailure::UnknownMode(rel.mode))
    }
}

/// The chunk's patch list after applying its first `n` relocations, each
/// checked: the patch must lie within the chunk, only cover bytes that are
/// zero in the original, and not conflict with an already installed patch.
pub open spec fn spec_apply_chunk(
    config: Config,
    segs: Seq<SegmentV>,
    cache: InputCacheV,
    globals: Seq<crate::name_resolution::GlobalEntryV>,
    chunk: ChunkV,
    cs: u64,
    n: int,
) -> Result<Seq<PatchV>, RelocFailure>
    decreases n,
{
    if n <= 0 {
        Ok(chunk.patches)
    } else {
        match spec_apply_chunk(config, segs, cache, globals, chunk, cs, n - 1) {
            Err(f) => Err(f),
            Ok(ps) => {
                let rel = chunk.relocations[n - 1];
                match spec_anchor(
                    segs,
                    config.page_size,
                    cache,
                    globals,
                    chunk.input,
                    rel.relative_to,
                ) {
                    Err(f) => Err(f),
                    Ok((a, s)) => match spec_patch_bytes(config, cs, rel, a, s) {
                        Err(f) => Err(f),
                        Ok(bytes) => {
                            if rel.patch_offset + bytes.len() > chunk.orig_bytes.len() {
                                Err(RelocFailure::OutOfRange)
                            } else if !all_zero(
                                chunk.orig_bytes,
                                rel.patch_offset as int,
                                bytes.len() as int,
                            ) {
                                Err(RelocFailure::NonZero)
                            } else if patch_conflicts(
                                ps,
                                rel.patch_offset as int,
                                bytes.len() as int,
                            ) {
                                Err(RelocFailure::Conflict)
                            } else {
                                Ok(
                                    patch_insert(
                                        ps,
                                        PatchV { offset: rel.patch_offset as usize, bytes },
                                    ),
                                )
                            }
                        },
                    },
                }
            },
        }
    }
}

proof fn lemma_apply_chunk_err_persists(
    config: Config,
    segs: Seq<SegmentV>,
    cache: InputCacheV,
    globals: Seq<crate::name_resolution::GlobalEntryV>,
    chunk: ChunkV,
    cs: u64,
    n: int,
    m: int,
)
    requires
        0 <= n <= m,
        spec_apply_chunk(config, segs, cache, globals, chunk, cs, n) is Err,
    ensures
        spec_apply_chunk(config, segs, cache, globals, chunk, cs, m) == spec_apply_chunk(
            config,
            segs,
            cache,
            globals,
            chunk,
            cs,
            n,
        ),
    decreases m,
{
    if m > n {
        lemma_apply_chunk_err_persists(config, segs, cache, globals, chunk, cs, n, m - 1);
    }
}

/// Relies on modular arithmetic: chaining wrapping adds and a wrapping
/// signed add computes the whole sum reduced to 64 bits.
proof fn lemma_wrap64_add(base: u64, a: u64, s: u64, d: i64)
    ensures
        vstd::wrapping::u64_specs::wrapping_add_signed(
            vstd::wrapping::u64_specs::wrapping_add(
                vstd::wrapping::u64_specs::wrapping_add(base, a),
                s,
            ),
            d,
        ) == wrap64(base + a + s + d),
{
    let m: int = 0x10000000000000000;
    let w1: u64 = vstd::wrapping::u64_specs::wrapping_add(base, a);
    let w2: u64 = vstd::wrapping::u64_specs::wrapping_add(w1, s);
    let w3: u64 = vstd::wrapping::u64_specs::wrapping_add_signed(w2, d);
    let x: int = base + a + s + d;
    let k: int = (x - w3) / m;
    assert(x - w3 == k * m) by {
        assert(x - w3 == (x - w3) / m * m + (x - w3) % m) by {
            vstd::arithmetic::div_mod::lemma_fundamental_div_mod(x - w3, m);
        }
        assert((x - w3) % m == 0) by {
            assert(w1 == base + a || w1 == base + a - m);
            assert(w2 == w1 + s || w2 == w1 + s - m);
            assert(x - w3 == 0 || x - w3 == m || x - w3 == -m || x - w3 == 2 * m || x - w3 == 3
                * m);
            vstd::arithmetic::div_mod::lemma_mod_self_0(m);
            vstd::arithmetic::div_mod::lemma_mod_multiples_vanish(1, 0, m);
            vstd::arithmetic::div_mod::lemma_mod_multiples_vanish(-1, 0, m);
            vstd::arithmetic::div_mod::lemma_mod_multiples_vanish(2, 0, m);
            vstd::arithmetic::div_mod::lemma_mod_multiples_vanish(3, 0, m);
        }
    }
    assert(x % m == (w3 as int) % m) by {
        vstd::arithmetic::div_mod::lemma_mod_multiples_vanish(k, w3 as int, m);
    }
    assert((w3 as int) % m == w3 as int) by {
        vstd::arithmetic::div_mod::lemma_small_mod(w3 as nat, m as nat);
    }
}


/// Whether `bytes[at .. at + w]` is all zero.
#[verifier::loop_isolation(false)]
fn check_zeros(bytes: &Vec<u8>, at: usize, w: usize) -> (r: bool)
    requires
        at + w <= bytes@.len(),
    ensures
        r == all_zero(bytes@, at as int, w as int),
{
    let bl = bytes.len();
    for x in 0..w
        invariant
            bl == bytes@.len(),
            at + w <= bl,
            forall|y: int| at <= y < at + x ==> bytes@[y] == 0,
    {
        if bytes[at + x] != 0 {
            return false;
        }
    }
    true
}

/// Resolve the anchor of one relocation: a base-relative address and, for
/// a named symbol, the symbol's offset within its defining section.
fn resolve_relocation_symbol(
    inputs: &InputCache,
    globals: &GlobalTable,
    anchor_table: &Vec<(InputId, u32, u64)>,
    chunk_input: InputId,
    relative_to: &RelativeTo,
    Ghost(segs): Ghost<Seq<SegmentV>>,
    Ghost(page): Ghost<u64>,
) -> (r: Result<(u64, u64), LinkError>)
    requires
        inputs@.wf(),
        table_wf(globals@, inputs@),
        inputs@.contains_id(chunk_input),
        anchor_table@ == table_of(segs, page),
    ensures
        match r {
            Ok(p) => spec_anchor(segs, page, inputs@, globals@, chunk_input, relative_to@)
                == Ok::<(u64, u64), RelocFailure>(p),
            Err(e) => spec_anchor(segs, page, inputs@, globals@, chunk_input, relative_to@)
                matches Err(f) && err_matches(e, f),
        },
{
    match relative_to {
        RelativeTo::Section { index } => match addr_lookup(anchor_table, chunk_input, *index) {
            Some(a) => Ok((a, 0)),
            None => Err(LinkError::AnchorSectionNotIncluded { section_index: *index }),
        },
        RelativeTo::Symbol(name) => {
            let obj = inputs.get_elf(chunk_input);
            match resolve_name(obj, name) {
                None => Err(LinkError::UnresolvedSymbol { name: name.clone() }),
                Some(NameResolved::Local(_)) => Err(
                    LinkError::LocalSymbolRelocation { name: name.clone() },
                ),
                Some(NameResolved::Import) => match globals.get(name) {
                    None => Err(LinkError::UnresolvedImport { name: name.clone() }),
                    Some(loc) => {
                        proof {
                            crate::name_resolution::lemma_table_lookup_wf(
                                globals@,
                                inputs@,
                                name@,
                                0,
                                loc,
                            );
                        }
                        let def_obj = inputs.get_elf(loc.input);
                        let sym = &def_obj.symbols[loc.symtab_index as usize];
                        proof {
                            assert(def_obj.symbols@[loc.symtab_index as int]@
                                == inputs@.obj(loc.input).symbols[loc.symtab_index as int]);
                        }
                        match addr_lookup(anchor_table, loc.input, sym.st_shndx) {
                            Some(a) => Ok((a, sym.st_value)),
                            None => Err(LinkError::SectionNotIncluded { name: name.clone() }),
                        }
                    },
                },
            }
        },
    }
}

/// Apply every relocation of one chunk, given the chunk's base-relative
/// start: compute each patch value, check that the patched bytes were zero,
/// and install the patch.
#[verifier::loop_isolation(false)]
fn apply_chunk_relocs(
    chunk: SectionChunk,
    cs: u64,
    inputs: &InputCache,
    globals: &GlobalTable,
    anchor_table: &Vec<(InputId, u32, u64)>,
    config: &Config,
    Ghost(segs): Ghost<Seq<SegmentV>>,
) -> (r: Result<SectionChunk, LinkError>)
    requires
        chunk@.patches_wf(),
        inputs@.wf(),
        table_wf(globals@, inputs@),
        inputs@.contains_id(chunk@.input),
        anchor_table@ == table_of(segs, config.page_size),
    ensures
        match r {
            Ok(c2) => spec_apply_chunk(
                *config,
                segs,
                inputs@,
                globals@,
                chunk@,
                cs,
                chunk@.relocations.len() as int,
            ) matches Ok(ps) && c2@ == (ChunkV { patches: ps, ..chunk@ }) && c2@.patches_wf(),
            Err(e) => spec_apply_chunk(
                *config,
                segs,
                inputs@,
                globals@,
                chunk@,
                cs,
                chunk@.relocations.len() as int,
            ) matches Err(f) && err_matches(e, f),
        },
{
    let ghost orig = chunk@;
    let ghost page = config.page_size;
    let mut chunk = chunk;
    let n = chunk.relocations.len();
    let mut r_i: usize = 0;
    while r_i < n
        invariant
            r_i <= n,
            n == chunk.relocations.len(),
            chunk@.relocations == orig.relocations,
            chunk@.orig_bytes == orig.orig_bytes,
            chunk@.input == orig.input,
            spec_apply_chunk(*config, segs, inputs@, globals@, orig, cs, r_i as int) matches Ok(
                ps,
            ) && chunk@ == (ChunkV { patches: ps, ..orig }),
            chunk@.patches_wf(),
        decreases n - r_i,
    {
        proof {
            assert(chunk.relocations@[r_i as int]@ == orig.relocations[r_i as int]);
        }
        let ghost rel = orig.relocations[r_i as int];
        let anchor = {
            let relative_to = &chunk.relocations[r_i].relative_to;
            resolve_relocation_symbol(
                inputs,
                globals,
                anchor_table,
                chunk.input,
                relative_to,
                Ghost(segs),
                Ghost(page),
            )
        };
        let (a, sym_off) = match anchor {
            Ok(p) => p,
            Err(e) => {
                proof {
                    lemma_apply_chunk_err_persists(
                        *config,
                        segs,
                        inputs@,
                        globals@,
                        orig,
                        cs,
                        r_i + 1,
                        n as int,
                    );
                }
                return Err(e);
            },
        };
        let mode = chunk.relocations[r_i].mode;
        let rel_off = chunk.relocations[r_i].patch_offset;
        let addend = chunk.relocations[r_i].relative_offset;

        // The bytes this relocation writes.
        let bytes: Vec<u8> = if mode == R_X86_64_PC32 {
            let v: i128 = a as i128 + addend as i128 + sym_off as i128 - cs as i128
                - rel_off as i128;
            if v < i32::MIN as i128 || v > i32::MAX as i128 {
                proof {
                    lemma_apply_chunk_err_persists(
                        *config,
                        segs,
                        inputs@,
                        globals@,
                        orig,
                        cs,
                        r_i + 1,
                        n as int,
                    );
                }
                return Err(LinkError::RelocationOverflow);
            }
            let v32: u32 = if v >= 0 {
                v as u32
            } else {
                (v + 0x100000000i128) as u32
            };
            proof {
                assert(v32 == wrap32(a + rel.relative_offset + sym_off - cs - rel.patch_offset));
            }
            vstd::bytes::u32_to_le_bytes(v32)
        } else if mode == R_X86_64_64 {
            let val: u64 = config.base_addr.wrapping_add(a).wrapping_add(sym_off)
                .wrapping_add_signed(addend);
            proof {
                lemma_wrap64_add(config.base_addr, a, sym_off, addend);
            }
            vstd::bytes::u64_to_le_bytes(val)
        } else {
            proof {
                lemma_apply_chunk_err_persists(
                    *config,
                    segs,
                    inputs@,
                    globals@,
                    orig,
                    cs,
                    r_i + 1,
                    n as int,
                );
            }
            return Err(LinkError::UnknownRelocationMode { mode });
        };

        let w = bytes.len();
        let chunk_size = chunk.orig_bytes.len();
        if rel_off > chunk_size as u64 || w as u64 > chunk_size as u64 - rel_off {
            proof {
                lemma_apply_chunk_err_persists(
                    *config,
                    segs,
                    inputs@,
                    globals@,
                    orig,
                    cs,
                    r_i + 1,
                    n as int,
                );
            }
            return Err(LinkError::BadPatch { reason: InvalidPatch::NotInRange });
        }
        if !check_zeros(&chunk.orig_bytes, rel_off as usize, w) {
            proof {
                lemma_apply_chunk_err_persists(
                    *config,
                    segs,
                    inputs@,
                    globals@,
                    orig,
                    cs,
                    r_i + 1,
                    n as int,
                );
            }
            return Err(LinkError::NonZeroPatchTarget);
        }
        match chunk.patch(rel_off as usize, bytes) {
            Ok(()) => {
                proof {
                    assert(spec_apply_chunk(*config, segs, inputs@, globals@, orig, cs, r_i + 1)
                        matches Ok(ps2) && chunk@.patches == ps2);
                }
            }
            Err(reason) => {
                proof {
                    lemma_apply_chunk_err_persists(
                        *config,
                        segs,
                        inputs@,
                        globals@,
                        orig,
                        cs,
                        r_i + 1,
                        n as int,
                    );
                }
                return Err(LinkError::BadPatch { reason });
            }
        }
        r_i += 1;
    }
    Ok(chunk)
}


/// The base-relative start of chunk `(i, j, k)` of the program.
pub open spec fn cs_of(segs: Seq<SegmentV>, page: u64, i: int, j: int, k: int) -> u64 {
    crate::layout::chunk_start_in(
        segs[i].sections[j].chunks,
        k,
        crate::layout::section_start_in(
            segs[i].sections,
            j,
            crate::layout::segment_start(segs, i, page),
        ),
    ) as u64
}

/// The outcome of applying all relocations of chunk `(i, j, k)`.
pub open spec fn chunk_result(
    config: Config,
    segs: Seq<SegmentV>,
    cache: InputCacheV,
    globals: Seq<crate::name_resolution::GlobalEntryV>,
    i: int,
    j: int,
    k: int,
) -> Result<Seq<PatchV>, RelocFailure> {
    let c = segs[i].sections[j].chunks[k];
    spec_apply_chunk(
        config,
        segs,
        cache,
        globals,
        c,
        cs_of(segs, config.page_size, i, j, k),
        c.relocations.len() as int,
    )
}

/// Whether chunk index `(i, j, k)` addresses a chunk of the program.
pub open spec fn idx_ok(segs: Seq<SegmentV>, i: int, j: int, k: int) -> bool {
    0 <= i < segs.len() && 0 <= j < segs[i].sections.len() && 0 <= k < segs[i].sections[
        j
    ].chunks.len()
}

/// Whether every relocation of the program applies cleanly.
pub open spec fn all_relocs_ok(
    config: Config,
    segs: Seq<SegmentV>,
    cache: InputCacheV,
    globals: Seq<crate::name_resolution::GlobalEntryV>,
) -> bool {
    forall|i: int, j: int, k: int|
        idx_ok(segs, i, j, k) ==> #[trigger] chunk_result(config, segs, cache, globals, i, j, k)
            is Ok
}

/// The program after relocation: every chunk keeps its bytes and carries
/// the patches its relocations computed.
pub open spec fn applied_program(
    config: Config,
    segs: Seq<SegmentV>,
    cache: InputCacheV,
    globals: Seq<crate::name_resolution::GlobalEntryV>,
) -> Seq<SegmentV> {
    Seq::new(
        segs.len(),
        |i: int|
            SegmentV {
                sections: Seq::new(
                    segs[i].sections.len(),
                    |j: int|
                        SectionV {
                            name: segs[i].sections[j].name,
                            permissions: segs[i].sections[j].permissions,
                            chunks: Seq::new(
                                segs[i].sections[j].chunks.len(),
                                |k: int|
                                    match chunk_result(config, segs, cache, globals, i, j, k) {
                                        Ok(ps) => ChunkV {
                                            patches: ps,
                                            ..segs[i].sections[j].chunks[k]
                                        },
                                        Err(_) => segs[i].sections[j].chunks[k],
                                    },
                            ),
                        },
                ),
            },
    )
}

/// Whether `(a, b, c)` comes before `(x, y, z)` in program order.
pub open spec fn lex_before(a: int, b: int, c: int, x: int, y: int, z: int) -> bool {
    a < x || (a == x && (b < y || (b == y && c < z)))
}

/// Every chunk's patch list is well formed and every chunk's input is an
/// object of the cache.
pub open spec fn program_wf(segs: Seq<SegmentV>, cache: InputCacheV) -> bool {
    forall|i: int, j: int, k: int|
        idx_ok(segs, i, j, k) ==> (#[trigger] segs[i].sections[j].chunks[k]).patches_wf()
            && cache.contains_id(segs[i].sections[j].chunks[k].input)
}

/// Apply every relocation of every chunk of the program, in program order.
///
/// On success every chunk carries exactly the patches its relocations
/// computed; the first relocation that cannot be applied aborts the link
/// with the matching fatal error.
#[verifier::loop_isolation(false)]
#[verifier::rlimit(100)]
pub fn apply_relocations(
    config: &Config,
    inputs: &InputCache,
    linked: &mut LinkedProgram,
    globals: &GlobalTable,
) -> (r: Result<(), LinkError>)
    requires
        fits(old(linked)@, *config),
        inputs@.wf(),
        table_wf(globals@, inputs@),
        program_wf(old(linked)@, inputs@),
    ensures
        match r {
            Ok(()) => all_relocs_ok(*config, old(linked)@, inputs@, globals@) && final(linked)@
                == applied_program(*config, old(linked)@, inputs@, globals@) && (forall|
                i: int,
                j: int,
                k: int,
            |
                idx_ok(final(linked)@, i, j, k) ==> (#[trigger] final(linked)@[i].sections[
                    j
                ].chunks[k]).patches_wf()),
            Err(e) => exists|i: int, j: int, k: int|
                idx_ok(old(linked)@, i, j, k) && (#[trigger] chunk_result(
                    *config,
                    old(linked)@,
                    inputs@,
                    globals@,
                    i,
                    j,
                    k,
                ) matches Err(f) && err_matches(e, f)) && (forall|x: int, y: int, z: int|
                    idx_ok(old(linked)@, x, y, z) && lex_before(x, y, z, i, j, k)
                        ==> #[trigger] chunk_result(
                        *config,
                        old(linked)@,
                        inputs@,
                        globals@,
                        x,
                        y,
                        z,
                    ) is Ok),
        },
{
    let ghost segs = linked@;
    let ghost page = config.page_size;
    let ghost extra = 0x38 + crate::math::spec_eff_align(config.segment_file_align as int);
    let ghost applied = applied_program(*config, segs, inputs@, globals@);

    let anchor_table = build_anchor_table(linked, config);

    let mut old_segments: Vec<Segment> = Vec::new();
    core::mem::swap(&mut linked.segments, &mut old_segments);
    proof {
        assert(old_segments@.map_values(|x: Segment| x@) == segs);
    }

    let mut new_segments: Vec<Segment> = Vec::new();
    let mut prev_end: u64 = 0;
    let nseg = old_segments.len();
    let mut i: usize = 0;
    while i < nseg
        invariant
            i <= nseg,
            nseg == segs.len(),
            old_segments@.map_values(|x: Segment| x@) == segs.skip(i as int),
            new_segments@.len() == i,
            forall|x: int| 0 <= x < i ==> #[trigger] new_segments@[x]@ == applied[x],
            forall|x: int, y: int, z: int|
                0 <= x < i && 0 <= y < new_segments@[x]@.sections.len() && 0 <= z
                    < new_segments@[x]@.sections[y].chunks.len()
                    ==> (#[trigger] new_segments@[x]@.sections[y].chunks[z]).patches_wf(),
            forall|x: int, y: int, z: int|
                idx_ok(segs, x, y, z) && x < i ==> #[trigger] chunk_result(
                    *config,
                    segs,
                    inputs@,
                    globals@,
                    x,
                    y,
                    z,
                ) is Ok,
            prev_end == if i == 0 {
                0
            } else {
                crate::layout::segment_start(segs, i - 1, page) + crate::layout::segment_size(
                    segs[i - 1],
                )
            },
        decreases nseg - i,
    {
        proof {
            crate::layout::lemma_w_segments_component(segs, page, extra, i as int);
            crate::layout::lemma_w_segments_prefix(segs, page, extra, i as int);
            if i > 0 {
                crate::layout::lemma_segment_start_bounds(segs, i - 1, page, extra);
            }
            crate::layout::lemma_w_sections_nonneg(segs[i as int].sections);
        }
        let ghost rv = old_segments@;
        let seg = old_segments.remove(0);
        proof {
            assert(seg@ == rv.map_values(|x: Segment| x@)[0]);
            assert(seg@ == segs[i as int]);
            assert forall|y: int| 0 <= y < old_segments@.len() implies #[trigger] old_segments@[
                y
            ]@ == segs.skip(i + 1)[y] by {
                assert(old_segments@[y] == rv[y + 1]);
                assert(rv.map_values(|x: Segment| x@)[y + 1] == rv[y + 1]@);
                assert(segs.skip(i as int)[y + 1] == segs[i + 1 + y]);
            }
            assert(old_segments@.map_values(|x: Segment| x@) =~= segs.skip(i + 1));
        }

        let seg_align = seg.alignment();
        let m = if seg_align >= config.page_size {
            seg_align
        } else {
            config.page_size
        };
        proof {
            if i > 0 {
                assert(prev_end <= crate::layout::w_segments(segs.take(i as int), page, extra));
                crate::layout::lemma_w_segments_prefix(segs, page, extra, i + 1);
                assert(segs.take(i + 1).drop_last() =~= segs.take(i as int));
                assert(segs.take(i + 1).last() == segs[i as int]);
            }
        }
        let seg_start = crate::math::align_up(prev_end, m);
        proof {
            assert(seg_start == crate::layout::segment_start(segs, i as int, page));
            crate::layout::lemma_segment_start_bounds(segs, i as int, page, extra);
            crate::layout::lemma_w_segments_prefix(segs, page, extra, i + 1);
            assert(segs.take(i + 1).drop_last() =~= segs.take(i as int));
            assert(segs.take(i + 1).last() == segs[i as int]);
            assert(seg_start + crate::layout::w_sections(segs[i as int].sections) <= u64::MAX);
        }
        let seg_size = seg.size();

        let ghost ss = segs[i as int].sections;
        let ghost room = seg_start + crate::layout::w_sections(ss);
        let mut sections = seg.sections;
        proof {
            assert(sections@.map_values(|x: Section| x@) == ss);
        }
        let mut new_sections: Vec<Section> = Vec::new();
        let mut sec_end: u64 = seg_start;
        let nsec = sections.len();
        let mut j: usize = 0;
        while j < nsec
            invariant
                j <= nsec,
                nsec == ss.len(),
                i < nseg,
                nseg == segs.len(),
                ss == segs[i as int].sections,
                sections@.map_values(|x: Section| x@) == ss.skip(j as int),
                new_sections@.len() == j,
                forall|y: int|
                    0 <= y < j ==> #[trigger] new_sections@[y]@ == applied[i as int].sections[y],
                forall|y: int, z: int|
                    0 <= y < j && 0 <= z < new_sections@[y]@.chunks.len()
                        ==> (#[trigger] new_sections@[y]@.chunks[z]).patches_wf(),
                forall|y: int, z: int|
                    0 <= y < j && 0 <= z < ss[y].chunks.len() ==> #[trigger] chunk_result(
                        *config,
                        segs,
                        inputs@,
                        globals@,
                        i as int,
                        y,
                        z,
                    ) is Ok,
                sec_end == crate::layout::sections_end(ss.take(j as int), seg_start as int),
                seg_start == crate::layout::segment_start(segs, i as int, page),
                room == seg_start + crate::layout::w_sections(ss),
                room <= u64::MAX,
            decreases nsec - j,
        {
            proof {
                crate::layout::lemma_sections_end_bounds(ss.take(j as int), seg_start as int);
                crate::layout::lemma_w_sections_prefix(ss, j as int);
                assert(ss.take(j + 1).drop_last() =~= ss.take(j as int));
                assert(ss.take(j + 1).last() == ss[j as int]);
                crate::layout::lemma_w_sections_prefix(ss, j + 1);
                crate::layout::lemma_w_chunks_nonneg(ss[j as int].chunks);
            }
            let ghost sv = sections@;
            let sec = sections.remove(0);
            proof {
                assert(sec@ == sv.map_values(|x: Section| x@)[0]);
                assert(sec@ == ss[j as int]);
                assert forall|y: int| 0 <= y < sections@.len() implies #[trigger] sections@[y]@
                    == ss.skip(j + 1)[y] by {
                    assert(sections@[y] == sv[y + 1]);
                    assert(sv.map_values(|x: Section| x@)[y + 1] == sv[y + 1]@);
                    assert(ss.skip(j as int)[y + 1] == ss[j + 1 + y]);
                }
                assert(sections@.map_values(|x: Section| x@) =~= ss.skip(j + 1));
            }

            let a = sec.alignment();
            let sec_start = crate::math::align_up(sec_end, a);
            proof {
                assert(sec_start == crate::layout::section_start_in(ss, j as int, seg_start as int));
                assert(sec_start + crate::layout::w_chunks(ss[j as int].chunks) <= room);
            }
            let sec_size = sec.size();

            let Section { name, chunks, permissions } = sec;
            let mut chunks = chunks;
            let ghost cv = ss[j as int].chunks;
            proof {
                assert(chunks@.map_values(|x: SectionChunk| x@) == cv);
            }
            let mut new_chunks: Vec<SectionChunk> = Vec::new();
            let mut ch_end: u64 = sec_start;
            let nch = chunks.len();
            let mut k: usize = 0;
            while k < nch
                invariant
                    k <= nch,
                    nch == cv.len(),
                    i < nseg,
                    j < nsec,
                    nseg == segs.len(),
                    nsec == ss.len(),
                    ss == segs[i as int].sections,
                    cv == ss[j as int].chunks,
                    chunks@.map_values(|x: SectionChunk| x@) == cv.skip(k as int),
                    new_chunks@.len() == k,
                    forall|z: int|
                        0 <= z < k ==> #[trigger] new_chunks@[z]@ == applied[i as int].sections[
                            j as int
                        ].chunks[z],
                    forall|z: int| 0 <= z < k ==> (#[trigger] new_chunks@[z]@).patches_wf(),
                    forall|z: int|
                        0 <= z < k ==> #[trigger] chunk_result(
                            *config,
                            segs,
                            inputs@,
                            globals@,
                            i as int,
                            j as int,
                            z,
                        ) is Ok,
                    ch_end == crate::layout::chunks_end(cv.take(k as int), sec_start as int),
                    sec_start == crate::layout::section_start_in(ss, j as int, seg_start as int),
                    seg_start == crate::layout::segment_start(segs, i as int, page),
                    sec_start + crate::layout::w_chunks(cv) <= u64::MAX,
                decreases nch - k,
            {
                proof {
                    crate::layout::lemma_chunks_end_bounds(cv.take(k as int), sec_start as int);
                    crate::layout::lemma_w_chunks_prefix(cv, k as int);
                    assert(cv.take(k + 1).drop_last() =~= cv.take(k as int));
                    assert(cv.take(k + 1).last() == cv[k as int]);
                    crate::layout::lemma_w_chunks_prefix(cv, k + 1);
                }
                let ghost chv = chunks@;
                let chunk = chunks.remove(0);
                proof {
                    assert(chunk@ == chv.map_values(|x: SectionChunk| x@)[0]);
                    assert(chunk@ == cv[k as int]);
                    assert forall|y: int| 0 <= y < chunks@.len() implies #[trigger] chunks@[y]@
                        == cv.skip(k + 1)[y] by {
                        assert(chunks@[y] == chv[y + 1]);
                        assert(chv.map_values(|x: SectionChunk| x@)[y + 1] == chv[y + 1]@);
                        assert(cv.skip(k as int)[y + 1] == cv[k + 1 + y]);
                    }
                    assert(chunks@.map_values(|x: SectionChunk| x@) =~= cv.skip(k + 1));
                }
                let ca = chunk.alignment;
                let ch_start = crate::math::align_up(ch_end, ca);
                proof {
                    assert(ch_start == crate::layout::chunk_start_in(cv, k as int, sec_start as int));
                    assert(ch_start == cs_of(segs, page, i as int, j as int, k as int));
                    crate::layout::lemma_chunks_end_bounds(cv.take(k + 1), sec_start as int);
                    assert(idx_ok(segs, i as int, j as int, k as int));
                    assert(chunk@.patches_wf() && inputs@.contains_id(chunk@.input));
                }
                let csize = chunk.size();
                match apply_chunk_relocs(
                    chunk,
                    ch_start,
                    inputs,
                    globals,
                    &anchor_table,
                    config,
                    Ghost(segs),
                ) {
                    Ok(c2) => {
                        new_chunks.push(c2);
                        proof {
                            assert(chunk_result(
                                *config,
                                segs,
                                inputs@,
                                globals@,
                                i as int,
                                j as int,
                                k as int,
                            ) is Ok);
                            assert(new_chunks@.last()@ == applied[i as int].sections[
                                j as int
                            ].chunks[k as int]);
                        }
                    }
                    Err(e) => {
                        proof {
                            assert(chunk_result(
                                *config,
                                segs,
                                inputs@,
                                globals@,
                                i as int,
                                j as int,
                                k as int,
                            ) is Err);
                        }
                        return Err(e);
                    }
                }
                ch_end = ch_start + csize;
                k += 1;
            }

            proof {
                crate::layout::lemma_w_chunks_prefix(cv, nch as int);
                assert(cv.take(nch as int) =~= cv);
                crate::layout::lemma_chunks_end_bounds(cv, sec_start as int);
                crate::layout::lemma_chunks_end_bounds(cv, 0);
            }
            let new_sec = Section { name, chunks: new_chunks, permissions };
            new_sections.push(new_sec);
            proof {
                assert(new_sections@.last()@.chunks =~= applied[i as int].sections[
                    j as int
                ].chunks);
                assert(new_sections@.last()@ == applied[i as int].sections[j as int]);
            }
            sec_end = sec_start + sec_size;
            proof {
                assert(sec_end == crate::layout::sections_end(ss.take(j + 1), seg_start as int));
            }
            j += 1;
        }

        proof {
            assert(ss.take(nsec as int) =~= ss);
            crate::layout::lemma_sections_end_bounds(ss, seg_start as int);
        }
        new_segments.push(Segment { sections: new_sections });
        proof {
            assert(new_segments@.last()@.sections =~= applied[i as int].sections);
            assert(new_segments@.last()@ == applied[i as int]);
        }
        prev_end = seg_start + seg_size;
        i += 1;
    }

    linked.segments = new_segments;
    proof {
        assert(final(linked)@ =~= applied);
    }
    Ok(())
}


} // verus!
