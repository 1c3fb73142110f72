//! Linker-wide laws, proved once and for all.

use vstd::prelude::*;

use crate::config::Config;
use crate::layout::{
    chunk_start_in, chunks_end, max_align_chunks, max_align_sections, max_int, section_align,
    section_size, section_start_in, sections_end, segment_align, segment_size, segment_start,
};
use crate::relocation::{idx_ok, lex_before};
use vstd::arithmetic::power2::pow2;
use crate::section::SectionV;
use crate::math::{spec_align_up, spec_eff_align};
use crate::section::{finalized, ChunkV, SegmentV};
use crate::inputs::{InputCacheItemV, InputCacheV, InputId, InputObjectV, SectionInfoV, SymbolInfoV};
use crate::name_resolution::GlobalEntryV;
use crate::relocation::spec_apply_chunk;
use crate::section::{all_zero, patch_insert, PatchV};
use crate::write_elf64::{
    chunks_out, file_offset_of, pos_after_headers, pos_first_content, spec_file_header, spec_image,
    spec_phdr_flags, spec_phdr_size, spec_phdrs, spec_program_header, vaddr_of,
};
use vstd::bytes::{
    lemma_auto_spec_u16_to_from_le_bytes, lemma_auto_spec_u32_to_from_le_bytes,
    lemma_auto_spec_u64_to_from_le_bytes, spec_u16_from_le_bytes, spec_u16_to_le_bytes,
    spec_u32_from_le_bytes, spec_u32_to_le_bytes, spec_u64_to_le_bytes,
};

verus! {

/// Patching never changes a chunk's length: the finalized bytes have
/// exactly the length of the original bytes.
pub proof fn lemma_finalized_len(c: ChunkV)
    ensures
        finalized(c).len() == c.orig_bytes.len(),
{
}

/// What the writer emits for the chunks of one section takes exactly the
/// span the layout computes for them: the sum of the chunk sizes plus each
/// chunk's alignment padding.
pub proof fn lemma_chunks_out_len_exact(cs: Seq<ChunkV>, pos: int)
    requires
        pos >= 0,
    ensures
        chunks_out(cs, pos).len() == chunks_end(cs, pos) - pos,
    decreases cs.len(),
{
    if cs.len() > 0 {
        lemma_chunks_out_len_exact(cs.drop_last(), pos);
        crate::layout::lemma_chunks_end_bounds(cs.drop_last(), pos);
        crate::math::lemma_align_up_bounds(
            chunks_end(cs.drop_last(), pos),
            cs.last().alignment as int,
        );
    }
}

/// The layout cursor only moves forward over chunk prefixes.
proof fn lemma_chunks_end_mono(cs: Seq<ChunkV>, j1: int, j2: int, base: int)
    requires
        0 <= j1 <= j2 <= cs.len(),
        base >= 0,
    ensures
        chunks_end(cs.take(j1), base) <= chunks_end(cs.take(j2), base),
    decreases j2 - j1,
{
    if j1 < j2 {
        lemma_chunks_end_mono(cs, j1, j2 - 1, base);
        assert(cs.take(j2).drop_last() =~= cs.take(j2 - 1));
        crate::layout::lemma_chunks_end_bounds(cs.take(j2 - 1), base);
        crate::math::lemma_align_up_bounds(
            chunks_end(cs.take(j2 - 1), base),
            cs.take(j2).last().alignment as int,
        );
    }
}

/// The layout is monotonic: within a section, an earlier chunk ends at or
/// before a later chunk starts.
pub proof fn lemma_layout_monotonic(cs: Seq<ChunkV>, k1: int, k2: int, base: int)
    requires
        0 <= k1 < k2 < cs.len(),
        base >= 0,
    ensures
        chunk_start_in(cs, k1, base) + cs[k1].orig_bytes.len() <= chunk_start_in(cs, k2, base),
{
    assert(cs.take(k1 + 1).drop_last() =~= cs.take(k1));
    assert(cs.take(k1 + 1).last() == cs[k1]);
    assert(chunk_start_in(cs, k1, base) + cs[k1].orig_bytes.len() == chunks_end(
        cs.take(k1 + 1),
        base,
    ));
    lemma_chunks_end_mono(cs, k1 + 1, k2, base);
    crate::layout::lemma_chunks_end_bounds(cs.take(k2), base);
    crate::math::lemma_align_up_bounds(chunks_end(cs.take(k2), base), cs[k2].alignment as int);
}

/// The distance between two chunk starts is a multiple of every common
/// divisor of the two chunks' effective alignments.
pub proof fn lemma_layout_gcd(cs: Seq<ChunkV>, k1: int, k2: int, base: int, d: int)
    requires
        0 <= k1 < k2 < cs.len(),
        base >= 0,
        d >= 1,
        spec_eff_align(cs[k1].alignment as int) % d == 0,
        spec_eff_align(cs[k2].alignment as int) % d == 0,
    ensures
        (chunk_start_in(cs, k2, base) - chunk_start_in(cs, k1, base)) % d == 0,
{
    crate::layout::lemma_chunks_end_bounds(cs.take(k1), base);
    crate::layout::lemma_chunks_end_bounds(cs.take(k2), base);
    crate::math::lemma_align_up_bounds(chunks_end(cs.take(k1), base), cs[k1].alignment as int);
    crate::math::lemma_align_up_bounds(chunks_end(cs.take(k2), base), cs[k2].alignment as int);
    let s1 = chunk_start_in(cs, k1, base);
    let s2 = chunk_start_in(cs, k2, base);
    let m1 = spec_eff_align(cs[k1].alignment as int);
    let m2 = spec_eff_align(cs[k2].alignment as int);
    lemma_divides_trans(s1, m1, d);
    lemma_divides_trans(s2, m2, d);
    vstd::arithmetic::div_mod::lemma_fundamental_div_mod(s1, d);
    vstd::arithmetic::div_mod::lemma_fundamental_div_mod(s2, d);
    assert(s2 - s1 == (s2 / d - s1 / d) * d) by (nonlinear_arith)
        requires s1 == d * (s1 / d), s2 == d * (s2 / d);
    vstd::arithmetic::div_mod::lemma_mod_multiples_basic(s2 / d - s1 / d, d);
}

/// If `m` divides `x` and `d` divides `m`, then `d` divides `x`.
proof fn lemma_divides_trans(x: int, m: int, d: int)
    requires
        m >= 1,
        d >= 1,
        x % m == 0,
        m % d == 0,
    ensures
        x % d == 0,
{
    vstd::arithmetic::div_mod::lemma_fundamental_div_mod(x, m);
    vstd::arithmetic::div_mod::lemma_fundamental_div_mod(m, d);
    assert(x == ((x / m) * (m / d)) * d) by (nonlinear_arith)
        requires x == m * (x / m), m == d * (m / d);
    vstd::arithmetic::div_mod::lemma_mod_multiples_basic((x / m) * (m / d), d);
}

/// Aligning from a position that is already a multiple of the alignment
/// shifts with the position.
proof fn lemma_align_up_shift(s: int, x: int, p: int)
    requires
        p >= 1,
        s >= 0,
        x >= 0,
        s % p == 0,
    ensures
        spec_align_up(s + x, p) == s + spec_align_up(x, p),
{
    if p == 1 {
    } else {
        vstd::arithmetic::div_mod::lemma_fundamental_div_mod(s, p);
        vstd::arithmetic::div_mod::lemma_mod_multiples_vanish(s / p, x, p);
        assert(s + x == p * (s / p) + x) by (nonlinear_arith)
            requires s == p * (s / p);
        assert((s + x) % p == x % p);
    }
}

/// The segment file offsets the writer computes equal the segment start
/// offsets used during relocation, provided the file alignment is the page
/// size and no segment asks for more than page alignment. This fails when a
/// segment's alignment exceeds the page size: the two walks then align by
/// different amounts.
pub proof fn lemma_file_offsets_match(segs: Seq<SegmentV>, config: Config, i: int)
    requires
        config.segment_file_align == config.page_size,
        config.page_size >= 1,
        forall|x: int| 0 <= x < segs.len() ==> segment_align(#[trigger] segs[x]) <= config.page_size,
        0 <= i < segs.len() || i == 0,
    ensures
        file_offset_of(segs, config, i) - pos_first_content(config, segs.len() as int)
            == segment_start(segs, i, config.page_size),
        segment_start(segs, i, config.page_size) % (config.page_size as int) == 0,
        segment_start(segs, i, config.page_size) >= 0,
    decreases i,
{
    let p = config.page_size as int;
    if i == 0 {
        vstd::arithmetic::div_mod::lemma_small_mod(0, p as nat);
    } else {
        lemma_file_offsets_match(segs, config, i - 1);
        let s_prev = segment_start(segs, i - 1, config.page_size);
        let size = segment_size(segs[i - 1]);
        crate::layout::lemma_sections_end_bounds(segs[i - 1].sections, 0);
        assert(max_int(segment_align(segs[i]) as int, p) == p);
        lemma_align_up_shift(s_prev, size, p);
        crate::math::lemma_align_up_bounds(s_prev + size, p);
        crate::math::lemma_align_up_bounds(size, p);
    }
}

/// Every program header's virtual address is a multiple of the page size,
/// provided the base address is.
pub proof fn lemma_vaddr_page_aligned(segs: Seq<SegmentV>, config: Config, i: int)
    requires
        config.page_size >= 1,
        config.base_addr % config.page_size == 0,
        0 <= i <= segs.len(),
    ensures
        (config.base_addr + vaddr_of(segs, config, i)) % (config.page_size as int) == 0,
        vaddr_of(segs, config, i) % (config.page_size as int) == 0,
        vaddr_of(segs, config, i) >= 0,
    decreases i,
{
    let p = config.page_size as int;
    if i == 0 {
        vstd::arithmetic::div_mod::lemma_small_mod(0, p as nat);
    } else {
        lemma_vaddr_page_aligned(segs, config, i - 1);
        crate::layout::lemma_sections_end_bounds(segs[i - 1].sections, 0);
        crate::math::lemma_align_up_bounds(
            vaddr_of(segs, config, i - 1) + segment_size(segs[i - 1]),
            p,
        );
    }
    let v = vaddr_of(segs, config, i);
    let b = config.base_addr as int;
    vstd::arithmetic::div_mod::lemma_fundamental_div_mod(b, p);
    vstd::arithmetic::div_mod::lemma_fundamental_div_mod(v, p);
    assert(b + v == (b / p + v / p) * p) by (nonlinear_arith)
        requires b == p * (b / p), v == p * (v / p);
    vstd::arithmetic::div_mod::lemma_mod_multiples_basic(b / p + v / p, p);
}

/// Every patch a relocation run installs covers only bytes that were zero
/// in the original chunk, provided the patches it started from did.
pub proof fn lemma_patches_over_zeros(
    config: Config,
    segs: Seq<SegmentV>,
    cache: InputCacheV,
    globals: Seq<GlobalEntryV>,
    chunk: ChunkV,
    cs: u64,
    n: int,
)
    requires
        chunk.orig_bytes.len() <= usize::MAX,
        forall|x: int|
            0 <= x < chunk.patches.len() ==> all_zero(
                chunk.orig_bytes,
                (#[trigger] chunk.patches[x]).offset as int,
                chunk.patches[x].bytes.len() as int,
            ),
    ensures
        spec_apply_chunk(config, segs, cache, globals, chunk, cs, n) matches Ok(ps) ==> forall|
            x: int,
        |
            0 <= x < ps.len() ==> all_zero(
                chunk.orig_bytes,
                (#[trigger] ps[x]).offset as int,
                ps[x].bytes.len() as int,
            ),
    decreases n,
{
    if n > 0 {
        lemma_patches_over_zeros(config, segs, cache, globals, chunk, cs, n - 1);
        match spec_apply_chunk(config, segs, cache, globals, chunk, cs, n) {
            Ok(ps) => {
                let prev = match spec_apply_chunk(config, segs, cache, globals, chunk, cs, n - 1) {
                    Ok(q) => q,
                    Err(_) => Seq::empty(),
                };
                let rel = chunk.relocations[n - 1];
                match crate::relocation::spec_anchor(
                    segs,
                    config.page_size,
                    cache,
                    globals,
                    chunk.input,
                    rel.relative_to,
                ) {
                    Ok(anchor) => {
                        match crate::relocation::spec_patch_bytes(
                            config,
                            cs,
                            rel,
                            anchor.0,
                            anchor.1,
                        ) {
                            Ok(bytes) => {
                                let p_new = PatchV {
                                    offset: rel.patch_offset as usize,
                                    bytes,
                                };
                                assert(ps == patch_insert(prev, p_new));
                                assert(all_zero(
                                    chunk.orig_bytes,
                                    rel.patch_offset as int,
                                    bytes.len() as int,
                                ));
                                lemma_patch_insert_index_bounds(prev, p_new.offset as int);
                                let idx = crate::section::patch_insert_index(
                                    prev,
                                    p_new.offset as int,
                                );
                                assert forall|x: int| 0 <= x < ps.len() implies all_zero(
                                    chunk.orig_bytes,
                                    (#[trigger] ps[x]).offset as int,
                                    ps[x].bytes.len() as int,
                                ) by {
                                    if x < idx {
                                        assert(ps[x] == prev[x]);
                                    } else if x == idx {
                                        assert(ps[x] == p_new);
                                        assert(p_new.offset as int == rel.patch_offset as int);
                                    } else {
                                        assert(ps[x] == prev[x - 1]);
                                    }
                                }
                            },
                            Err(_) => {},
                        }
                    },
                    Err(_) => {},
                }
            },
            Err(_) => {},
        }
    }
}

proof fn lemma_patch_insert_index_bounds(patches: Seq<PatchV>, at: int)
    ensures
        0 <= crate::section::patch_insert_index(patches, at) <= patches.len(),
    decreases patches.len(),
{
    if patches.len() > 0 && patches.last().offset >= at {
        lemma_patch_insert_index_bounds(patches.drop_last(), at);
    }
}

/// The program header table is 56 bytes per segment.
proof fn lemma_phdrs_len(segs: Seq<SegmentV>, config: Config, i: int)
    requires
        0 <= i,
    ensures
        spec_phdrs(segs, config, i).len() == 56 * i,
    decreases i,
{
    lemma_auto_spec_u32_to_from_le_bytes();
    lemma_auto_spec_u64_to_from_le_bytes();
    if i > 0 {
        lemma_phdrs_len(segs, config, i - 1);
    }
}

/// The bytes of program header `i` within the table.
proof fn lemma_phdrs_slice(segs: Seq<SegmentV>, config: Config, n: int, i: int)
    requires
        0 <= i < n,
    ensures
        spec_phdrs(segs, config, n).subrange(56 * i, 56 * i + 56) == spec_program_header(
            crate::elf::PT_LOAD,
            spec_phdr_flags(segs[i]),
            file_offset_of(segs, config, i) as u64,
            (config.base_addr + vaddr_of(segs, config, i)) as u64,
            (config.base_addr + vaddr_of(segs, config, i)) as u64,
            spec_phdr_size(segs[i], config) as u64,
            spec_phdr_size(segs[i], config) as u64,
            config.page_size,
        ),
    decreases n,
{
    lemma_auto_spec_u32_to_from_le_bytes();
    lemma_auto_spec_u64_to_from_le_bytes();
    lemma_phdrs_len(segs, config, n - 1);
    lemma_phdrs_len(segs, config, n);
    if i == n - 1 {
        assert(spec_phdrs(segs, config, n).subrange(56 * i, 56 * i + 56) =~= spec_program_header(
            crate::elf::PT_LOAD,
            spec_phdr_flags(segs[i]),
            file_offset_of(segs, config, i) as u64,
            (config.base_addr + vaddr_of(segs, config, i)) as u64,
            (config.base_addr + vaddr_of(segs, config, i)) as u64,
            spec_phdr_size(segs[i], config) as u64,
            spec_phdr_size(segs[i], config) as u64,
            config.page_size,
        ));
    } else {
        lemma_phdrs_slice(segs, config, n - 1, i);
        assert(spec_phdrs(segs, config, n).subrange(56 * i, 56 * i + 56) =~= spec_phdrs(
            segs,
            config,
            n - 1,
        ).subrange(56 * i, 56 * i + 56));
    }
}

/// Reparsing the emitted image finds what the link built: type `ET_EXEC`,
/// machine x86-64, one program header per segment, and in every program
/// header equal file and memory sizes, equal virtual and physical
/// addresses, and the flag word of the segment's permissions.
pub proof fn lemma_image_reparses(segs: Seq<SegmentV>, config: Config)
    requires
        segs.len() <= u16::MAX,
    ensures
        spec_u16_from_le_bytes(spec_image(segs, config).subrange(16, 18)) == crate::elf::ET_EXEC,
        spec_u16_from_le_bytes(spec_image(segs, config).subrange(18, 20)) == crate::elf::EM_X86_64,
        spec_u16_from_le_bytes(spec_image(segs, config).subrange(56, 58)) == segs.len() as u16,
        forall|i: int|
            0 <= i < segs.len() ==> #[trigger] spec_image(segs, config).subrange(
                64 + 56 * i + 32,
                64 + 56 * i + 40,
            ) == spec_image(segs, config).subrange(64 + 56 * i + 40, 64 + 56 * i + 48),
        forall|i: int|
            0 <= i < segs.len() ==> #[trigger] spec_image(segs, config).subrange(
                64 + 56 * i + 16,
                64 + 56 * i + 24,
            ) == spec_image(segs, config).subrange(64 + 56 * i + 24, 64 + 56 * i + 32),
        forall|i: int|
            0 <= i < segs.len() ==> spec_u32_from_le_bytes(
                #[trigger] spec_image(segs, config).subrange(64 + 56 * i + 4, 64 + 56 * i + 8),
            ) == spec_phdr_flags(segs[i]),
{
    lemma_auto_spec_u16_to_from_le_bytes();
    lemma_auto_spec_u32_to_from_le_bytes();
    lemma_auto_spec_u64_to_from_le_bytes();
    let n = segs.len() as int;
    let img = spec_image(segs, config);
    let hdr = spec_file_header(config.base_addr, n as u16);
    lemma_phdrs_len(segs, config, n);
    assert(hdr.len() == 64);
    assert(img.subrange(16, 18) =~= spec_u16_to_le_bytes(crate::elf::ET_EXEC));
    assert(img.subrange(18, 20) =~= spec_u16_to_le_bytes(crate::elf::EM_X86_64));
    assert(img.subrange(56, 58) =~= spec_u16_to_le_bytes(n as u16));
    assert forall|i: int| 0 <= i < segs.len() implies #[trigger] spec_image(
        segs,
        config,
    ).subrange(64 + 56 * i + 32, 64 + 56 * i + 40) == spec_image(segs, config).subrange(
        64 + 56 * i + 40,
        64 + 56 * i + 48,
    ) && spec_u32_from_le_bytes(
        spec_image(segs, config).subrange(64 + 56 * i + 4, 64 + 56 * i + 8),
    ) == spec_phdr_flags(segs[i]) by {
        lemma_phdrs_slice(segs, config, n, i);
        let ph = spec_program_header(
            crate::elf::PT_LOAD,
            spec_phdr_flags(segs[i]),
            file_offset_of(segs, config, i) as u64,
            (config.base_addr + vaddr_of(segs, config, i)) as u64,
            (config.base_addr + vaddr_of(segs, config, i)) as u64,
            spec_phdr_size(segs[i], config) as u64,
            spec_phdr_size(segs[i], config) as u64,
            config.page_size,
        );
        assert(img.subrange(64 + 56 * i, 64 + 56 * i + 56) =~= spec_phdrs(
            segs,
            config,
            n,
        ).subrange(56 * i, 56 * i + 56));
        assert(img.subrange(64 + 56 * i + 4, 64 + 56 * i + 8) =~= ph.subrange(4, 8));
        assert(ph.subrange(4, 8) =~= spec_u32_to_le_bytes(spec_phdr_flags(segs[i])));
        assert(img.subrange(64 + 56 * i + 32, 64 + 56 * i + 40) =~= ph.subrange(32, 40));
        assert(img.subrange(64 + 56 * i + 40, 64 + 56 * i + 48) =~= ph.subrange(40, 48));
        assert(ph.subrange(32, 40) =~= spec_u64_to_le_bytes(
            spec_phdr_size(segs[i], config) as u64,
        ));
        assert(ph.subrange(40, 48) =~= spec_u64_to_le_bytes(
            spec_phdr_size(segs[i], config) as u64,
        ));
    }
    assert forall|i: int| 0 <= i < segs.len() implies spec_u32_from_le_bytes(
        #[trigger] spec_image(segs, config).subrange(64 + 56 * i + 4, 64 + 56 * i + 8),
    ) == spec_phdr_flags(segs[i]) by {
        lemma_phdrs_slice(segs, config, n, i);
        let ph = spec_program_header(
            crate::elf::PT_LOAD,
            spec_phdr_flags(segs[i]),
            file_offset_of(segs, config, i) as u64,
            (config.base_addr + vaddr_of(segs, config, i)) as u64,
            (config.base_addr + vaddr_of(segs, config, i)) as u64,
            spec_phdr_size(segs[i], config) as u64,
            spec_phdr_size(segs[i], config) as u64,
            config.page_size,
        );
        assert(img.subrange(64 + 56 * i, 64 + 56 * i + 56) =~= spec_phdrs(
            segs,
            config,
            n,
        ).subrange(56 * i, 56 * i + 56));
        assert(img.subrange(64 + 56 * i + 4, 64 + 56 * i + 8) =~= ph.subrange(4, 8));
        assert(ph.subrange(4, 8) =~= spec_u32_to_le_bytes(spec_phdr_flags(segs[i])));
    }
    assert forall|i: int| 0 <= i < segs.len() implies #[trigger] spec_image(
        segs,
        config,
    ).subrange(64 + 56 * i + 16, 64 + 56 * i + 24) == spec_image(segs, config).subrange(
        64 + 56 * i + 24,
        64 + 56 * i + 32,
    ) by {
        lemma_phdrs_slice(segs, config, n, i);
        let ph = spec_program_header(
            crate::elf::PT_LOAD,
            spec_phdr_flags(segs[i]),
            file_offset_of(segs, config, i) as u64,
            (config.base_addr + vaddr_of(segs, config, i)) as u64,
            (config.base_addr + vaddr_of(segs, config, i)) as u64,
            spec_phdr_size(segs[i], config) as u64,
            spec_phdr_size(segs[i], config) as u64,
            config.page_size,
        );
        assert(img.subrange(64 + 56 * i, 64 + 56 * i + 56) =~= spec_phdrs(
            segs,
            config,
            n,
        ).subrange(56 * i, 56 * i + 56));
        assert(img.subrange(64 + 56 * i + 16, 64 + 56 * i + 24) =~= ph.subrange(16, 24));
        assert(img.subrange(64 + 56 * i + 24, 64 + 56 * i + 32) =~= ph.subrange(24, 32));
        assert(ph.subrange(16, 24) =~= ph.subrange(24, 32));
    }
}


/// The layout cursor only moves forward over section prefixes.
proof fn lemma_sections_end_mono(ss: Seq<SectionV>, j1: int, j2: int, base: int)
    requires
        0 <= j1 <= j2 <= ss.len(),
        base >= 0,
    ensures
        sections_end(ss.take(j1), base) <= sections_end(ss.take(j2), base),
    decreases j2 - j1,
{
    if j1 < j2 {
        lemma_sections_end_mono(ss, j1, j2 - 1, base);
        assert(ss.take(j2).drop_last() =~= ss.take(j2 - 1));
        crate::layout::lemma_sections_end_bounds(ss.take(j2 - 1), base);
        crate::math::lemma_align_up_bounds(
            sections_end(ss.take(j2 - 1), base),
            crate::layout::section_align(ss.take(j2).last()) as int,
        );
        crate::layout::lemma_chunks_end_bounds(ss.take(j2).last().chunks, 0);
    }
}

/// Section starts are monotonic too: within a segment, an earlier section
/// start plus that section's size stays at or before a later section's
/// start.
pub proof fn lemma_section_starts_monotonic(ss: Seq<SectionV>, j1: int, j2: int, base: int)
    requires
        0 <= j1 < j2 < ss.len(),
        base >= 0,
    ensures
        section_start_in(ss, j1, base) + section_size(ss[j1]) <= section_start_in(ss, j2, base),
{
    assert(ss.take(j1 + 1).drop_last() =~= ss.take(j1));
    assert(ss.take(j1 + 1).last() == ss[j1]);
    assert(section_start_in(ss, j1, base) + section_size(ss[j1]) == sections_end(
        ss.take(j1 + 1),
        base,
    ));
    lemma_sections_end_mono(ss, j1 + 1, j2, base);
    crate::layout::lemma_sections_end_bounds(ss.take(j2), base);
    crate::math::lemma_align_up_bounds(
        sections_end(ss.take(j2), base),
        crate::layout::section_align(ss[j2]) as int,
    );
}


proof fn lemma_filter_pal_empty(ss: Seq<crate::section::SectionV>, q: int)
    requires
        0 <= q < 4,
        ss.len() == 1,
        crate::layout::section_perms(ss[0]) != crate::section::palette()[q],
    ensures
        ss.filter(
            |x: crate::section::SectionV| crate::layout::section_perms(x)
                == crate::section::palette()[q],
        ).len() == 0,
{
    reveal_with_fuel(Seq::filter, 3);
    assert(ss.drop_last() =~= Seq::<crate::section::SectionV>::empty());
}

/// The shape of a minimal linkable input: one object whose only content
/// section is a `.text._start` of 16 bytes carrying no relocations, with a
/// global `_start` defined in it.
pub open spec fn single_start_object(o: InputObjectV) -> bool {
    &&& o.is_64
    &&& o.little_endian
    &&& o.e_type == crate::elf::ET_REL
    &&& o.sections.len() == 2
    &&& o.sections[0].sh_type == 0
    &&& o.sections[1] == (SectionInfoV {
        name: ".text._start"@,
        sh_type: crate::elf::SHT_PROGBITS,
        sh_flags: 6,
        sh_addr: 0,
        sh_info: 0,
        sh_addralign: 16,
        sh_offset: 0,
        sh_size: 16,
    })
    &&& o.symbols.len() == 2
    &&& o.symbols[0].st_info == 0
    &&& o.symbols[1] == (SymbolInfoV {
        name: "_start"@,
        st_info: 0x10,
        st_other: 0,
        st_shndx: 1,
        st_value: 0,
    })
    &&& o.reloc_tables.len() == 0
    &&& o.bytes.len() == 16
}

/// Linking a single object whose only section is a `.text._start` defining
/// `_start` must succeed: with the default configuration every stage's
/// success condition holds, so by the contracts of `verify_inputs`,
/// `extract_globals` and `build`, none of them can fail.
pub proof fn lemma_single_start_links(cache: InputCacheV, o: InputObjectV, config: Config)
    requires
        single_start_object(o),
        cache.files == seq![InputCacheItemV::Elf { object: o }],
        config.base_addr == 0x400000,
        config.segment_file_align == 0x1000,
        config.page_size == 0x1000,
    ensures
        crate::linker::spec_inputs_valid(cache),
        crate::name_resolution::spec_extract_globals(cache) is Ok,
        crate::section::spec_combine(cache, crate::linker::spec_section_names(cache)) is Ok,
        ({
            let ss = match crate::section::spec_combine(
                cache,
                crate::linker::spec_section_names(cache),
            ) {
                Ok(ss) => ss,
                Err(_) => Seq::empty(),
            };
            &&& crate::section::all_in_palette(ss)
            &&& crate::layout::fits(crate::section::packed_upto(ss, 4), config)
            &&& crate::relocation::all_relocs_ok(
                config,
                crate::section::packed_upto(ss, 4),
                cache,
                match crate::name_resolution::spec_extract_globals(cache) {
                    Ok(t) => t,
                    Err(_) => Seq::empty(),
                },
            )
        }),
{
    reveal_strlit(".text._start");
    reveal_strlit(".entry");
    reveal_strlit(".entry.");
    reveal_strlit(".text");
    reveal_strlit(".text.");
    reveal_strlit(".rodata");
    reveal_strlit(".rodata.");
    reveal_strlit("_start");

    let id = InputId { file: 0, member: None };
    assert(cache.ids() =~= seq![id]) by {
        assert(cache.ids_prefix(0) =~= Seq::<InputId>::empty());
        assert(cache.ids_prefix(1) =~= cache.files[0].ids(0));
        assert(cache.files[0].ids(0) =~= seq![id]);
    }
    assert(cache.contains_id(id));
    assert(cache.obj(id) == o);

    // Every input is a 64-bit little-endian relocatable object.
    assert(crate::linker::spec_inputs_valid(cache));

    // One global definition: no duplicate.
    assert(crate::name_resolution::spec_extract_globals(cache) is Ok) by {
        assert(0u8 >> 4u8 == 0u8) by (bit_vector);
        assert(0x10u8 >> 4u8 == 1u8) by (bit_vector);
        assert(0u8 & 7u8 == 0u8) by (bit_vector);
        assert(!crate::name_resolution::is_global_definition(o.symbols[0]));
        assert(crate::name_resolution::is_global_definition(o.symbols[1]));
        assert(crate::name_resolution::add_defs(Seq::empty(), id, o.symbols, 0) is Ok);
        assert(crate::name_resolution::add_defs(Seq::empty(), id, o.symbols, 1) is Ok);
        assert(crate::name_resolution::add_defs(Seq::empty(), id, o.symbols, 2) is Ok);
        assert(crate::name_resolution::spec_extract_upto(cache, 0) is Ok);
        assert(crate::name_resolution::spec_extract_upto(cache, 1) is Ok);
    }

    // The one observed name is ".text._start".
    let names = crate::linker::spec_section_names(cache);
    assert(names =~= seq![".text._start"@]) by {
        assert(crate::linker::spec_names_upto(cache, 0) =~= Seq::<Seq<char>>::empty());
        assert(crate::linker::add_names_obj(Seq::empty(), o, 0) =~= Seq::<Seq<char>>::empty());
        assert(crate::linker::add_names_obj(Seq::empty(), o, 1) =~= Seq::<Seq<char>>::empty());
        assert(crate::linker::add_names_obj(Seq::empty(), o, 2) =~= seq![".text._start"@]);
        assert(crate::linker::spec_names_upto(cache, 1) =~= seq![".text._start"@]);
    }

    // It falls in the .text group, by prefix.
    assert(!names.contains(".entry"@));
    assert(!names.contains(".text"@));
    assert(!names.contains(".rodata"@));
    assert(!crate::section::str_has_prefix(".text._start"@, ".entry."@)) by {
        if ".text._start"@.subrange(0, 7) == ".entry."@ {
            assert(".text._start"@.subrange(0, 7)[1] == 't');
        }
    }
    assert(crate::section::str_has_prefix(".text._start"@, ".text."@)) by {
        assert(".text._start"@.subrange(0, 6) =~= ".text."@);
    }
    assert(!crate::section::str_has_prefix(".text._start"@, ".rodata."@)) by {
        if ".text._start"@.subrange(0, 8) == ".rodata."@ {
            assert(".text._start"@.subrange(0, 8)[1] == 't');
        }
    }

    // Its chunks: exactly the one .text._start section of the one input.
    let c = crate::section::spec_chunk_of(id, o, 1);
    assert(crate::section::spec_section_chunks(id, o, ".text._start"@) == Ok::<
        Seq<crate::section::ChunkV>,
        Seq<char>,
    >(seq![c])) by {
        assert(crate::section::spec_chunks_from(id, o, ".text._start"@, 0) == Ok::<
            Seq<crate::section::ChunkV>,
            Seq<char>,
        >(Seq::empty()));
        assert(crate::section::spec_chunks_from(id, o, ".text._start"@, 1) == Ok::<
            Seq<crate::section::ChunkV>,
            Seq<char>,
        >(Seq::empty()));
        assert(crate::section::spec_chunks_from(id, o, ".text._start"@, 2) matches Ok(cs)
            && cs =~= seq![c]);
    }
    let sec = crate::section::SectionV {
        name: ".text._start"@,
        chunks: seq![c],
        permissions: crate::layout::no_perms(),
    };
    assert(crate::section::spec_group_chunks(cache, ".text._start"@) == Ok::<
        Seq<crate::section::ChunkV>,
        Seq<char>,
    >(seq![c])) by {
        assert(crate::section::spec_group_upto(cache, ".text._start"@, 0) matches Ok(cs)
            && cs =~= Seq::<crate::section::ChunkV>::empty());
        assert(crate::section::spec_group_upto(cache, ".text._start"@, 1) matches Ok(cs)
            && cs =~= seq![c]);
    }
    assert(crate::section::spec_section_named(cache, ".text._start"@) == Ok::<
        crate::section::SectionV,
        Seq<char>,
    >(sec));

    let ss = seq![sec];
    assert(crate::section::spec_combine(cache, names) == Ok::<
        Seq<crate::section::SectionV>,
        Seq<char>,
    >(ss)) by {
        assert(crate::section::spec_add_group(Seq::empty(), cache, names, ".entry"@, ".entry."@)
            matches Ok(a) && a =~= Seq::<crate::section::SectionV>::empty()) by {
            assert(crate::section::spec_add_prefixed(
                Seq::empty(),
                cache,
                names,
                ".entry."@,
                0,
            ) matches Ok(a) && a =~= Seq::<crate::section::SectionV>::empty());
            assert(crate::section::spec_add_prefixed(
                Seq::empty(),
                cache,
                names,
                ".entry."@,
                1,
            ) matches Ok(a) && a =~= Seq::<crate::section::SectionV>::empty());
        }
        assert(crate::section::spec_add_group(Seq::empty(), cache, names, ".text"@, ".text."@)
            matches Ok(a) && a =~= ss) by {
            assert(crate::section::spec_add_prefixed(Seq::empty(), cache, names, ".text."@, 0)
                matches Ok(a) && a =~= Seq::<crate::section::SectionV>::empty());
            assert(crate::section::spec_add_prefixed(Seq::empty(), cache, names, ".text."@, 1)
                matches Ok(a) && a =~= ss);
        }
        assert(crate::section::spec_add_group(ss, cache, names, ".rodata"@, ".rodata."@)
            matches Ok(a) && a =~= ss) by {
            assert(crate::section::spec_add_prefixed(ss, cache, names, ".rodata."@, 0)
                matches Ok(a) && a =~= ss);
            assert(crate::section::spec_add_prefixed(ss, cache, names, ".rodata."@, 1)
                matches Ok(a) && a =~= ss);
        }
    }

    // Its permissions are r-x: the first palette entry.
    let rx = crate::permissions::Permissions { read: true, write: false, execute: true };
    assert(crate::layout::section_perms(sec) == rx) by {
        assert(seq![c].drop_last() =~= Seq::<crate::section::ChunkV>::empty());
        assert(crate::layout::perms_chunks(Seq::empty()) == crate::layout::no_perms());
        assert(c.permissions == rx) by {
            assert(6u64 & 1u64 == 0u64) by (bit_vector);
            assert(6u64 & 4u64 != 0u64) by (bit_vector);
        }
    }
    assert(crate::section::palette()[0] == rx);
    assert(crate::section::all_in_palette(ss));

    // One r-x segment; its weight is tiny, so the layout fits.
    let packed = crate::section::packed_upto(ss, 4);
    let f0 = ss.filter(
        |x: crate::section::SectionV| crate::layout::section_perms(x) == crate::section::palette()[0],
    );
    assert(f0 =~= ss) by {
        reveal_with_fuel(Seq::filter, 3);
        assert(ss.drop_last() =~= Seq::<crate::section::SectionV>::empty());
    }
    lemma_filter_pal_empty(ss, 1);
    lemma_filter_pal_empty(ss, 2);
    lemma_filter_pal_empty(ss, 3);
    let seg = crate::section::SegmentV { sections: ss };
    assert(crate::section::packed_upto(ss, 0) =~= Seq::<crate::section::SegmentV>::empty());
    assert(crate::section::packed_upto(ss, 1) =~= seq![seg]);
    assert(crate::section::packed_upto(ss, 2) =~= seq![seg]);
    assert(crate::section::packed_upto(ss, 3) =~= seq![seg]);
    assert(packed =~= seq![seg]);

    assert(crate::layout::fits(packed, config)) by {
        assert(seq![c].drop_last() =~= Seq::<crate::section::ChunkV>::empty());
        assert(crate::layout::w_chunks(Seq::<crate::section::ChunkV>::empty()) == 0);
        assert(c.orig_bytes.len() == 16);
        assert(crate::layout::w_chunks(seq![c]) == 16 + 16);
        assert(ss.drop_last() =~= Seq::<crate::section::SectionV>::empty());
        assert(crate::layout::max_align_chunks(Seq::<crate::section::ChunkV>::empty()) == 0);
        assert(crate::layout::max_align_chunks(seq![c]) == 16);
        assert(crate::layout::w_sections(Seq::<crate::section::SectionV>::empty()) == 0);
        assert(crate::layout::w_sections(ss) == 16 + 32);
        assert(packed.drop_last() =~= Seq::<crate::section::SegmentV>::empty());
        assert(crate::layout::max_align_sections(Seq::<crate::section::SectionV>::empty()) == 0);
        assert(crate::layout::max_align_sections(ss) == 16);
        assert(crate::layout::w_segments(Seq::<crate::section::SegmentV>::empty(), 0x1000, (0x38
            + 0x1000) as int) == 0);
        assert(crate::layout::w_segments(packed, 0x1000, (0x38 + 0x1000) as int) == (0x38
            + 0x1000 + 0x1000 + 48) as int);
    }

    // No relocations, so every chunk applies cleanly.
    assert(crate::relocation::spec_extract(o, 1) =~= Seq::<crate::relocation::RelocateV>::empty());
    assert(c.relocations.len() == 0);
    let globals = match crate::name_resolution::spec_extract_globals(cache) {
        Ok(t) => t,
        Err(_) => Seq::empty(),
    };
    assert forall|i: int, j: int, k: int|
        crate::relocation::idx_ok(packed, i, j, k) implies #[trigger] crate::relocation::chunk_result(
        config,
        packed,
        cache,
        globals,
        i,
        j,
        k,
    ) is Ok by {
        assert(i == 0 && j == 0 && k == 0);
        assert(packed[0].sections[0].chunks[0] == c);
    }
}

// ---------------------------------------------------------------------------
// Program-wide layout monotonicity
// ---------------------------------------------------------------------------

/// Whether an alignment value is 0 or a power of two; 0 and 1 both act as
/// an alignment of 1.
pub open spec fn pow2_alignment(a: u64) -> bool {
    a == 0 || exists|e: nat| a == pow2(e)
}

/// Whether every chunk alignment of the program is 0 or a power of two,
/// as the data model asks.
pub open spec fn pow2_aligned_program(segs: Seq<SegmentV>) -> bool {
    forall|i: int, j: int, k: int|
        idx_ok(segs, i, j, k) ==> pow2_alignment(
            (#[trigger] segs[i].sections[j].chunks[k]).alignment,
        )
}

/// The base-relative start of chunk `(i, j, k)`, as the layout computes it.
pub open spec fn abs_chunk_start(segs: Seq<SegmentV>, page: u64, i: int, j: int, k: int) -> int {
    chunk_start_in(
        segs[i].sections[j].chunks,
        k,
        section_start_in(segs[i].sections, j, segment_start(segs, i, page)),
    )
}

/// The effective alignment of a 0-or-power-of-two value is a power of two.
proof fn lemma_eff_pow2(a: u64) -> (e: nat)
    requires
        pow2_alignment(a),
    ensures
        spec_eff_align(a as int) == pow2(e),
{
    vstd::arithmetic::power2::lemma2_to64();
    if a <= 1 {
        0
    } else {
        choose|e: nat| a == pow2(e)
    }
}

/// Between two 0-or-power-of-two alignments, the smaller effective
/// alignment divides the larger.
proof fn lemma_eff_pow2_divides(a: u64, b: u64)
    requires
        pow2_alignment(a),
        pow2_alignment(b),
        a <= b,
    ensures
        spec_eff_align(b as int) % spec_eff_align(a as int) == 0,
{
    let i = lemma_eff_pow2(a);
    let j = lemma_eff_pow2(b);
    let ea = spec_eff_align(a as int);
    let eb = spec_eff_align(b as int);
    assert(ea <= eb);
    if j < i {
        vstd::arithmetic::power2::lemma_pow2_strictly_increases(j, i);
    }
    vstd::arithmetic::power2::lemma_pow2_adds(i, (j - i) as nat);
    vstd::arithmetic::power2::lemma_pow2_pos(i);
    vstd::arithmetic::power2::lemma_pow2_pos((j - i) as nat);
    assert(eb == pow2((j - i) as nat) as int * ea) by (nonlinear_arith)
        requires eb == pow2(i) as int * pow2((j - i) as nat) as int, ea == pow2(i) as int;
    vstd::arithmetic::div_mod::lemma_mod_multiples_basic(pow2((j - i) as nat) as int, ea as int);
}

/// The largest chunk alignment is at least every chunk's.
proof fn lemma_max_align_chunks_ge(cs: Seq<ChunkV>, k: int)
    requires
        0 <= k < cs.len(),
    ensures
        max_align_chunks(cs) >= cs[k].alignment,
    decreases cs.len(),
{
    if k < cs.len() - 1 {
        lemma_max_align_chunks_ge(cs.drop_last(), k);
    }
}

/// The largest chunk alignment is 0 or a power of two when every chunk's is.
proof fn lemma_max_align_chunks_pow2(cs: Seq<ChunkV>)
    requires
        forall|k: int| 0 <= k < cs.len() ==> pow2_alignment((#[trigger] cs[k]).alignment),
    ensures
        pow2_alignment(max_align_chunks(cs)),
    decreases cs.len(),
{
    if cs.len() > 0 {
        lemma_max_align_chunks_pow2(cs.drop_last());
    }
}

/// The largest section alignment is at least every section's.
proof fn lemma_max_align_sections_ge(ss: Seq<SectionV>, j: int)
    requires
        0 <= j < ss.len(),
    ensures
        max_align_sections(ss) >= section_align(ss[j]),
    decreases ss.len(),
{
    if j < ss.len() - 1 {
        lemma_max_align_sections_ge(ss.drop_last(), j);
    }
}

/// The largest section alignment is 0 or a power of two when every
/// section's is.
proof fn lemma_max_align_sections_pow2(ss: Seq<SectionV>)
    requires
        forall|j: int| 0 <= j < ss.len() ==> pow2_alignment(section_align(#[trigger] ss[j])),
    ensures
        pow2_alignment(max_align_sections(ss)),
    decreases ss.len(),
{
    if ss.len() > 0 {
        lemma_max_align_sections_pow2(ss.drop_last());
    }
}

/// Laying chunks out from a base every chunk alignment divides just shifts
/// the whole layout by the base.
proof fn lemma_chunks_end_shift(cs: Seq<ChunkV>, b: int)
    requires
        b >= 0,
        forall|k: int|
            0 <= k < cs.len() ==> b % spec_eff_align((#[trigger] cs[k]).alignment as int) == 0,
    ensures
        chunks_end(cs, b) == b + chunks_end(cs, 0),
    decreases cs.len(),
{
    if cs.len() > 0 {
        assert forall|k: int|
            0 <= k < cs.drop_last().len() implies b % spec_eff_align(
            (#[trigger] cs.drop_last()[k]).alignment as int,
        ) == 0 by {
            assert(cs.drop_last()[k] == cs[k]);
        }
        lemma_chunks_end_shift(cs.drop_last(), b);
        crate::layout::lemma_chunks_end_bounds(cs.drop_last(), 0);
        let a = cs.last().alignment as int;
        let e0 = chunks_end(cs.drop_last(), 0);
        if a <= 1 {
        } else {
            lemma_align_up_shift(b, e0, a);
        }
    }
}

/// Laying sections out from a base every section alignment divides just
/// shifts the whole layout by the base.
proof fn lemma_sections_end_shift(ss: Seq<SectionV>, b: int)
    requires
        b >= 0,
        forall|j: int|
            0 <= j < ss.len() ==> b % spec_eff_align(
                section_align(#[trigger] ss[j]) as int,
            ) == 0,
    ensures
        sections_end(ss, b) == b + sections_end(ss, 0),
    decreases ss.len(),
{
    if ss.len() > 0 {
        assert forall|j: int|
            0 <= j < ss.drop_last().len() implies b % spec_eff_align(
            section_align(#[trigger] ss.drop_last()[j]) as int,
        ) == 0 by {
            assert(ss.drop_last()[j] == ss[j]);
        }
        lemma_sections_end_shift(ss.drop_last(), b);
        crate::layout::lemma_sections_end_bounds(ss.drop_last(), 0);
        let a = section_align(ss.last()) as int;
        let e0 = sections_end(ss.drop_last(), 0);
        if a <= 1 {
        } else {
            lemma_align_up_shift(b, e0, a);
        }
    }
}

/// Segment starts never move backward.
proof fn lemma_segment_start_mono(segs: Seq<SegmentV>, i1: int, i2: int, page: u64)
    requires
        0 <= i1 <= i2,
        forall|x: int| 0 <= x < i2 ==> segment_size(#[trigger] segs[x]) >= 0,
    ensures
        segment_start(segs, i1, page) <= segment_start(segs, i2, page),
        segment_start(segs, i2, page) >= 0,
    decreases i2 - i1,
{
    if i1 == i2 {
        lemma_segment_start_nonneg(segs, i1, page);
    } else {
        lemma_segment_start_mono(segs, i1, i2 - 1, page);
        crate::math::lemma_align_up_bounds(
            segment_start(segs, i2 - 1, page) + segment_size(segs[i2 - 1]),
            max_int(segment_align(segs[i2]) as int, page as int),
        );
    }
}

/// Segment starts are never negative.
proof fn lemma_segment_start_nonneg(segs: Seq<SegmentV>, i: int, page: u64)
    requires
        0 <= i,
        forall|x: int| 0 <= x < i ==> segment_size(#[trigger] segs[x]) >= 0,
    ensures
        segment_start(segs, i, page) >= 0,
    decreases i,
{
    if i > 0 {
        lemma_segment_start_nonneg(segs, i - 1, page);
        crate::math::lemma_align_up_bounds(
            segment_start(segs, i - 1, page) + segment_size(segs[i - 1]),
            max_int(segment_align(segs[i]) as int, page as int),
        );
    }
}

/// The start of every segment is a multiple of the effective alignment of
/// each of its chunks, given power-of-two alignments and page size.
proof fn lemma_segment_start_divides(segs: Seq<SegmentV>, page: u64, i: int, j: int, k: int)
    requires
        pow2_aligned_program(segs),
        exists|e: nat| page == pow2(e),
        idx_ok(segs, i, j, k),
        forall|x: int| 0 <= x < segs.len() ==> segment_size(#[trigger] segs[x]) >= 0,
    ensures
        segment_start(segs, i, page) % spec_eff_align(
            segs[i].sections[j].chunks[k].alignment as int,
        ) == 0,
        segment_start(segs, i, page) % spec_eff_align(section_align(segs[i].sections[j]) as int)
            == 0,
{
    let a = segs[i].sections[j].chunks[k].alignment;
    let sa = section_align(segs[i].sections[j]);
    let ga = segment_align(segs[i]);
    let m = max_int(ga as int, page as int);
    assert(pow2_alignment(a));
    assert forall|k2: int|
        0 <= k2 < segs[i].sections[j].chunks.len() implies pow2_alignment(
        (#[trigger] segs[i].sections[j].chunks[k2]).alignment,
    ) by {
        assert(idx_ok(segs, i, j, k2));
    }
    lemma_max_align_chunks_pow2(segs[i].sections[j].chunks);
    lemma_max_align_chunks_ge(segs[i].sections[j].chunks, k);
    assert forall|j2: int|
        0 <= j2 < segs[i].sections.len() implies pow2_alignment(
        section_align(#[trigger] segs[i].sections[j2]),
    ) by {
        assert forall|k2: int|
            0 <= k2 < segs[i].sections[j2].chunks.len() implies pow2_alignment(
            (#[trigger] segs[i].sections[j2].chunks[k2]).alignment,
        ) by {
            assert(idx_ok(segs, i, j2, k2));
        }
        lemma_max_align_chunks_pow2(segs[i].sections[j2].chunks);
    }
    lemma_max_align_sections_pow2(segs[i].sections);
    lemma_max_align_sections_ge(segs[i].sections, j);
    // a <= sa <= ga <= max(ga, page); all powers of two (or 0).
    let em = spec_eff_align(m);
    lemma_segment_start_nonneg(segs, i, page);
    let start = segment_start(segs, i, page);
    assert(pow2_alignment(m as u64)) by {
        if ga as int >= page as int {
        } else {
            assert(m == page as int);
        }
    }
    assert(start % em == 0) by {
        if i == 0 {
            vstd::arithmetic::div_mod::lemma_mod_self_0(em);
            vstd::arithmetic::div_mod::lemma_small_mod(0, em as nat);
        } else {
            lemma_segment_start_nonneg(segs, i - 1, page);
            crate::math::lemma_align_up_bounds(
                segment_start(segs, i - 1, page) + segment_size(segs[i - 1]),
                m,
            );
        }
    }
    lemma_eff_pow2_divides(a, m as u64);
    lemma_eff_pow2_divides(sa, m as u64);
    lemma_divides_trans_or_zero(start, em, spec_eff_align(a as int));
    lemma_divides_trans_or_zero(start, em, spec_eff_align(sa as int));
}

/// Like divides-transitivity, with the dividend possibly 0.
proof fn lemma_divides_trans_or_zero(x: int, m: int, d: int)
    requires
        m >= 1,
        d >= 1,
        x >= 0,
        x % m == 0,
        m % d == 0,
    ensures
        x % d == 0,
{
    lemma_divides_trans(x, m, d);
}

/// The start of every section is a multiple of the effective alignment of
/// each of its chunks, given power-of-two alignments.
proof fn lemma_section_start_divides(
    ss: Seq<SectionV>,
    j: int,
    k: int,
    base: int,
)
    requires
        0 <= j < ss.len(),
        0 <= k < ss[j].chunks.len(),
        base >= 0,
        forall|k2: int|
            0 <= k2 < ss[j].chunks.len() ==> pow2_alignment(
                (#[trigger] ss[j].chunks[k2]).alignment,
            ),
    ensures
        section_start_in(ss, j, base) % spec_eff_align(ss[j].chunks[k].alignment as int) == 0,
        section_start_in(ss, j, base) >= 0,
{
    crate::layout::lemma_sections_end_bounds(ss.take(j), base);
    crate::math::lemma_align_up_bounds(sections_end(ss.take(j), base), section_align(ss[j]) as int);
    lemma_max_align_chunks_pow2(ss[j].chunks);
    lemma_max_align_chunks_ge(ss[j].chunks, k);
    lemma_eff_pow2_divides(ss[j].chunks[k].alignment, section_align(ss[j]));
    lemma_divides_trans_or_zero(
        section_start_in(ss, j, base),
        spec_eff_align(section_align(ss[j]) as int),
        spec_eff_align(ss[j].chunks[k].alignment as int),
    );
}

/// The layout is monotonic program-wide: for any two chunks in program
/// order, the earlier one ends at or before the later one starts, provided
/// every chunk alignment is 0 or a power of two (the data model's
/// invariant) and the page size is a power of two. With mixed alignments
/// that do not divide one another — say chunks of alignments 4 and 3 in one
/// section — a section's span can exceed its size and the law fails.
pub proof fn lemma_program_monotonic(
    segs: Seq<SegmentV>,
    page: u64,
    i1: int,
    j1: int,
    k1: int,
    i2: int,
    j2: int,
    k2: int,
)
    requires
        pow2_aligned_program(segs),
        exists|e: nat| page == pow2(e),
        idx_ok(segs, i1, j1, k1),
        idx_ok(segs, i2, j2, k2),
        lex_before(i1, j1, k1, i2, j2, k2),
    ensures
        abs_chunk_start(segs, page, i1, j1, k1) + segs[i1].sections[j1].chunks[k1].orig_bytes.len()
            <= abs_chunk_start(segs, page, i2, j2, k2),
{
    assert forall|x: int| 0 <= x < segs.len() implies segment_size(#[trigger] segs[x]) >= 0 by {
        crate::layout::lemma_sections_end_bounds(segs[x].sections, 0);
    }
    let ss1 = segs[i1].sections;
    let cs1 = ss1[j1].chunks;
    let seg1 = segment_start(segs, i1, page);
    let s1 = section_start_in(ss1, j1, seg1);
    let start1 = abs_chunk_start(segs, page, i1, j1, k1);
    let end1 = start1 + cs1[k1].orig_bytes.len();
    lemma_segment_start_nonneg(segs, i1, page);
    assert forall|k: int| 0 <= k < cs1.len() implies pow2_alignment(
        (#[trigger] cs1[k]).alignment,
    ) by {
        assert(idx_ok(segs, i1, j1, k));
    }
    lemma_section_start_divides(ss1, j1, k1, seg1);

    // The first chunk's end stays within its section's span from s1, which
    // under divisibility is exactly s1 plus the section's size.
    assert(cs1.take(k1 + 1).drop_last() =~= cs1.take(k1));
    assert(cs1.take(k1 + 1).last() == cs1[k1]);
    assert(end1 == chunks_end(cs1.take(k1 + 1), s1));
    lemma_chunks_end_mono(cs1, k1 + 1, cs1.len() as int, s1);
    assert(cs1.take(cs1.len() as int) =~= cs1);
    assert forall|k: int| 0 <= k < cs1.len() implies s1 % spec_eff_align(
        (#[trigger] cs1[k]).alignment as int,
    ) == 0 by {
        lemma_section_start_divides(ss1, j1, k, seg1);
    }
    lemma_chunks_end_shift(cs1, s1);
    assert(end1 <= s1 + section_size(ss1[j1]));

    let ss2 = segs[i2].sections;
    let cs2 = ss2[j2].chunks;
    let seg2 = segment_start(segs, i2, page);
    let s2 = section_start_in(ss2, j2, seg2);
    let start2 = abs_chunk_start(segs, page, i2, j2, k2);
    lemma_segment_start_nonneg(segs, i2, page);
    crate::layout::lemma_sections_end_bounds(ss2.take(j2), seg2);
    crate::math::lemma_align_up_bounds(sections_end(ss2.take(j2), seg2), section_align(ss2[j2]) as int);
    crate::layout::lemma_chunks_end_bounds(cs2.take(k2), s2);
    crate::math::lemma_align_up_bounds(chunks_end(cs2.take(k2), s2), cs2[k2].alignment as int);
    assert(start2 >= s2);
    assert(s2 >= seg2);

    if i1 == i2 {
        if j1 == j2 {
            lemma_layout_monotonic(cs1, k1, k2, s1);
        } else {
            // end1 <= s1 + size(j1) <= start of section j2 <= start2.
            lemma_section_starts_monotonic(ss1, j1, j2, seg1);
        }
    } else {
        // end1 <= segment i1's content end == seg1 + its size
        //      <= the next segment's start <= seg2 <= start2.
        assert(s1 + section_size(ss1[j1]) == sections_end(ss1.take(j1 + 1), seg1)) by {
            assert(ss1.take(j1 + 1).drop_last() =~= ss1.take(j1));
            assert(ss1.take(j1 + 1).last() == ss1[j1]);
        }
        lemma_sections_end_mono(ss1, j1 + 1, ss1.len() as int, seg1);
        assert(ss1.take(ss1.len() as int) =~= ss1);
        assert forall|j: int| 0 <= j < ss1.len() implies seg1 % spec_eff_align(
            section_align(#[trigger] ss1[j]) as int,
        ) == 0 by {
            if ss1[j].chunks.len() == 0 {
                lemma_section_align_zero_chunks(ss1[j]);
                assert(spec_eff_align(section_align(ss1[j]) as int) == 1);
                assert(seg1 % 1int == 0);
            } else {
                lemma_segment_start_divides(segs, page, i1, j, 0);
            }
        }
        lemma_sections_end_shift(ss1, seg1);
        assert(end1 <= seg1 + segment_size(segs[i1]));
        crate::math::lemma_align_up_bounds(
            seg1 + segment_size(segs[i1]),
            max_int(segment_align(segs[i1 + 1]) as int, page as int),
        );
        assert(seg1 + segment_size(segs[i1]) <= segment_start(segs, i1 + 1, page));
        lemma_segment_start_mono(segs, i1 + 1, i2, page);
    }
}

/// A section with no chunks has alignment 0: its effective alignment is 1,
/// which divides everything.
proof fn lemma_section_align_zero_chunks(s: SectionV)
    requires
        s.chunks.len() == 0,
    ensures
        section_align(s) == 0,
{
}

/// The distance between any two chunk starts of the program is a multiple
/// of every common divisor of the two chunks' effective alignments, and
/// each start is a multiple of its own chunk's effective alignment.
pub proof fn lemma_program_gcd(
    segs: Seq<SegmentV>,
    page: u64,
    i1: int,
    j1: int,
    k1: int,
    i2: int,
    j2: int,
    k2: int,
    d: int,
)
    requires
        idx_ok(segs, i1, j1, k1),
        idx_ok(segs, i2, j2, k2),
        d >= 1,
        spec_eff_align(segs[i1].sections[j1].chunks[k1].alignment as int) % d == 0,
        spec_eff_align(segs[i2].sections[j2].chunks[k2].alignment as int) % d == 0,
    ensures
        (abs_chunk_start(segs, page, i2, j2, k2) - abs_chunk_start(segs, page, i1, j1, k1)) % d
            == 0,
{
    assert forall|x: int| 0 <= x < segs.len() implies segment_size(#[trigger] segs[x]) >= 0 by {
        crate::layout::lemma_sections_end_bounds(segs[x].sections, 0);
    }
    let s1 = abs_chunk_start(segs, page, i1, j1, k1);
    let s2 = abs_chunk_start(segs, page, i2, j2, k2);
    lemma_abs_start_own_multiple(segs, page, i1, j1, k1);
    lemma_abs_start_own_multiple(segs, page, i2, j2, k2);
    let m1 = spec_eff_align(segs[i1].sections[j1].chunks[k1].alignment as int);
    let m2 = spec_eff_align(segs[i2].sections[j2].chunks[k2].alignment as int);
    lemma_divides_trans(s1, m1, d);
    lemma_divides_trans(s2, m2, d);
    vstd::arithmetic::div_mod::lemma_fundamental_div_mod(s1, d);
    vstd::arithmetic::div_mod::lemma_fundamental_div_mod(s2, d);
    assert(s2 - s1 == (s2 / d - s1 / d) * d) by (nonlinear_arith)
        requires s1 == d * (s1 / d), s2 == d * (s2 / d);
    vstd::arithmetic::div_mod::lemma_mod_multiples_basic(s2 / d - s1 / d, d);
}

/// Every chunk start is a multiple of the chunk's own effective alignment.
proof fn lemma_abs_start_own_multiple(segs: Seq<SegmentV>, page: u64, i: int, j: int, k: int)
    requires
        idx_ok(segs, i, j, k),
        forall|x: int| 0 <= x < segs.len() ==> segment_size(#[trigger] segs[x]) >= 0,
    ensures
        abs_chunk_start(segs, page, i, j, k) % spec_eff_align(
            segs[i].sections[j].chunks[k].alignment as int,
        ) == 0,
        abs_chunk_start(segs, page, i, j, k) >= 0,
{
    let ss = segs[i].sections;
    let cs = ss[j].chunks;
    lemma_segment_start_nonneg(segs, i, page);
    let seg = segment_start(segs, i, page);
    crate::layout::lemma_sections_end_bounds(ss.take(j), seg);
    crate::math::lemma_align_up_bounds(sections_end(ss.take(j), seg), section_align(ss[j]) as int);
    let s = section_start_in(ss, j, seg);
    crate::layout::lemma_chunks_end_bounds(cs.take(k), s);
    crate::math::lemma_align_up_bounds(chunks_end(cs.take(k), s), cs[k].alignment as int);
}


// ---------------------------------------------------------------------------
// Whole-file size
// ---------------------------------------------------------------------------

/// What the writer emits for a run of sections takes exactly the span the
/// layout computes, provided every chunk alignment is 0 or a power of two:
/// the chunk bases are then aligned compatibly, so each section occupies
/// its size plus its alignment padding.
proof fn lemma_sections_out_len_exact(ss: Seq<SectionV>, pos: int)
    requires
        pos >= 0,
        forall|j: int, k: int|
            0 <= j < ss.len() && 0 <= k < (#[trigger] ss[j]).chunks.len() ==> pow2_alignment(
                (#[trigger] ss[j].chunks[k]).alignment,
            ),
    ensures
        crate::write_elf64::sections_out(ss, pos).len() == sections_end(ss, pos) - pos,
    decreases ss.len(),
{
    if ss.len() > 0 {
        assert forall|j: int, k: int|
            0 <= j < ss.drop_last().len() && 0 <= k
                < (#[trigger] ss.drop_last()[j]).chunks.len() implies pow2_alignment(
            (#[trigger] ss.drop_last()[j].chunks[k]).alignment,
        ) by {
            assert(ss.drop_last()[j] == ss[j]);
        }
        lemma_sections_out_len_exact(ss.drop_last(), pos);
        crate::layout::lemma_sections_end_bounds(ss.drop_last(), pos);
        let p2 = sections_end(ss.drop_last(), pos);
        let last = ss.last();
        let a = section_align(last) as int;
        crate::math::lemma_align_up_bounds(p2, a);
        let b = spec_align_up(p2, a);
        assert forall|k: int| 0 <= k < last.chunks.len() implies b % spec_eff_align(
            (#[trigger] last.chunks[k]).alignment as int,
        ) == 0 by {
            assert(ss[ss.len() - 1] == last);
            lemma_max_align_chunks_pow2(last.chunks);
            lemma_max_align_chunks_ge(last.chunks, k);
            lemma_eff_pow2_divides(last.chunks[k].alignment, section_align(last));
            lemma_divides_trans_or_zero(
                b,
                spec_eff_align(a),
                spec_eff_align(last.chunks[k].alignment as int),
            );
        }
        lemma_chunks_end_shift(last.chunks, b);
        lemma_chunks_out_len_exact(last.chunks, b);
        crate::layout::lemma_chunks_end_bounds(last.chunks, 0);
    }
}

/// Under the reconciliation conditions — power-of-two chunk alignments, a
/// power-of-two page size equal to the file alignment, and no segment
/// asking for more than page alignment — the writer's output for the first
/// `i` segments ends exactly at segment `i`'s file offset, and every file
/// offset is page-aligned.
proof fn lemma_segments_out_len_exact(segs: Seq<SegmentV>, config: Config, i: int)
    requires
        pow2_aligned_program(segs),
        exists|e: nat| config.page_size == pow2(e),
        config.segment_file_align == config.page_size,
        forall|x: int|
            0 <= x < segs.len() ==> segment_align(#[trigger] segs[x]) <= config.page_size,
        0 <= i <= segs.len(),
    ensures
        pos_first_content(config, segs.len() as int) + crate::write_elf64::segments_out(
            segs,
            config,
            pos_first_content(config, segs.len() as int),
            i,
        ).len() == file_offset_of(segs, config, i),
        file_offset_of(segs, config, i) % (config.page_size as int) == 0,
        file_offset_of(segs, config, i) >= 0,
    decreases i,
{
    let page = config.page_size as int;
    let n = segs.len() as int;
    let pf = pos_first_content(config, n);
    vstd::arithmetic::power2::lemma_pow2_pos(choose|e: nat| config.page_size == pow2(e));
    if i == 0 {
        crate::math::lemma_align_up_bounds(pos_after_headers(n), page);
        if page == 1 {
            assert(pf % 1int == 0);
        } else {
            assert(spec_eff_align(page) == page);
        }
    } else {
        lemma_segments_out_len_exact(segs, config, i - 1);
        let p = file_offset_of(segs, config, i - 1);
        let prefix = crate::write_elf64::segments_out(segs, config, pf, i - 1);
        let seg = segs[i - 1];
        assert forall|j: int, k: int|
            0 <= j < seg.sections.len() && 0 <= k
                < (#[trigger] seg.sections[j]).chunks.len() implies pow2_alignment(
            (#[trigger] seg.sections[j].chunks[k]).alignment,
        ) by {
            assert(idx_ok(segs, i - 1, j, k));
        }
        lemma_sections_out_len_exact(seg.sections, p);
        // The segment's content spans exactly its size: its start is
        // page-aligned and every section alignment divides the page.
        assert forall|j: int| 0 <= j < seg.sections.len() implies p % spec_eff_align(
            section_align(#[trigger] seg.sections[j]) as int,
        ) == 0 by {
            if seg.sections[j].chunks.len() == 0 {
                lemma_section_align_zero_chunks(seg.sections[j]);
                assert(p % 1int == 0);
            } else {
                lemma_max_align_chunks_pow2(seg.sections[j].chunks);
                lemma_max_align_sections_ge(seg.sections, j);
                lemma_eff_pow2_divides(section_align(seg.sections[j]), config.page_size);
                assert(segment_align(seg) <= config.page_size);
                assert(spec_eff_align(section_align(seg.sections[j]) as int) <= spec_eff_align(
                    page,
                )) by {
                    lemma_eff_pow2_divides(
                        section_align(seg.sections[j]),
                        config.page_size,
                    );
                    vstd::arithmetic::div_mod::lemma_mod_bound(
                        spec_eff_align(page),
                        spec_eff_align(section_align(seg.sections[j]) as int),
                    );
                }
                lemma_divides_trans_or_zero(
                    p,
                    spec_eff_align(page),
                    spec_eff_align(section_align(seg.sections[j]) as int),
                );
            }
        }
        lemma_sections_end_shift(seg.sections, p);
        let body = crate::write_elf64::sections_out(seg.sections, p);
        assert(body.len() == segment_size(seg));
        // The trailing padding aligns to the page, since the segment's own
        // alignment is at most the page size.
        let m = max_int(segment_align(seg) as int, page);
        assert(m == page);
        crate::layout::lemma_sections_end_bounds(seg.sections, 0);
        lemma_align_up_shift(p, segment_size(seg), page);
        crate::math::lemma_align_up_bounds(segment_size(seg), page);
        // The next file offset stays a multiple of the page: both summands
        // are.
        let inc = spec_align_up(segment_size(seg), page);
        assert(inc % page == 0) by {
            if page == 1 {
                assert(inc % 1int == 0);
            } else {
                assert(spec_eff_align(page) == page);
            }
        }
        assert((p + inc) % page == 0) by {
            vstd::arithmetic::div_mod::lemma_fundamental_div_mod(p, page);
            vstd::arithmetic::div_mod::lemma_fundamental_div_mod(inc, page);
            assert(p + inc == (p / page + inc / page) * page) by (nonlinear_arith)
                requires p == page * (p / page), inc == page * (inc / page);
            vstd::arithmetic::div_mod::lemma_mod_multiples_basic(p / page + inc / page, page);
        }
    }
}

/// The emitted image is exactly as long as the file offset past the last
/// segment: the header and program headers, the padding up to the first
/// content offset, and per segment its size rounded up to the file
/// alignment — under the same conditions as `lemma_file_offsets_match`,
/// with power-of-two chunk alignments.
pub proof fn lemma_image_total_len(segs: Seq<SegmentV>, config: Config)
    requires
        pow2_aligned_program(segs),
        exists|e: nat| config.page_size == pow2(e),
        config.segment_file_align == config.page_size,
        forall|x: int|
            0 <= x < segs.len() ==> segment_align(#[trigger] segs[x]) <= config.page_size,
    ensures
        spec_image(segs, config).len() == file_offset_of(segs, config, segs.len() as int),
{
    let n = segs.len() as int;
    lemma_auto_spec_u16_to_from_le_bytes();
    lemma_auto_spec_u32_to_from_le_bytes();
    lemma_auto_spec_u64_to_from_le_bytes();
    lemma_phdrs_len(segs, config, n);
    vstd::arithmetic::power2::lemma_pow2_pos(choose|e: nat| config.page_size == pow2(e));
    crate::math::lemma_align_up_bounds(pos_after_headers(n), config.page_size as int);
    lemma_segments_out_len_exact(segs, config, n);
    assert(spec_file_header(config.base_addr, n as u16).len() == 64);
}


// ---------------------------------------------------------------------------
// Per-chunk lockstep of file offsets and addresses
// ---------------------------------------------------------------------------

/// The file position of the first content byte of chunk `(i, j, k)`: the
/// segment's file offset plus everything the writer emits before that
/// chunk within the segment — earlier sections, the section's alignment
/// padding, earlier chunks, and the chunk's own alignment padding.
pub open spec fn chunk_file_pos(segs: Seq<SegmentV>, config: Config, i: int, j: int, k: int) -> int {
    let p = file_offset_of(segs, config, i);
    let ss = segs[i].sections;
    let sec_base = p + crate::write_elf64::sections_out(ss.take(j), p).len();
    let b = spec_align_up(sec_base, section_align(ss[j]) as int);
    spec_align_up(b + chunks_out(ss[j].chunks.take(k), b).len(), ss[j].chunks[k].alignment as int)
}

/// Laying a section's chunks out from a page-multiple base just shifts the
/// section start and every chunk start by the base.
proof fn lemma_abs_chunk_start_shift(
    ss: Seq<SectionV>,
    j: int,
    k: int,
    base: int,
    page: u64,
)
    requires
        0 <= j < ss.len(),
        0 <= k < ss[j].chunks.len(),
        base >= 0,
        exists|e: nat| page == pow2(e),
        base % (page as int) == 0,
        forall|j2: int, k2: int|
            0 <= j2 < ss.len() && 0 <= k2 < (#[trigger] ss[j2]).chunks.len() ==> pow2_alignment(
                (#[trigger] ss[j2].chunks[k2]).alignment,
            ),
        forall|j2: int|
            0 <= j2 < ss.len() ==> section_align(#[trigger] ss[j2]) <= page,
    ensures
        chunk_start_in(ss[j].chunks, k, section_start_in(ss, j, base)) == base + chunk_start_in(
            ss[j].chunks,
            k,
            section_start_in(ss, j, 0),
        ),
{
    vstd::arithmetic::power2::lemma_pow2_pos(choose|e: nat| page == pow2(e));
    // The base is a multiple of every effective alignment in sight.
    assert forall|j2: int| 0 <= j2 < ss.len() implies base % spec_eff_align(
        section_align(#[trigger] ss[j2]) as int,
    ) == 0 by {
        lemma_base_divides(ss, j2, base, page);
    }
    let cs = ss[j].chunks;
    assert forall|k2: int| 0 <= k2 < cs.len() implies base % spec_eff_align(
        (#[trigger] cs[k2]).alignment as int,
    ) == 0 by {
        lemma_max_align_chunks_pow2(cs);
        lemma_max_align_chunks_ge(cs, k2);
        lemma_base_divides(ss, j, base, page);
        lemma_eff_pow2_divides(cs[k2].alignment, section_align(ss[j]));
        lemma_divides_trans_or_zero(
            base,
            spec_eff_align(section_align(ss[j]) as int),
            spec_eff_align(cs[k2].alignment as int),
        );
    }
    // Section start shifts with the base.
    assert forall|j2: int| 0 <= j2 < ss.take(j).len() implies base % spec_eff_align(
        section_align(#[trigger] ss.take(j)[j2]) as int,
    ) == 0 by {
        assert(ss.take(j)[j2] == ss[j2]);
        lemma_base_divides(ss, j2, base, page);
    }
    lemma_sections_end_shift(ss.take(j), base);
    crate::layout::lemma_sections_end_bounds(ss.take(j), 0);
    let e0 = sections_end(ss.take(j), 0);
    let a = section_align(ss[j]) as int;
    if a > 1 {
        lemma_align_up_shift(base, e0, a);
    }
    let s0 = section_start_in(ss, j, 0);
    assert(section_start_in(ss, j, base) == base + s0);
    // Chunk start shifts with the base.
    crate::math::lemma_align_up_bounds(e0, a);
    assert forall|k2: int| 0 <= k2 < cs.take(k).len() implies base % spec_eff_align(
        (#[trigger] cs.take(k)[k2]).alignment as int,
    ) == 0 by {
        assert(cs.take(k)[k2] == cs[k2]);
    }
    lemma_chunks_end_shift_from(cs.take(k), s0, base);
    crate::layout::lemma_chunks_end_bounds(cs.take(k), s0);
    let ce = chunks_end(cs.take(k), s0);
    let ca = cs[k].alignment as int;
    if ca > 1 {
        lemma_align_up_shift(base, ce, ca);
    }
}

proof fn lemma_page_pos(page: u64)
    requires
        exists|e: nat| page == pow2(e),
    ensures
        page >= 1,
{
    vstd::arithmetic::power2::lemma_pow2_pos(choose|e: nat| page == pow2(e));
}

/// A page-multiple base is a multiple of every effective section alignment
/// of a power-of-two-aligned section list whose alignments stay at or
/// below the page.
proof fn lemma_base_divides(ss: Seq<SectionV>, j: int, base: int, page: u64)
    requires
        0 <= j < ss.len(),
        base >= 0,
        exists|e: nat| page == pow2(e),
        base % (page as int) == 0,
        forall|k2: int|
            0 <= k2 < ss[j].chunks.len() ==> pow2_alignment(
                (#[trigger] ss[j].chunks[k2]).alignment,
            ),
        section_align(ss[j]) <= page,
    ensures
        base % spec_eff_align(section_align(ss[j]) as int) == 0,
{
    vstd::arithmetic::power2::lemma_pow2_pos(choose|e: nat| page == pow2(e));
    if ss[j].chunks.len() == 0 {
        lemma_section_align_zero_chunks(ss[j]);
        assert(base % 1int == 0);
    } else {
        lemma_max_align_chunks_pow2(ss[j].chunks);
        lemma_eff_pow2_divides(section_align(ss[j]), page);
        if page == 1 {
            assert(base % 1int == 0);
            assert(spec_eff_align(section_align(ss[j]) as int) == 1) by {
                vstd::arithmetic::div_mod::lemma_mod_bound(
                    1,
                    spec_eff_align(section_align(ss[j]) as int),
                );
            }
        } else {
            lemma_divides_trans_or_zero(
                base,
                page as int,
                spec_eff_align(section_align(ss[j]) as int),
            );
        }
    }
}

/// Laying chunks out from a shifted cursor shifts the layout, when the
/// shift is a multiple of every chunk alignment.
proof fn lemma_chunks_end_shift_from(cs: Seq<ChunkV>, b: int, c: int)
    requires
        b >= 0,
        c >= 0,
        forall|k: int|
            0 <= k < cs.len() ==> c % spec_eff_align((#[trigger] cs[k]).alignment as int) == 0,
    ensures
        chunks_end(cs, c + b) == c + chunks_end(cs, b),
    decreases cs.len(),
{
    if cs.len() > 0 {
        assert forall|k: int|
            0 <= k < cs.drop_last().len() implies c % spec_eff_align(
            (#[trigger] cs.drop_last()[k]).alignment as int,
        ) == 0 by {
            assert(cs.drop_last()[k] == cs[k]);
        }
        lemma_chunks_end_shift_from(cs.drop_last(), b, c);
        crate::layout::lemma_chunks_end_bounds(cs.drop_last(), b);
        let a = cs.last().alignment as int;
        if a > 1 {
            lemma_align_up_shift(c, chunks_end(cs.drop_last(), b), a);
        }
    }
}

/// File offsets and virtual addresses move in lockstep within a segment:
/// for every chunk, the distance from its first content byte to its
/// segment's file offset equals the distance from its address to its
/// segment's start — under the same reconciliation conditions as
/// `lemma_file_offsets_match`, with power-of-two chunk alignments.
pub proof fn lemma_chunk_lockstep(
    segs: Seq<SegmentV>,
    config: Config,
    i: int,
    j: int,
    k: int,
)
    requires
        pow2_aligned_program(segs),
        exists|e: nat| config.page_size == pow2(e),
        config.segment_file_align == config.page_size,
        forall|x: int|
            0 <= x < segs.len() ==> segment_align(#[trigger] segs[x]) <= config.page_size,
        idx_ok(segs, i, j, k),
    ensures
        chunk_file_pos(segs, config, i, j, k) - file_offset_of(segs, config, i)
            == abs_chunk_start(segs, config.page_size, i, j, k) - segment_start(
            segs,
            i,
            config.page_size,
        ),
{
    let page = config.page_size;
    let ss = segs[i].sections;
    let cs = ss[j].chunks;
    let p = file_offset_of(segs, config, i);
    let seg = segment_start(segs, i, page);
    assert forall|x: int| 0 <= x < segs.len() implies segment_size(#[trigger] segs[x]) >= 0 by {
        crate::layout::lemma_sections_end_bounds(segs[x].sections, 0);
    }
    assert forall|j2: int, k2: int|
        0 <= j2 < ss.len() && 0 <= k2 < (#[trigger] ss[j2]).chunks.len() implies pow2_alignment(
        (#[trigger] ss[j2].chunks[k2]).alignment,
    ) by {
        assert(idx_ok(segs, i, j2, k2));
    }
    assert forall|j2: int| 0 <= j2 < ss.len() implies section_align(#[trigger] ss[j2])
        <= page by {
        lemma_max_align_sections_ge(ss, j2);
    }
    // The writer's cursor at this chunk is the same layout formula, taken
    // from the segment's file offset instead of its address.
    lemma_segments_out_len_exact(segs, config, i);
    assert forall|j2: int, k2: int|
        0 <= j2 < ss.take(j).len() && 0 <= k2
            < (#[trigger] ss.take(j)[j2]).chunks.len() implies pow2_alignment(
        (#[trigger] ss.take(j)[j2].chunks[k2]).alignment,
    ) by {
        assert(ss.take(j)[j2] == ss[j2]);
    }
    lemma_sections_out_len_exact(ss.take(j), p);
    crate::layout::lemma_sections_end_bounds(ss.take(j), p);
    crate::math::lemma_align_up_bounds(sections_end(ss.take(j), p), section_align(ss[j]) as int);
    let b = section_start_in(ss, j, p);
    assert(chunk_file_pos(segs, config, i, j, k) == spec_align_up(
        b + chunks_out(cs.take(k), b).len(),
        cs[k].alignment as int,
    ));
    lemma_chunks_out_len_exact(cs.take(k), b);
    assert(chunk_file_pos(segs, config, i, j, k) == chunk_start_in(cs, k, b));
    // Both walks shift with their page-multiple bases.
    lemma_page_pos(page);
    lemma_file_offsets_match(segs, config, i);
    lemma_segment_start_nonneg(segs, i, page);
    lemma_abs_chunk_start_shift(ss, j, k, p, page);
    lemma_abs_chunk_start_shift(ss, j, k, seg, page);
}


} // verus!
