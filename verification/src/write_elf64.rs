//! The ELF64 image writer.
//!
//! The output is, in order: the 64-byte file header; one 56-byte `PT_LOAD`
//! program header per segment; zero padding up to the first content
//! offset; and the segment contents, each section and chunk preceded by
//! zero padding up to its alignment and each segment followed by zero
//! padding up to the larger of its alignment and the page size. All
//! multi-byte fields are little-endian.
//!
//! The program headers advance the virtual address page-aligned between
//! segments, while the address layout aligns each segment start up to the
//! larger of the segment's alignment and the page size. The two walks
//! agree — and the file offsets written here match the addresses used for
//! relocation — exactly when no segment asks for more than page alignment
//! and the file alignment is the page size, which the fixed configuration
//! gives; `lemma_file_offsets_match` states that reconciliation.

use vstd::prelude::*;

use crate::config::Config;
use crate::elf::{EM_X86_64, ET_EXEC, PT_LOAD};
use crate::layout::{
    fits, lemma_sections_end_bounds, lemma_w_chunks_nonneg, lemma_w_chunks_prefix,
    lemma_w_sections_nonneg, lemma_w_sections_prefix, lemma_w_segments_nonneg,
    lemma_w_segments_prefix, max_int, section_align, segment_align, segment_perms, segment_size,
    w_chunks, w_sections, w_segments,
};
use crate::math::{align_up, spec_align_up, spec_eff_align};
use crate::section::{finalized, ChunkV, LinkedProgram, SectionV, SegmentV};
use vstd::bytes::{spec_u16_to_le_bytes, spec_u32_to_le_bytes, spec_u64_to_le_bytes};

verus! {

/// `n` zero bytes.
pub open spec fn zeros(n: int) -> Seq<u8> {
    Seq::new(n as nat, |i: int| 0u8)
}

/// The 64 bytes of the ELF64 file header: the magic, 64-bit little-endian
/// identification, type `ET_EXEC`, machine x86-64, the entry point, the
/// program header table directly after this header, and no section header
/// table.
pub open spec fn spec_file_header(entry: u64, phnum: u16) -> Seq<u8> {
    seq![0x7fu8, 0x45u8, 0x4cu8, 0x46u8, 2u8, 1u8, 1u8, 0u8]
        + seq![0u8, 0u8, 0u8, 0u8, 0u8, 0u8, 0u8, 0u8] + spec_u16_to_le_bytes(ET_EXEC as u16)
        + spec_u16_to_le_bytes(EM_X86_64 as u16) + spec_u32_to_le_bytes(1u32)
        + spec_u64_to_le_bytes(entry) + spec_u64_to_le_bytes(0x40u64) + spec_u64_to_le_bytes(0u64)
        + spec_u32_to_le_bytes(0u32) + spec_u16_to_le_bytes(0x40u16) + spec_u16_to_le_bytes(
        0x38u16,
    ) + spec_u16_to_le_bytes(phnum) + spec_u16_to_le_bytes(0u16) + spec_u16_to_le_bytes(0u16)
        + spec_u16_to_le_bytes(0u16)
}

/// The 56 bytes of one program header.
pub open spec fn spec_program_header(
    type_: u32,
    flags: u32,
    offset: u64,
    v_addr: u64,
    p_addr: u64,
    filesz: u64,
    memsz: u64,
    align: u64,
) -> Seq<u8> {
    spec_u32_to_le_bytes(type_) + spec_u32_to_le_bytes(flags) + spec_u64_to_le_bytes(offset)
        + spec_u64_to_le_bytes(v_addr) + spec_u64_to_le_bytes(p_addr) + spec_u64_to_le_bytes(
        filesz,
    ) + spec_u64_to_le_bytes(memsz) + spec_u64_to_le_bytes(align)
}

/// The file position just after the program header table.
pub open spec fn pos_after_headers(n: int) -> int {
    0x40 + n * 0x38
}

/// The file position of the first segment's contents.
pub open spec fn pos_first_content(config: Config, n: int) -> int {
    spec_align_up(pos_after_headers(n), config.segment_file_align as int)
}

/// The file offset of segment `i`: the first content position plus the
/// file-aligned sizes of all earlier segments.
pub open spec fn file_offset_of(segs: Seq<SegmentV>, config: Config, i: int) -> int
    decreases i,
{
    if i <= 0 {
        pos_first_content(config, segs.len() as int)
    } else {
        file_offset_of(segs, config, i - 1) + spec_align_up(
            segment_size(segs[i - 1]),
            config.segment_file_align as int,
        )
    }
}

/// The base-relative virtual address of segment `i` as the program headers
/// state it: the running address aligned up to the page size between
/// segments.
pub open spec fn vaddr_of(segs: Seq<SegmentV>, config: Config, i: int) -> int
    decreases i,
{
    if i <= 0 {
        0
    } else {
        spec_align_up(
            vaddr_of(segs, config, i - 1) + segment_size(segs[i - 1]),
            config.page_size as int,
        )
    }
}

/// The flag word of a segment: `(read << 2) | (write << 1) | execute`.
pub open spec fn spec_phdr_flags(seg: SegmentV) -> u32 {
    (if segment_perms(seg).read {
        4u32
    } else {
        0u32
    }) as u32 | (if segment_perms(seg).write {
        2u32
    } else {
        0u32
    }) | (if segment_perms(seg).execute {
        1u32
    } else {
        0u32
    })
}

/// The file-aligned size of a segment: both its file size and its memory
/// size, since BSS is out of scope.
pub open spec fn spec_phdr_size(seg: SegmentV, config: Config) -> int {
    spec_align_up(segment_size(seg), config.segment_file_align as int)
}

/// The program header bytes of the first `i` segments.
pub open spec fn spec_phdrs(segs: Seq<SegmentV>, config: Config, i: int) -> Seq<u8>
    decreases i,
{
    if i <= 0 {
        Seq::empty()
    } else {
        spec_phdrs(segs, config, i - 1) + spec_program_header(
            PT_LOAD,
            spec_phdr_flags(segs[i - 1]),
            file_offset_of(segs, config, i - 1) as u64,
            (config.base_addr + vaddr_of(segs, config, i - 1)) as u64,
            (config.base_addr + vaddr_of(segs, config, i - 1)) as u64,
            spec_phdr_size(segs[i - 1], config) as u64,
            spec_phdr_size(segs[i - 1], config) as u64,
            config.page_size,
        )
    }
}

/// One chunk's output at file position `pos`: zero padding up to the
/// chunk's alignment, then its finalized bytes.
pub open spec fn chunk_out(c: ChunkV, pos: int) -> Seq<u8> {
    zeros(spec_align_up(pos, c.alignment as int) - pos) + finalized(c)
}

/// The output of the chunks of `cs` starting at file position `pos`.
pub open spec fn chunks_out(cs: Seq<ChunkV>, pos: int) -> Seq<u8>
    decreases cs.len(),
{
    if cs.len() == 0 {
        Seq::empty()
    } else {
        let prefix = chunks_out(cs.drop_last(), pos);
        prefix + chunk_out(cs.last(), pos + prefix.len())
    }
}

/// One section's output at file position `pos`: zero padding up to the
/// section's alignment, then its chunks.
pub open spec fn section_out(s: SectionV, pos: int) -> Seq<u8> {
    let pad = spec_align_up(pos, section_align(s) as int) - pos;
    zeros(pad) + chunks_out(s.chunks, pos + pad)
}

/// The output of the sections of `ss` starting at file position `pos`.
pub open spec fn sections_out(ss: Seq<SectionV>, pos: int) -> Seq<u8>
    decreases ss.len(),
{
    if ss.len() == 0 {
        Seq::empty()
    } else {
        let prefix = sections_out(ss.drop_last(), pos);
        prefix + section_out(ss.last(), pos + prefix.len())
    }
}

/// One segment's output at file position `pos`: its sections, then zero
/// padding up to the larger of the segment's alignment and the page size.
pub open spec fn segment_out(seg: SegmentV, config: Config, pos: int) -> Seq<u8> {
    let body = sections_out(seg.sections, pos);
    let end = pos + body.len();
    let a = max_int(segment_align(seg) as int, config.page_size as int);
    body + zeros(spec_align_up(end, a) - end)
}

/// The output of the first `i` segments starting at file position `pos`.
pub open spec fn segments_out(segs: Seq<SegmentV>, config: Config, pos: int, i: int) -> Seq<u8>
    decreases i,
{
    if i <= 0 {
        Seq::empty()
    } else {
        let prefix = segments_out(segs, config, pos, i - 1);
        prefix + segment_out(segs[i - 1], config, pos + prefix.len())
    }
}

/// The whole output image.
pub open spec fn spec_image(segs: Seq<SegmentV>, config: Config) -> Seq<u8> {
    let n = segs.len() as int;
    spec_file_header(config.base_addr, n as u16) + spec_phdrs(segs, config, n) + zeros(
        pos_first_content(config, n) - pos_after_headers(n),
    ) + segments_out(segs, config, pos_first_content(config, n), n)
}

// ---------------------------------------------------------------------------
// Length bounds of the content spec functions
// ---------------------------------------------------------------------------

pub proof fn lemma_chunks_out_len(cs: Seq<ChunkV>, pos: int)
    requires
        pos >= 0,
    ensures
        0 <= chunks_out(cs, pos).len() <= w_chunks(cs),
    decreases cs.len(),
{
    if cs.len() > 0 {
        lemma_chunks_out_len(cs.drop_last(), pos);
        crate::math::lemma_align_up_bounds(
            pos + chunks_out(cs.drop_last(), pos).len(),
            cs.last().alignment as int,
        );
    }
}

pub proof fn lemma_sections_out_len(ss: Seq<SectionV>, pos: int)
    requires
        pos >= 0,
    ensures
        0 <= sections_out(ss, pos).len() <= w_sections(ss),
    decreases ss.len(),
{
    if ss.len() > 0 {
        lemma_sections_out_len(ss.drop_last(), pos);
        let p2 = pos + sections_out(ss.drop_last(), pos).len();
        crate::math::lemma_align_up_bounds(p2, section_align(ss.last()) as int);
        let pad = spec_align_up(p2, section_align(ss.last()) as int) - p2;
        lemma_chunks_out_len(ss.last().chunks, p2 + pad);
    }
}

pub proof fn lemma_segments_out_len(
    segs: Seq<SegmentV>,
    config: Config,
    pos: int,
    i: int,
    extra: int,
)
    requires
        pos >= 0,
        extra >= 0,
        0 <= i <= segs.len(),
    ensures
        0 <= segments_out(segs, config, pos, i).len() <= w_segments(
            segs.take(i),
            config.page_size,
            extra,
        ),
    decreases i,
{
    if i > 0 {
        lemma_segments_out_len(segs, config, pos, i - 1, extra);
        let prefix = segments_out(segs, config, pos, i - 1);
        let p2 = pos + prefix.len();
        lemma_sections_out_len(segs[i - 1].sections, p2);
        let body = sections_out(segs[i - 1].sections, p2);
        crate::math::lemma_align_up_bounds(
            p2 + body.len(),
            max_int(segment_align(segs[i - 1]) as int, config.page_size as int),
        );
        assert(segs.take(i).drop_last() =~= segs.take(i - 1));
        assert(segs.take(i).last() == segs[i - 1]);
    }
}

// ---------------------------------------------------------------------------
// Writing
// ---------------------------------------------------------------------------

/// Append `n` zero bytes.
fn push_zeros(target: &mut Vec<u8>, n: u64)
    ensures
        final(target)@ == old(target)@ + zeros(n as int),
{
    let ghost base = old(target)@;
    let mut x: u64 = 0;
    while x < n
        invariant
            x <= n,
            target@ == base + zeros(x as int),
        decreases n - x,
    {
        target.push(0);
        x += 1;
        proof {
            assert(target@ =~= base + zeros(x as int));
        }
    }
    proof {
        assert(target@ =~= base + zeros(n as int));
    }
}

/// Write the ELF64 file header.
pub fn write_file_header(target: &mut Vec<u8>, entry_point: u64, program_header_count: u16)
    ensures
        final(target)@ == old(target)@ + spec_file_header(entry_point, program_header_count),
{
    let ghost base = old(target)@;
    // Magic number; 64-bit format; little-endian; ELF version 1; System V
    // ABI; reserved padding.
    target.push(0x7f);
    target.push(0x45);
    target.push(0x4c);
    target.push(0x46);
    target.push(2);
    target.push(1);
    target.push(1);
    target.push(0);
    let mut x: usize = 0;
    while x < 8
        invariant
            x <= 8,
            target@ == base + seq![0x7fu8, 0x45u8, 0x4cu8, 0x46u8, 2u8, 1u8, 1u8, 0u8] + zeros(
                x as int,
            ),
        decreases 8 - x,
    {
        target.push(0);
        x += 1;
        proof {
            assert(target@ =~= base + seq![0x7fu8, 0x45u8, 0x4cu8, 0x46u8, 2u8, 1u8, 1u8, 0u8]
                + zeros(x as int));
        }
    }
    // File type: executable. Machine: x86-64. Version 1.
    let mut b = vstd::bytes::u16_to_le_bytes(ET_EXEC);
    target.append(&mut b);
    let mut b = vstd::bytes::u16_to_le_bytes(EM_X86_64);
    target.append(&mut b);
    let mut b = vstd::bytes::u32_to_le_bytes(1);
    target.append(&mut b);
    // Entry point; program header table offset; no section header table.
    let mut b = vstd::bytes::u64_to_le_bytes(entry_point);
    target.append(&mut b);
    let mut b = vstd::bytes::u64_to_le_bytes(0x40);
    target.append(&mut b);
    let mut b = vstd::bytes::u64_to_le_bytes(0);
    target.append(&mut b);
    // Flags; header size; program header entry size and count; no section
    // headers and no section name table.
    let mut b = vstd::bytes::u32_to_le_bytes(0);
    target.append(&mut b);
    let mut b = vstd::bytes::u16_to_le_bytes(0x40);
    target.append(&mut b);
    let mut b = vstd::bytes::u16_to_le_bytes(0x38);
    target.append(&mut b);
    let mut b = vstd::bytes::u16_to_le_bytes(program_header_count);
    target.append(&mut b);
    let mut b = vstd::bytes::u16_to_le_bytes(0);
    target.append(&mut b);
    let mut b = vstd::bytes::u16_to_le_bytes(0);
    target.append(&mut b);
    let mut b = vstd::bytes::u16_to_le_bytes(0);
    target.append(&mut b);
    proof {
        assert(zeros(8) =~= seq![0u8, 0u8, 0u8, 0u8, 0u8, 0u8, 0u8, 0u8]);
        assert(target@ =~= base + spec_file_header(entry_point, program_header_count));
    }
}

/// Write one program header.
pub fn write_program_header(
    target: &mut Vec<u8>,
    type_: u32,
    flags: u32,
    offset: u64,
    v_addr: u64,
    p_addr: u64,
    filesz: u64,
    memsz: u64,
    align: u64,
)
    ensures
        final(target)@ == old(target)@ + spec_program_header(
            type_,
            flags,
            offset,
            v_addr,
            p_addr,
            filesz,
            memsz,
            align,
        ),
{
    let ghost base = old(target)@;
    let mut b = vstd::bytes::u32_to_le_bytes(type_);
    target.append(&mut b);
    let mut b = vstd::bytes::u32_to_le_bytes(flags);
    target.append(&mut b);
    let mut b = vstd::bytes::u64_to_le_bytes(offset);
    target.append(&mut b);
    let mut b = vstd::bytes::u64_to_le_bytes(v_addr);
    target.append(&mut b);
    let mut b = vstd::bytes::u64_to_le_bytes(p_addr);
    target.append(&mut b);
    let mut b = vstd::bytes::u64_to_le_bytes(filesz);
    target.append(&mut b);
    let mut b = vstd::bytes::u64_to_le_bytes(memsz);
    target.append(&mut b);
    let mut b = vstd::bytes::u64_to_le_bytes(align);
    target.append(&mut b);
    proof {
        assert(target@ =~= base + spec_program_header(
            type_,
            flags,
            offset,
            v_addr,
            p_addr,
            filesz,
            memsz,
            align,
        ));
    }
}

/// The segment weight covers at least the per-segment surcharge.
pub proof fn lemma_w_segments_lower(segs: Seq<SegmentV>, page: u64, extra: int)
    requires
        extra >= 0,
    ensures
        w_segments(segs, page, extra) >= segs.len() * extra,
    decreases segs.len(),
{
    if segs.len() > 0 {
        lemma_w_segments_lower(segs.drop_last(), page, extra);
        lemma_w_sections_nonneg(segs.last().sections);
        assert(segs.len() * extra == (segs.len() - 1) * extra + extra) by (nonlinear_arith);
    }
}

/// Every program header file offset stays within the weights of the
/// segments seen so far.
pub proof fn lemma_file_offset_bounds(segs: Seq<SegmentV>, config: Config, i: int, extra: int)
    requires
        0 <= i <= segs.len(),
        extra == 0x38 + spec_eff_align(config.segment_file_align as int),
    ensures
        pos_first_content(config, segs.len() as int) <= file_offset_of(segs, config, i),
        file_offset_of(segs, config, i) <= pos_first_content(config, segs.len() as int)
            + w_segments(segs.take(i), config.page_size, extra),
    decreases i,
{
    if i == 0 {
        lemma_w_segments_nonneg(segs.take(0), config.page_size, extra);
    } else {
        lemma_file_offset_bounds(segs, config, i - 1, extra);
        lemma_sections_end_bounds(segs[i - 1].sections, 0);
        crate::math::lemma_align_up_bounds(
            segment_size(segs[i - 1]),
            config.segment_file_align as int,
        );
        assert(segs.take(i).drop_last() =~= segs.take(i - 1));
        assert(segs.take(i).last() == segs[i - 1]);
    }
}

/// Every program header virtual address stays within the weights of the
/// segments seen so far.
pub proof fn lemma_vaddr_bounds(segs: Seq<SegmentV>, config: Config, i: int, extra: int)
    requires
        0 <= i <= segs.len(),
        extra >= 0,
    ensures
        0 <= vaddr_of(segs, config, i),
        vaddr_of(segs, config, i) <= w_segments(segs.take(i), config.page_size, extra),
    decreases i,
{
    if i == 0 {
        lemma_w_segments_nonneg(segs.take(0), config.page_size, extra);
    } else {
        lemma_vaddr_bounds(segs, config, i - 1, extra);
        lemma_sections_end_bounds(segs[i - 1].sections, 0);
        crate::math::lemma_align_up_bounds(
            vaddr_of(segs, config, i - 1) + segment_size(segs[i - 1]),
            config.page_size as int,
        );
        assert(segs.take(i).drop_last() =~= segs.take(i - 1));
        assert(segs.take(i).last() == segs[i - 1]);
        assert(spec_eff_align(config.page_size as int) <= spec_eff_align(
            max_int(segment_align(segs[i - 1]) as int, config.page_size as int),
        ));
    }
}

/// Under the fit bound, the file cursor and one more segment's room stay
/// in range.
proof fn lemma_write_room(segs: Seq<SegmentV>, config: Config, i: int)
    requires
        fits(segs, config),
        0 <= i <= segs.len(),
    ensures
        0 <= pos_first_content(config, segs.len() as int),
        pos_first_content(config, segs.len() as int) + segments_out(
            segs,
            config,
            pos_first_content(config, segs.len() as int),
            i,
        ).len() + w_segments(segs, config.page_size, 0x38 + spec_eff_align(
            config.segment_file_align as int,
        )) <= u64::MAX,
{
    let n = segs.len() as int;
    let extra = 0x38 + spec_eff_align(config.segment_file_align as int);
    let w = w_segments(segs, config.page_size, extra);
    lemma_w_segments_lower(segs, config.page_size, extra);
    lemma_w_segments_nonneg(segs, config.page_size, extra);
    assert(n * 0x38 <= n * extra) by (nonlinear_arith)
        requires 0x38 <= extra, n >= 0;
    crate::math::lemma_align_up_bounds(pos_after_headers(n), config.segment_file_align as int);
    lemma_segments_out_len(segs, config, pos_first_content(config, n), i, extra);
    lemma_w_segments_prefix(segs, config.page_size, extra, i);
}

/// Write one program header per segment.
#[verifier::loop_isolation(false)]
#[verifier::rlimit(60)]
fn write_program_headers(config: &Config, target: &mut Vec<u8>, linked: &LinkedProgram)
    requires
        fits(linked@, *config),
    ensures
        final(target)@ == old(target)@ + spec_phdrs(linked@, *config, linked@.len() as int),
{
    let ghost base = old(target)@;
    let ghost segs = linked@;
    let ghost page = config.page_size;
    let ghost fa = config.segment_file_align;
    let ghost extra = 0x38 + spec_eff_align(fa as int);
    let nseg = linked.segments.len();
    proof {
        assert(segs.len() == nseg);
        lemma_w_segments_lower(segs, page, extra);
        lemma_w_segments_nonneg(segs, page, extra);
        assert(nseg * 0x38 <= nseg * extra) by (nonlinear_arith)
            requires 0x38 <= extra, nseg >= 0;
        crate::math::lemma_align_up_bounds(pos_after_headers(nseg as int), fa as int);
    }
    let pos_after: u64 = 0x40 + (nseg as u64) * 0x38;
    let pos_first: u64 = align_up(pos_after, config.segment_file_align);
    let mut offset_cur: u64 = pos_first;
    let mut vaddr_cur: u64 = 0;
    let mut i: usize = 0;
    while i < nseg
        invariant
            i <= nseg,
            nseg == segs.len(),
            pos_first == pos_first_content(*config, nseg as int),
            target@ == base + spec_phdrs(segs, *config, i as int),
            offset_cur == file_offset_of(segs, *config, i as int),
            vaddr_cur == vaddr_of(segs, *config, i as int),
        decreases nseg - i,
    {
        proof {
            assert(linked.segments@[i as int]@ == segs[i as int]);
            crate::layout::lemma_w_segments_component(segs, page, extra, i as int);
            lemma_sections_end_bounds(segs[i as int].sections, 0);
            lemma_file_offset_bounds(segs, *config, i as int, extra);
            lemma_file_offset_bounds(segs, *config, i + 1, extra);
            lemma_vaddr_bounds(segs, *config, i as int, extra);
            lemma_vaddr_bounds(segs, *config, i + 1, extra);
            crate::layout::lemma_w_segments_prefix(segs, page, extra, i + 1);
            crate::math::lemma_align_up_bounds(segment_size(segs[i as int]), fa as int);
            assert(segs.take(i + 1).drop_last() =~= segs.take(i as int));
            assert(segs.take(i + 1).last() == segs[i as int]);
            assert(spec_eff_align(page as int) <= spec_eff_align(
                max_int(segment_align(segs[i as int]) as int, page as int),
            ));
            lemma_w_sections_nonneg(segs[i as int].sections);
        }
        let size = linked.segments[i].size();
        let filesz = align_up(size, config.segment_file_align);
        let p = linked.segments[i].permissions();
        let flags: u32 = (if p.read {
            4u32
        } else {
            0u32
        }) | (if p.write {
            2u32
        } else {
            0u32
        }) | (if p.execute {
            1u32
        } else {
            0u32
        });
        write_program_header(
            target,
            PT_LOAD,
            flags,
            offset_cur,
            config.base_addr + vaddr_cur,
            config.base_addr + vaddr_cur,
            filesz,
            filesz,
            config.page_size,
        );
        proof {
            assert(flags == spec_phdr_flags(segs[i as int]));
            assert(target@ =~= base + spec_phdrs(segs, *config, i + 1));
        }
        offset_cur = offset_cur + filesz;
        vaddr_cur = align_up(vaddr_cur + size, config.page_size);
        i += 1;
    }
}

/// Write the contents of one segment: each section and chunk preceded by
/// zero padding up to its alignment, the segment followed by padding up to
/// the larger of its alignment and the page size.
#[verifier::loop_isolation(false)]
#[verifier::rlimit(60)]
fn write_segment_contents(
    config: &Config,
    target: &mut Vec<u8>,
    linked: &LinkedProgram,
    i: usize,
    position: u64,
) -> (r: u64)
    requires
        fits(linked@, *config),
        i < linked@.len(),
        position == pos_first_content(*config, linked@.len() as int) + segments_out(
            linked@,
            *config,
            pos_first_content(*config, linked@.len() as int),
            i as int,
        ).len(),
        forall|j: int, k: int|
            0 <= j < linked@[i as int].sections.len() && 0 <= k < linked@[i as int].sections[
                j
            ].chunks.len() ==> (#[trigger] linked@[i as int].sections[j].chunks[k]).patches_wf(),
    ensures
        final(target)@ == old(target)@ + segment_out(linked@[i as int], *config, position as int),
        r == position + segment_out(linked@[i as int], *config, position as int).len(),
{
    let ghost base = old(target)@;
    let ghost segs = linked@;
    let ghost page = config.page_size;
    let ghost fa = config.segment_file_align;
    let ghost extra = 0x38 + spec_eff_align(fa as int);
    let ghost seg_pos = position;
    let ghost ss = segs[i as int].sections;
    proof {
        assert(linked.segments@[i as int]@ == segs[i as int]);
        crate::layout::lemma_w_segments_component(segs, page, extra, i as int);
        lemma_write_room(segs, *config, i as int);
        lemma_w_sections_nonneg(ss);
    }
    let ghost room = position + w_sections(ss);
    let mut position = position;

    let nsec = linked.segments[i].sections.len();
    let mut j: usize = 0;
    while j < nsec
        invariant
            j <= nsec,
            i < segs.len(),
            nsec == ss.len(),
            segs == linked@,
            ss == segs[i as int].sections,
            linked.segments@[i as int]@ == segs[i as int],
            forall|j2: int, k: int|
                0 <= j2 < ss.len() && 0 <= k < ss[j2].chunks.len() ==> (#[trigger] ss[j2].chunks[
                    k
                ]).patches_wf(),
            target@ == base + sections_out(ss.take(j as int), seg_pos as int),
            position == seg_pos + sections_out(ss.take(j as int), seg_pos as int).len(),
            room == seg_pos + w_sections(ss),
            room <= u64::MAX,
        decreases nsec - j,
    {
        proof {
            assert(linked.segments@[i as int].sections@[j as int]@ == ss[j as int]);
            lemma_sections_out_len(ss.take(j as int), seg_pos as int);
            crate::layout::lemma_w_sections_prefix(ss, j as int);
            assert(ss.take(j + 1).drop_last() =~= ss.take(j as int));
            assert(ss.take(j + 1).last() == ss[j as int]);
            crate::layout::lemma_w_sections_prefix(ss, j + 1);
            lemma_w_chunks_nonneg(ss[j as int].chunks);
            crate::math::lemma_align_up_bounds(
                position as int,
                section_align(ss[j as int]) as int,
            );
        }
        let a = linked.segments[i].sections[j].alignment();
        let aligned = align_up(position, a);
        push_zeros(target, aligned - position);
        let ghost sec_pos = aligned;
        let ghost chunk_base = target@;
        proof {
            assert(chunk_base =~= base + sections_out(ss.take(j as int), seg_pos as int) + zeros(
                aligned - position,
            ));
        }
        let mut position2: u64 = aligned;
        let ghost cv = ss[j as int].chunks;

        let nch = linked.segments[i].sections[j].chunks.len();
        let mut k: usize = 0;
        while k < nch
            invariant
                k <= nch,
                i < segs.len(),
                j < nsec,
                nsec == ss.len(),
                nch == cv.len(),
                segs == linked@,
                ss == segs[i as int].sections,
                cv == ss[j as int].chunks,
                linked.segments@[i as int]@ == segs[i as int],
                linked.segments@[i as int].sections@[j as int]@ == ss[j as int],
                forall|k2: int| 0 <= k2 < cv.len() ==> (#[trigger] cv[k2]).patches_wf(),
                target@ == chunk_base + chunks_out(cv.take(k as int), sec_pos as int),
                position2 == sec_pos + chunks_out(cv.take(k as int), sec_pos as int).len(),
                sec_pos + w_chunks(cv) <= u64::MAX,
            decreases nch - k,
        {
            proof {
                assert(linked.segments@[i as int].sections@[j as int].chunks@[k as int]@
                    == cv[k as int]);
                lemma_chunks_out_len(cv.take(k as int), sec_pos as int);
                lemma_w_chunks_prefix(cv, k as int);
                assert(cv.take(k + 1).drop_last() =~= cv.take(k as int));
                assert(cv.take(k + 1).last() == cv[k as int]);
                lemma_w_chunks_prefix(cv, k + 1);
                crate::math::lemma_align_up_bounds(
                    position2 as int,
                    cv[k as int].alignment as int,
                );
            }
            let chunk = &linked.segments[i].sections[j].chunks[k];
            let ca = chunk.alignment;
            let caligned = align_up(position2, ca);
            push_zeros(target, caligned - position2);
            chunk.write_finalized(target);
            position2 = caligned + chunk.size();
            k += 1;
            proof {
                assert(target@ =~= chunk_base + chunks_out(cv.take(k as int), sec_pos as int));
            }
        }
        proof {
            assert(cv.take(nch as int) =~= cv);
            lemma_chunks_out_len(cv, sec_pos as int);
        }
        position = position2;
        j += 1;
        proof {
            assert(target@ =~= base + sections_out(ss.take(j as int), seg_pos as int));
        }
    }
    proof {
        assert(ss.take(nsec as int) =~= ss);
        lemma_sections_out_len(ss, seg_pos as int);
    }

    // Pad the file cursor up to max(segment alignment, page size).
    let seg_align = linked.segments[i].alignment();
    let m = if seg_align >= config.page_size {
        seg_align
    } else {
        config.page_size
    };
    proof {
        assert(spec_eff_align(m as int) <= extra + spec_eff_align(
            max_int(segment_align(segs[i as int]) as int, page as int),
        ));
        crate::layout::lemma_w_segments_prefix(segs, page, extra, i + 1);
        assert(segs.take(i + 1).drop_last() =~= segs.take(i as int));
        assert(segs.take(i + 1).last() == segs[i as int]);
        lemma_w_segments_nonneg(segs.take(i as int), page, extra);
        crate::math::lemma_align_up_bounds(position as int, m as int);
    }
    let aligned = align_up(position, m);
    push_zeros(target, aligned - position);
    proof {
        assert(final(target)@ =~= base + segment_out(segs[i as int], *config, seg_pos as int));
    }
    aligned
}

/// Write the linked program as an ELF64 executable image.
///
/// The entry point field carries the base address itself; resolving the
/// true entry symbol is a known gap of this design.
#[verifier::loop_isolation(false)]
pub fn write(config: &Config, target: &mut Vec<u8>, linked: &LinkedProgram)
    requires
        fits(linked@, *config),
        linked@.len() <= u16::MAX,
        forall|i: int, j: int, k: int|
            crate::relocation::idx_ok(linked@, i, j, k) ==> (#[trigger] linked@[i].sections[
                j
            ].chunks[k]).patches_wf(),
    ensures
        final(target)@ == old(target)@ + spec_image(linked@, *config),
{
    let ghost base = old(target)@;
    let ghost segs = linked@;
    let ghost page = config.page_size;
    let ghost fa = config.segment_file_align;
    let ghost extra = 0x38 + spec_eff_align(fa as int);
    let nseg = linked.segments.len();
    proof {
        assert(segs.len() == nseg);
        lemma_w_segments_lower(segs, page, extra);
        lemma_w_segments_nonneg(segs, page, extra);
        assert(nseg * 0x38 <= nseg * extra) by (nonlinear_arith)
            requires 0x38 <= extra, nseg >= 0;
    }
    let pos_after: u64 = 0x40 + (nseg as u64) * 0x38;
    proof {
        crate::math::lemma_align_up_bounds(pos_after as int, fa as int);
    }
    let pos_first: u64 = align_up(pos_after, config.segment_file_align);
    proof {
        assert(pos_after as int == pos_after_headers(nseg as int));
        assert(pos_first as int == pos_first_content(*config, nseg as int));
    }

    // File header, program headers, padding up to the first content.
    write_file_header(target, config.base_addr, nseg as u16);
    write_program_headers(config, target, linked);
    push_zeros(target, pos_first - pos_after);
    let ghost head = base + spec_file_header(config.base_addr, nseg as u16) + spec_phdrs(
        segs,
        *config,
        nseg as int,
    ) + zeros(pos_first - pos_after);

    // Segment contents.
    let mut position: u64 = pos_first;
    let mut i: usize = 0;
    while i < nseg
        invariant
            i <= nseg,
            nseg == segs.len(),
            segs == linked@,
            pos_first == pos_first_content(*config, nseg as int),
            forall|x: int, j: int, k: int|
                crate::relocation::idx_ok(segs, x, j, k) ==> (#[trigger] segs[x].sections[
                    j
                ].chunks[k]).patches_wf(),
            target@ == head + segments_out(segs, *config, pos_first as int, i as int),
            position == pos_first + segments_out(segs, *config, pos_first as int, i as int).len(),
        decreases nseg - i,
    {
        proof {
            assert forall|j: int, k: int|
                0 <= j < segs[i as int].sections.len() && 0 <= k < segs[i as int].sections[
                    j
                ].chunks.len() implies (#[trigger] segs[i as int].sections[j].chunks[
                k
            ]).patches_wf() by {
                assert(crate::relocation::idx_ok(segs, i as int, j, k));
            }
            lemma_segments_out_len(segs, *config, pos_first as int, i as int, extra);
        }
        position = write_segment_contents(config, target, linked, i, position);
        i += 1;
        proof {
            assert(target@ =~= head + segments_out(segs, *config, pos_first as int, i as int));
        }
    }

    proof {
        assert(final(target)@ =~= base + spec_image(segs, *config));
    }
}

} // verus!
