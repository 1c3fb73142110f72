//! Address layout.
//!
//! A single forward pass assigns every chunk a base-relative virtual
//! address: the running address is aligned up to `max(segment alignment,
//! page size)` before each segment after the first, to the section's
//! alignment before each section, and to the chunk's alignment before each
//! chunk. The same walk defines section and segment sizes. The writer lays
//! file contents out with the same arithmetic, so file offsets and virtual
//! addresses move in lockstep within a segment.

use vstd::prelude::*;

use crate::config::Config;
use crate::math::{align_up, spec_align_up, spec_eff_align};
use crate::permissions::{spec_relax, Permissions};
use crate::section::{ChunkV, ItChunk, LinkedProgram, Section, SectionV, Segment, SegmentV};

verus! {

/// The larger of two values.
pub open spec fn max_int(a: int, b: int) -> int {
    if a >= b {
        a
    } else {
        b
    }
}

/// The empty permission triple.
pub open spec fn no_perms() -> Permissions {
    Permissions { read: false, write: false, execute: false }
}

/// The largest chunk alignment of `cs`; 0 if there is none.
pub open spec fn max_align_chunks(cs: Seq<ChunkV>) -> u64
    decreases cs.len(),
{
    if cs.len() == 0 {
        0
    } else {
        let m = max_align_chunks(cs.drop_last());
        if cs.last().alignment > m {
            cs.last().alignment
        } else {
            m
        }
    }
}

/// The union of the chunk permissions of `cs`.
pub open spec fn perms_chunks(cs: Seq<ChunkV>) -> Permissions
    decreases cs.len(),
{
    if cs.len() == 0 {
        no_perms()
    } else {
        spec_relax(perms_chunks(cs.drop_last()), cs.last().permissions)
    }
}

/// The running cursor after laying the chunks of `cs` out from `cur`:
/// each chunk aligns the cursor up and then advances it by its size.
pub open spec fn chunks_end(cs: Seq<ChunkV>, cur: int) -> int
    decreases cs.len(),
{
    if cs.len() == 0 {
        cur
    } else {
        spec_align_up(chunks_end(cs.drop_last(), cur), cs.last().alignment as int)
            + cs.last().orig_bytes.len()
    }
}

/// A section's size: the cursor after laying its chunks out from 0.
pub open spec fn section_size(s: SectionV) -> int {
    chunks_end(s.chunks, 0)
}

/// A section's alignment: the largest alignment of its chunks.
pub open spec fn section_align(s: SectionV) -> u64 {
    max_align_chunks(s.chunks)
}

/// A section's permissions: the union of its chunks'.
pub open spec fn section_perms(s: SectionV) -> Permissions {
    perms_chunks(s.chunks)
}

/// The largest section alignment of `ss`; 0 if there is none.
pub open spec fn max_align_sections(ss: Seq<SectionV>) -> u64
    decreases ss.len(),
{
    if ss.len() == 0 {
        0
    } else {
        let m = max_align_sections(ss.drop_last());
        if section_align(ss.last()) > m {
            section_align(ss.last())
        } else {
            m
        }
    }
}

/// The running cursor after laying the sections of `ss` out from `cur`.
pub open spec fn sections_end(ss: Seq<SectionV>, cur: int) -> int
    decreases ss.len(),
{
    if ss.len() == 0 {
        cur
    } else {
        spec_align_up(sections_end(ss.drop_last(), cur), section_align(ss.last()) as int)
            + section_size(ss.last())
    }
}

/// A segment's size: the cursor after laying its sections out from 0.
pub open spec fn segment_size(seg: SegmentV) -> int {
    sections_end(seg.sections, 0)
}

/// A segment's alignment: the largest alignment of its sections.
pub open spec fn segment_align(seg: SegmentV) -> u64 {
    max_align_sections(seg.sections)
}

/// A segment's permissions: those of its first section. All sections of a
/// segment share one permission triple.
pub open spec fn segment_perms(seg: SegmentV) -> Permissions {
    if seg.sections.len() == 0 {
        no_perms()
    } else {
        section_perms(seg.sections[0])
    }
}

/// The base-relative start of segment `i`: the first segment starts at 0,
/// each later one at the previous segment's start plus its size, aligned up
/// to the larger of the segment's alignment and the page size.
pub open spec fn segment_start(segs: Seq<SegmentV>, i: int, page: u64) -> int
    decreases i,
{
    if i <= 0 {
        0
    } else {
        spec_align_up(
            segment_start(segs, i - 1, page) + segment_size(segs[i - 1]),
            max_int(segment_align(segs[i]) as int, page as int),
        )
    }
}

/// The start of section `j` of `ss` when the segment content starts at
/// `base`: the cursor after the previous sections, aligned up to the
/// section's alignment.
pub open spec fn section_start_in(ss: Seq<SectionV>, j: int, base: int) -> int {
    spec_align_up(sections_end(ss.take(j), base), section_align(ss[j]) as int)
}

/// The start of chunk `k` of `cs` when the section starts at `base`.
pub open spec fn chunk_start_in(cs: Seq<ChunkV>, k: int, base: int) -> int {
    spec_align_up(chunks_end(cs.take(k), base), cs[k].alignment as int)
}

// ---------------------------------------------------------------------------
// Weights: one generous bound over everything the layout and the writer
// compute, so that a single check at build time rules overflow out.
// ---------------------------------------------------------------------------

/// An upper bound for the room the chunks of `cs` can take: every chunk may
/// cost its effective alignment in padding plus its size.
pub open spec fn w_chunks(cs: Seq<ChunkV>) -> int
    decreases cs.len(),
{
    if cs.len() == 0 {
        0
    } else {
        w_chunks(cs.drop_last()) + spec_eff_align(cs.last().alignment as int)
            + cs.last().orig_bytes.len()
    }
}

/// An upper bound for the room the sections of `ss` can take.
pub open spec fn w_sections(ss: Seq<SectionV>) -> int
    decreases ss.len(),
{
    if ss.len() == 0 {
        0
    } else {
        w_sections(ss.drop_last()) + spec_eff_align(section_align(ss.last()) as int)
            + w_chunks(ss.last().chunks)
    }
}

/// An upper bound for the room the segments take, in memory and in the
/// file: `extra` is charged once per segment (for its program header and
/// its file alignment).
pub open spec fn w_segments(segs: Seq<SegmentV>, page: u64, extra: int) -> int
    decreases segs.len(),
{
    if segs.len() == 0 {
        0
    } else {
        w_segments(segs.drop_last(), page, extra) + extra + spec_eff_align(
            max_int(segment_align(segs.last()) as int, page as int),
        ) + w_sections(segs.last().sections)
    }
}

/// Whether every address and file offset of the link fits in 64 bits:
/// the base address plus the file header, and per segment a program header,
/// file padding, memory padding and contents, stay short of `u64::MAX`.
/// The weight is counted four times over: a deliberately generous bound
/// that covers the file cursor, the virtual addresses and the program
/// header fields alike.
pub open spec fn fits(segs: Seq<SegmentV>, config: Config) -> bool {
    config.base_addr + 0x40 + spec_eff_align(config.segment_file_align as int) + 4 * w_segments(
        segs,
        config.page_size,
        0x38 + spec_eff_align(config.segment_file_align as int),
    ) <= u64::MAX
}

// ---------------------------------------------------------------------------
// Bound lemmas
// ---------------------------------------------------------------------------

pub proof fn lemma_w_chunks_nonneg(cs: Seq<ChunkV>)
    ensures
        w_chunks(cs) >= 0,
    decreases cs.len(),
{
    if cs.len() > 0 {
        lemma_w_chunks_nonneg(cs.drop_last());
    }
}

pub proof fn lemma_w_sections_nonneg(ss: Seq<SectionV>)
    ensures
        w_sections(ss) >= 0,
    decreases ss.len(),
{
    if ss.len() > 0 {
        lemma_w_sections_nonneg(ss.drop_last());
        lemma_w_chunks_nonneg(ss.last().chunks);
    }
}

pub proof fn lemma_w_segments_nonneg(segs: Seq<SegmentV>, page: u64, extra: int)
    requires
        extra >= 0,
    ensures
        w_segments(segs, page, extra) >= 0,
    decreases segs.len(),
{
    if segs.len() > 0 {
        lemma_w_segments_nonneg(segs.drop_last(), page, extra);
        lemma_w_sections_nonneg(segs.last().sections);
    }
}

/// Weights of a prefix never exceed the whole.
pub proof fn lemma_w_chunks_prefix(cs: Seq<ChunkV>, k: int)
    requires
        0 <= k <= cs.len(),
    ensures
        w_chunks(cs.take(k)) <= w_chunks(cs),
    decreases cs.len() - k,
{
    if k == cs.len() {
        assert(cs.take(k) =~= cs);
    } else {
        lemma_w_chunks_prefix(cs, k + 1);
        assert(cs.take(k + 1).drop_last() =~= cs.take(k));
        assert(cs.take(k + 1).last() == cs[k]);
    }
}

pub proof fn lemma_w_sections_prefix(ss: Seq<SectionV>, j: int)
    requires
        0 <= j <= ss.len(),
    ensures
        w_sections(ss.take(j)) <= w_sections(ss),
    decreases ss.len() - j,
{
    if j == ss.len() {
        assert(ss.take(j) =~= ss);
    } else {
        lemma_w_sections_prefix(ss, j + 1);
        assert(ss.take(j + 1).drop_last() =~= ss.take(j));
        assert(ss.take(j + 1).last() == ss[j]);
        lemma_w_chunks_nonneg(ss[j].chunks);
    }
}

pub proof fn lemma_w_segments_prefix(segs: Seq<SegmentV>, page: u64, extra: int, i: int)
    requires
        0 <= i <= segs.len(),
        extra >= 0,
    ensures
        w_segments(segs.take(i), page, extra) <= w_segments(segs, page, extra),
    decreases segs.len() - i,
{
    if i == segs.len() {
        assert(segs.take(i) =~= segs);
    } else {
        lemma_w_segments_prefix(segs, page, extra, i + 1);
        assert(segs.take(i + 1).drop_last() =~= segs.take(i));
        assert(segs.take(i + 1).last() == segs[i]);
        lemma_w_sections_nonneg(segs[i].sections);
    }
}

/// Laying chunks out only moves the cursor forward, and at most by the
/// chunks' weight.
pub proof fn lemma_chunks_end_bounds(cs: Seq<ChunkV>, cur: int)
    requires
        cur >= 0,
    ensures
        cur <= chunks_end(cs, cur) <= cur + w_chunks(cs),
    decreases cs.len(),
{
    if cs.len() > 0 {
        lemma_chunks_end_bounds(cs.drop_last(), cur);
        crate::math::lemma_align_up_bounds(
            chunks_end(cs.drop_last(), cur),
            cs.last().alignment as int,
        );
    }
}

/// Laying sections out only moves the cursor forward, and at most by the
/// sections' weight.
pub proof fn lemma_sections_end_bounds(ss: Seq<SectionV>, cur: int)
    requires
        cur >= 0,
    ensures
        cur <= sections_end(ss, cur) <= cur + w_sections(ss),
    decreases ss.len(),
{
    if ss.len() > 0 {
        lemma_sections_end_bounds(ss.drop_last(), cur);
        crate::math::lemma_align_up_bounds(
            sections_end(ss.drop_last(), cur),
            section_align(ss.last()) as int,
        );
        lemma_chunks_end_bounds(ss.last().chunks, 0);
    }
}

/// Every segment start, with the whole room of the segment's sections on
/// top, stays within the weight of the segments seen so far.
pub proof fn lemma_segment_start_bounds(segs: Seq<SegmentV>, i: int, page: u64, extra: int)
    requires
        0 <= i < segs.len(),
        extra >= 0,
    ensures
        segment_start(segs, i, page) >= 0,
        segment_start(segs, i, page) + w_sections(segs[i].sections) <= w_segments(
            segs.take(i + 1),
            page,
            extra,
        ),
        segment_start(segs, i, page) + segment_size(segs[i]) <= w_segments(
            segs.take(i + 1),
            page,
            extra,
        ),
    decreases i,
{
    assert(segs.take(i + 1).drop_last() =~= segs.take(i));
    assert(segs.take(i + 1).last() == segs[i]);
    lemma_sections_end_bounds(segs[i].sections, 0);
    if i == 0 {
        lemma_w_segments_nonneg(segs.take(0), page, extra);
    } else {
        lemma_segment_start_bounds(segs, i - 1, page, extra);
        lemma_sections_end_bounds(segs[i - 1].sections, 0);
        crate::math::lemma_align_up_bounds(
            segment_start(segs, i - 1, page) + segment_size(segs[i - 1]),
            max_int(segment_align(segs[i]) as int, page as int),
        );
    }
}

// ---------------------------------------------------------------------------
// Sizes, alignments, permissions
// ---------------------------------------------------------------------------

impl Section {
    /// The union of the permissions of the section's chunks.
    pub fn permissions(&self) -> (r: Permissions)
        ensures
            r == section_perms(self@),
    {
        let ghost cv = self@.chunks;
        let mut perm = Permissions::default();
        for k in 0..self.chunks.len()
            invariant
                cv == self@.chunks,
                perm == perms_chunks(cv.take(k as int)),
        {
            perm.relax(self.chunks[k].permissions);
            proof {
                assert(cv.take(k + 1).drop_last() =~= cv.take(k as int));
                assert(cv.take(k + 1).last() == cv[k as int]);
            }
        }
        proof {
            assert(cv.take(self.chunks.len() as int) =~= cv);
        }
        perm
    }

    /// The largest alignment of the section's chunks; 0 if it has none.
    pub fn alignment(&self) -> (r: u64)
        ensures
            r == section_align(self@),
    {
        let ghost cv = self@.chunks;
        let mut m: u64 = 0;
        for k in 0..self.chunks.len()
            invariant
                cv == self@.chunks,
                m == max_align_chunks(cv.take(k as int)),
        {
            if self.chunks[k].alignment > m {
                m = self.chunks[k].alignment;
            }
            proof {
                assert(cv.take(k + 1).drop_last() =~= cv.take(k as int));
                assert(cv.take(k + 1).last() == cv[k as int]);
            }
        }
        proof {
            assert(cv.take(self.chunks.len() as int) =~= cv);
        }
        m
    }

    /// The section's size: the cursor after walking its chunks, aligning up
    /// to each chunk's alignment and adding the chunk's size.
    pub fn size(&self) -> (r: u64)
        requires
            w_chunks(self@.chunks) <= u64::MAX,
        ensures
            r == section_size(self@),
    {
        let ghost cv = self@.chunks;
        let mut result: u64 = 0;
        for k in 0..self.chunks.len()
            invariant
                cv == self@.chunks,
                w_chunks(cv) <= u64::MAX,
                result == chunks_end(cv.take(k as int), 0),
        {
            proof {
                lemma_chunks_end_bounds(cv.take(k as int), 0);
                lemma_w_chunks_prefix(cv, k + 1);
                assert(cv.take(k + 1).drop_last() =~= cv.take(k as int));
                assert(cv.take(k + 1).last() == cv[k as int]);
                lemma_chunks_end_bounds(cv.take(k + 1), 0);
            }
            result = align_up(result, self.chunks[k].alignment);
            result = result + self.chunks[k].size();
        }
        proof {
            assert(cv.take(self.chunks.len() as int) =~= cv);
        }
        result
    }
}

impl Segment {
    /// The largest alignment of the segment's sections; 0 if it has none.
    pub fn alignment(&self) -> (r: u64)
        ensures
            r == segment_align(self@),
    {
        let ghost sv = self@.sections;
        let mut m: u64 = 0;
        for j in 0..self.sections.len()
            invariant
                sv == self@.sections,
                m == max_align_sections(sv.take(j as int)),
        {
            let a = self.sections[j].alignment();
            if a > m {
                m = a;
            }
            proof {
                assert(sv.take(j + 1).drop_last() =~= sv.take(j as int));
                assert(sv.take(j + 1).last() == sv[j as int]);
            }
        }
        proof {
            assert(sv.take(self.sections.len() as int) =~= sv);
        }
        m
    }

    /// The segment's size: the cursor after walking its sections, aligning
    /// up to each section's alignment and adding the section's size.
    pub fn size(&self) -> (r: u64)
        requires
            w_sections(self@.sections) <= u64::MAX,
        ensures
            r == segment_size(self@),
    {
        let ghost sv = self@.sections;
        let mut result: u64 = 0;
        for j in 0..self.sections.len()
            invariant
                sv == self@.sections,
                w_sections(sv) <= u64::MAX,
                result == sections_end(sv.take(j as int), 0),
        {
            proof {
                lemma_sections_end_bounds(sv.take(j as int), 0);
                lemma_w_sections_prefix(sv, j + 1);
                assert(sv.take(j + 1).drop_last() =~= sv.take(j as int));
                assert(sv.take(j + 1).last() == sv[j as int]);
                lemma_sections_end_bounds(sv.take(j + 1), 0);
                lemma_chunks_end_bounds(sv[j as int].chunks, 0);
                lemma_w_chunks_nonneg(sv[j as int].chunks);
            }
            result = align_up(result, self.sections[j].alignment());
            result = result + self.sections[j].size();
        }
        proof {
            assert(sv.take(self.sections.len() as int) =~= sv);
        }
        result
    }

    /// The permissions of the segment: those of its first section, since all
    /// sections of a segment share one permission triple.
    pub fn permissions(&self) -> (r: Permissions)
        ensures
            r == segment_perms(self@),
    {
        if self.sections.len() == 0 {
            Permissions::default()
        } else {
            self.sections[0].permissions()
        }
    }
}

// ---------------------------------------------------------------------------
// Positions of every chunk
// ---------------------------------------------------------------------------

/// The positions of the first `k` chunks of `cs`, for a section starting at
/// `sec_start` within segment `i`, section `j`, segment start `seg_start`.
pub open spec fn chunk_positions(
    cs: Seq<ChunkV>,
    k: int,
    i: int,
    j: int,
    seg_start: int,
    sec_start: int,
) -> Seq<ItChunk>
    decreases k,
{
    if k <= 0 {
        Seq::empty()
    } else {
        chunk_positions(cs, k - 1, i, j, seg_start, sec_start) + seq![
            ItChunk {
                segment_index: i as usize,
                section_index: j as usize,
                chunk_index: (k - 1) as usize,
                segment_start: seg_start as u64,
                section_start: sec_start as u64,
                chunk_start: chunk_start_in(cs, k - 1, sec_start) as u64,
            },
        ]
    }
}

/// The positions of every chunk of the first `j` sections of `ss`, for a
/// segment `i` starting at `seg_start`.
pub open spec fn section_positions(ss: Seq<SectionV>, j: int, i: int, seg_start: int) -> Seq<
    ItChunk,
>
    decreases j,
{
    if j <= 0 {
        Seq::empty()
    } else {
        section_positions(ss, j - 1, i, seg_start) + chunk_positions(
            ss[j - 1].chunks,
            ss[j - 1].chunks.len() as int,
            i,
            j - 1,
            seg_start,
            section_start_in(ss, j - 1, seg_start),
        )
    }
}

/// The positions of every chunk of the first `i` segments.
pub open spec fn program_positions_upto(segs: Seq<SegmentV>, i: int, page: u64) -> Seq<ItChunk>
    decreases i,
{
    if i <= 0 {
        Seq::empty()
    } else {
        program_positions_upto(segs, i - 1, page) + section_positions(
            segs[i - 1].sections,
            segs[i - 1].sections.len() as int,
            i - 1,
            segment_start(segs, i - 1, page),
        )
    }
}

/// The positions of every chunk of the program, in program order.
pub open spec fn program_positions(segs: Seq<SegmentV>, page: u64) -> Seq<ItChunk> {
    program_positions_upto(segs, segs.len() as int, page)
}

/// Each segment's size aligned up to the file alignment: what each segment
/// occupies in the output file.
pub open spec fn spec_segment_sizes(segs: Seq<SegmentV>, file_align: u64) -> Seq<u64> {
    Seq::new(segs.len(), |i: int| spec_align_up(segment_size(segs[i]), file_align as int) as u64)
}

/// One segment's share of the total weight covers its program header, its
/// file alignment and its sections.
pub proof fn lemma_w_segments_component(segs: Seq<SegmentV>, page: u64, extra: int, i: int)
    requires
        0 <= i < segs.len(),
        extra >= 0,
    ensures
        extra + w_sections(segs[i].sections) <= w_segments(segs, page, extra),
{
    lemma_w_segments_prefix(segs, page, extra, i + 1);
    assert(segs.take(i + 1).drop_last() =~= segs.take(i));
    assert(segs.take(i + 1).last() == segs[i]);
    lemma_w_segments_nonneg(segs.take(i), page, extra);
}

impl LinkedProgram {
    /// Each segment's size aligned up to the file alignment.
    pub fn segment_sizes(&self, config: &Config) -> (r: Vec<u64>)
        requires
            fits(self@, *config),
        ensures
            r@ == spec_segment_sizes(self@, config.segment_file_align),
    {
        let ghost segs = self@;
        let ghost extra = 0x38 + spec_eff_align(config.segment_file_align as int);
        let mut r: Vec<u64> = Vec::new();
        for i in 0..self.segments.len()
            invariant
                segs == self@,
                fits(segs, *config),
                extra == 0x38 + spec_eff_align(config.segment_file_align as int),
                r@.len() == i,
                forall|x: int|
                    0 <= x < i ==> r@[x] == spec_segment_sizes(
                        segs,
                        config.segment_file_align,
                    )[x],
        {
            proof {
                assert(self.segments@[i as int]@ == segs[i as int]);
                lemma_w_segments_component(segs, config.page_size, extra, i as int);
                lemma_sections_end_bounds(segs[i as int].sections, 0);
            }
            let size = self.segments[i].size();
            let aligned = align_up(size, config.segment_file_align);
            r.push(aligned);
        }
        proof {
            assert(r@ =~= spec_segment_sizes(segs, config.segment_file_align));
        }
        r
    }

    /// Walk every chunk of the program in order and yield, for each, its
    /// place and the base-relative starts of its segment, its section and
    /// the chunk itself.
    pub fn iter_with_positions(&self, config: &Config) -> (r: Vec<ItChunk>)
        requires
            fits(self@, *config),
        ensures
            r@ == program_positions(self@, config.page_size),
    {
        let ghost segs = self@;
        let ghost page = config.page_size;
        let ghost extra = 0x38 + spec_eff_align(config.segment_file_align as int);
        let ghost cap = w_segments(segs, page, extra);

        let mut result: Vec<ItChunk> = Vec::new();
        let mut prev_end: u64 = 0;

        let nseg = self.segments.len();
        for i in 0..nseg
            invariant
                nseg == self.segments.len(),
                segs == self@,
                page == config.page_size,
                fits(segs, *config),
                extra == 0x38 + spec_eff_align(config.segment_file_align as int),
                cap == w_segments(segs, page, extra),
                result@ == program_positions_upto(segs, i as int, page),
                prev_end == if i == 0 {
                    0
                } else {
                    segment_start(segs, i - 1, page) + segment_size(segs[i - 1])
                },
        {
            proof {
                assert(self.segments@[i as int]@ == segs[i as int]);
                lemma_w_segments_component(segs, page, extra, i as int);
                lemma_w_segments_prefix(segs, page, extra, i as int);
                if i > 0 {
                    lemma_segment_start_bounds(segs, i - 1, page, extra);
                    lemma_w_segments_prefix(segs, page, extra, i as int);
                }
                lemma_w_sections_nonneg(segs[i as int].sections);
            }

            // Align up to max(segment alignment, page size) before every
            // segment after the first; the first starts at 0.
            let seg_align = self.segments[i].alignment();
            let m = if seg_align >= config.page_size {
                seg_align
            } else {
                config.page_size
            };
            proof {
                if i > 0 {
                    assert(prev_end <= w_segments(segs.take(i as int), page, extra));
                    assert(w_segments(segs.take(i + 1), page, extra) <= cap) by {
                        lemma_w_segments_prefix(segs, page, extra, i + 1);
                    }
                    assert(segs.take(i + 1).drop_last() =~= segs.take(i as int));
                    assert(segs.take(i + 1).last() == segs[i as int]);
                }
            }
            let seg_start = align_up(prev_end, m);
            proof {
                assert(seg_start == segment_start(segs, i as int, page));
                lemma_segment_start_bounds(segs, i as int, page, extra);
                assert(w_segments(segs.take(i + 1), page, extra) <= cap) by {
                    lemma_w_segments_prefix(segs, page, extra, i + 1);
                }
                assert(seg_start + w_sections(segs[i as int].sections) <= cap);
            }

            // Sections of this segment.
            let ghost ss = segs[i as int].sections;
            let ghost room = seg_start + w_sections(ss);
            let mut sec_end: u64 = seg_start;
            let nsec = self.segments[i].sections.len();
            for j in 0..nsec
                invariant
                    nseg == self.segments.len(),
                    i < nseg,
                    nsec == self.segments[i as int].sections.len(),
                    segs == self@,
                    self.segments@[i as int]@ == segs[i as int],
                    ss == segs[i as int].sections,
                    page == config.page_size,
                    result@ == program_positions_upto(segs, i as int, page) + section_positions(
                        ss,
                        j as int,
                        i as int,
                        seg_start as int,
                    ),
                    sec_end == sections_end(ss.take(j as int), seg_start as int),
                    room == seg_start + w_sections(ss),
                    room <= u64::MAX,
            {
                proof {
                    assert(self.segments@[i as int].sections@[j as int]@ == ss[j as int]);
                    lemma_sections_end_bounds(ss.take(j as int), seg_start as int);
                    lemma_w_sections_prefix(ss, j as int);
                    assert(ss.take(j + 1).drop_last() =~= ss.take(j as int));
                    assert(ss.take(j + 1).last() == ss[j as int]);
                    lemma_w_sections_prefix(ss, j + 1);
                    lemma_w_chunks_nonneg(ss[j as int].chunks);
                }
                let a = self.segments[i].sections[j].alignment();
                let sec_start = align_up(sec_end, a);
                proof {
                    assert(sec_start == section_start_in(ss, j as int, seg_start as int));
                    assert(sec_start + w_chunks(ss[j as int].chunks) <= room);
                }

                // Chunks of this section.
                let ghost cs = ss[j as int].chunks;
                let mut ch_end: u64 = sec_start;
                let nch = self.segments[i].sections[j].chunks.len();
                for k in 0..nch
                    invariant
                        nseg == self.segments.len(),
                        i < nseg,
                        nsec == self.segments[i as int].sections.len(),
                        j < nsec,
                        nch == self.segments[i as int].sections@[j as int].chunks.len(),
                        segs == self@,
                        self.segments@[i as int]@ == segs[i as int],
                        self.segments@[i as int].sections@[j as int]@ == ss[j as int],
                        ss == segs[i as int].sections,
                        cs == ss[j as int].chunks,
                        page == config.page_size,
                        result@ == program_positions_upto(segs, i as int, page)
                            + section_positions(ss, j as int, i as int, seg_start as int)
                            + chunk_positions(
                            cs,
                            k as int,
                            i as int,
                            j as int,
                            seg_start as int,
                            sec_start as int,
                        ),
                        ch_end == chunks_end(cs.take(k as int), sec_start as int),
                        sec_start + w_chunks(cs) <= u64::MAX,
                {
                    proof {
                        assert(self.segments@[i as int].sections@[j as int].chunks@[k as int]@
                            == cs[k as int]);
                        lemma_chunks_end_bounds(cs.take(k as int), sec_start as int);
                        lemma_w_chunks_prefix(cs, k as int);
                        assert(cs.take(k + 1).drop_last() =~= cs.take(k as int));
                        assert(cs.take(k + 1).last() == cs[k as int]);
                        lemma_w_chunks_prefix(cs, k + 1);
                    }
                    let ca = self.segments[i].sections[j].chunks[k].alignment;
                    let ch_start = align_up(ch_end, ca);
                    proof {
                        assert(ch_start == chunk_start_in(cs, k as int, sec_start as int));
                        lemma_chunks_end_bounds(cs.take(k + 1), sec_start as int);
                    }
                    result.push(
                        ItChunk {
                            segment_index: i,
                            section_index: j,
                            chunk_index: k,
                            segment_start: seg_start,
                            section_start: sec_start,
                            chunk_start: ch_start,
                        },
                    );
                    ch_end = ch_start + self.segments[i].sections[j].chunks[k].size();
                    proof {
                        assert(result@ =~= program_positions_upto(segs, i as int, page)
                            + section_positions(ss, j as int, i as int, seg_start as int)
                            + chunk_positions(
                            cs,
                            k + 1,
                            i as int,
                            j as int,
                            seg_start as int,
                            sec_start as int,
                        ));
                    }
                }

                proof {
                    lemma_w_chunks_prefix(cs, nch as int);
                    assert(cs.take(nch as int) =~= cs);
                    lemma_chunks_end_bounds(cs, sec_start as int);
                    lemma_chunks_end_bounds(cs, 0);
                }
                let sec_size = self.segments[i].sections[j].size();
                sec_end = sec_start + sec_size;
                proof {
                    assert(sec_end == sections_end(ss.take(j + 1), seg_start as int));
                    assert(result@ =~= program_positions_upto(segs, i as int, page)
                        + section_positions(ss, j + 1, i as int, seg_start as int));
                }
            }

            proof {
                assert(ss.take(nsec as int) =~= ss);
                lemma_sections_end_bounds(ss, seg_start as int);
            }
            let seg_size = self.segments[i].size();
            prev_end = seg_start + seg_size;
            proof {
                assert(result@ =~= program_positions_upto(segs, i + 1, page));
            }
        }
        proof {
            assert(result@ =~= program_positions(segs, page));
        }
        result
    }
}

/// The chunk a position addresses.
pub open spec fn chunk_at(segs: Seq<SegmentV>, e: ItChunk) -> ChunkV {
    segs[e.segment_index as int].sections[e.section_index as int].chunks[e.chunk_index as int]
}

/// For every chunk in program order: its input, its source section index,
/// and its base-relative start.
pub open spec fn table_of(segs: Seq<SegmentV>, page: u64) -> Seq<(crate::inputs::InputId, u32, u64)> {
    program_positions(segs, page).map_values(
        |e: ItChunk| (chunk_at(segs, e).input, chunk_at(segs, e).section_index, e.chunk_start),
    )
}

/// Every position yielded for one section's chunks carries that section's
/// place and its chunks' starts.
pub proof fn lemma_chunk_positions_wf(
    cs: Seq<ChunkV>,
    k: int,
    i: int,
    j: int,
    seg_start: int,
    sec_start: int,
)
    requires
        0 <= k <= cs.len(),
        cs.len() <= usize::MAX,
        0 <= i <= usize::MAX,
        0 <= j <= usize::MAX,
    ensures
        chunk_positions(cs, k, i, j, seg_start, sec_start).len() == k,
        forall|x: int|
            0 <= x < k ==> #[trigger] chunk_positions(cs, k, i, j, seg_start, sec_start)[x]
                == (ItChunk {
                segment_index: i as usize,
                section_index: j as usize,
                chunk_index: x as usize,
                segment_start: seg_start as u64,
                section_start: sec_start as u64,
                chunk_start: chunk_start_in(cs, x, sec_start) as u64,
            }),
    decreases k,
{
    if k > 0 {
        lemma_chunk_positions_wf(cs, k - 1, i, j, seg_start, sec_start);
    }
}

/// Every position yielded for one segment's sections addresses a chunk of
/// that segment.
pub proof fn lemma_section_positions_wf(ss: Seq<SectionV>, j: int, i: int, seg_start: int)
    requires
        0 <= j <= ss.len(),
        ss.len() <= usize::MAX,
        0 <= i <= usize::MAX,
        forall|y: int| 0 <= y < ss.len() ==> (#[trigger] ss[y]).chunks.len() <= usize::MAX,
    ensures
        forall|x: int|
            0 <= x < section_positions(ss, j, i, seg_start).len()
                ==> (#[trigger] section_positions(ss, j, i, seg_start)[x]).segment_index
                == i as usize && (section_positions(ss, j, i, seg_start)[x].section_index as int)
                < j && section_positions(ss, j, i, seg_start)[x].chunk_index < ss[
                section_positions(ss, j, i, seg_start)[x].section_index as int
            ].chunks.len(),
    decreases j,
{
    if j > 0 {
        lemma_section_positions_wf(ss, j - 1, i, seg_start);
        lemma_chunk_positions_wf(
            ss[j - 1].chunks,
            ss[j - 1].chunks.len() as int,
            i,
            j - 1,
            seg_start,
            section_start_in(ss, j - 1, seg_start),
        );
        let whole = section_positions(ss, j, i, seg_start);
        let prefix = section_positions(ss, j - 1, i, seg_start);
        let tail = chunk_positions(
            ss[j - 1].chunks,
            ss[j - 1].chunks.len() as int,
            i,
            j - 1,
            seg_start,
            section_start_in(ss, j - 1, seg_start),
        );
        assert forall|x: int|
            0 <= x < whole.len() implies (#[trigger] whole[x]).segment_index == i as usize && (
        whole[x].section_index as int) < j && whole[x].chunk_index < ss[
            whole[x].section_index as int
        ].chunks.len() by {
            if x < prefix.len() {
                assert(whole[x] == prefix[x]);
            } else {
                assert(whole[x] == tail[x - prefix.len()]);
            }
        }
    }
}

/// Every position of the program addresses a chunk of the program.
pub proof fn lemma_positions_wf(segs: Seq<SegmentV>, i: int, page: u64)
    requires
        0 <= i <= segs.len(),
        segs.len() <= usize::MAX,
        forall|y: int| 0 <= y < segs.len() ==> (#[trigger] segs[y]).sections.len() <= usize::MAX,
        forall|y: int, z: int|
            0 <= y < segs.len() && 0 <= z < (#[trigger] segs[y]).sections.len()
                ==> (#[trigger] segs[y].sections[z]).chunks.len() <= usize::MAX,
    ensures
        forall|x: int|
            0 <= x < program_positions_upto(segs, i, page).len()
                ==> ((#[trigger] program_positions_upto(segs, i, page)[x]).segment_index as int)
                < i && program_positions_upto(segs, i, page)[x].section_index < segs[
                program_positions_upto(segs, i, page)[x].segment_index as int
            ].sections.len() && program_positions_upto(segs, i, page)[x].chunk_index < segs[
                program_positions_upto(segs, i, page)[x].segment_index as int
            ].sections[
                program_positions_upto(segs, i, page)[x].section_index as int
            ].chunks.len(),
    decreases i,
{
    if i > 0 {
        lemma_positions_wf(segs, i - 1, page);
        lemma_section_positions_wf(
            segs[i - 1].sections,
            segs[i - 1].sections.len() as int,
            i - 1,
            segment_start(segs, i - 1, page),
        );
        let whole = program_positions_upto(segs, i, page);
        let prefix = program_positions_upto(segs, i - 1, page);
        let tail = section_positions(
            segs[i - 1].sections,
            segs[i - 1].sections.len() as int,
            i - 1,
            segment_start(segs, i - 1, page),
        );
        assert forall|x: int|
            0 <= x < whole.len() implies ((#[trigger] whole[x]).segment_index as int) < i && whole[
            x
        ].section_index < segs[whole[x].segment_index as int].sections.len() && whole[
            x
        ].chunk_index < segs[whole[x].segment_index as int].sections[
            whole[x].section_index as int
        ].chunks.len() by {
            if x < prefix.len() {
                assert(whole[x] == prefix[x]);
            } else {
                assert(whole[x] == tail[x - prefix.len()]);
            }
        }
    }
}


/// Compute the weight of one section's chunks, up to `u64::MAX`;
/// `None` when it exceeds that.
#[verifier::loop_isolation(false)]
fn w_chunks_exec(chunks: &Vec<crate::section::SectionChunk>) -> (r: Option<u64>)
    ensures
        match r {
            Some(v) => v == w_chunks(chunks@.map_values(|c: crate::section::SectionChunk| c@)),
            None => w_chunks(chunks@.map_values(|c: crate::section::SectionChunk| c@))
                > u64::MAX,
        },
{
    let ghost cv = chunks@.map_values(|c: crate::section::SectionChunk| c@);
    let mut acc: u128 = 0;
    let n = chunks.len();
    proof {
        assert(cv.take(0) =~= Seq::<ChunkV>::empty());
    }
    for k in 0..n
        invariant
            acc == w_chunks(cv.take(k as int)),
            acc <= u64::MAX,
    {
        proof {
            assert(chunks@[k as int]@ == cv[k as int]);
            assert(cv.take(k + 1).drop_last() =~= cv.take(k as int));
            assert(cv.take(k + 1).last() == cv[k as int]);
        }
        let a = chunks[k].alignment;
        let eff: u128 = if a <= 1 {
            1
        } else {
            a as u128
        };
        let sz: u128 = chunks[k].orig_bytes.len() as u128;
        acc = acc + eff + sz;
        if acc > u64::MAX as u128 {
            proof {
                lemma_w_chunks_prefix(cv, k + 1);
            }
            return None;
        }
    }
    proof {
        assert(cv.take(n as int) =~= cv);
    }
    Some(acc as u64)
}

/// Compute the weight of one segment's sections, up to `u64::MAX`.
#[verifier::loop_isolation(false)]
fn w_sections_exec(sections: &Vec<Section>) -> (r: Option<u64>)
    ensures
        match r {
            Some(v) => v == w_sections(sections@.map_values(|s: Section| s@)),
            None => w_sections(sections@.map_values(|s: Section| s@)) > u64::MAX,
        },
{
    let ghost sv = sections@.map_values(|s: Section| s@);
    let mut acc: u128 = 0;
    let n = sections.len();
    proof {
        assert(sv.take(0) =~= Seq::<SectionV>::empty());
    }
    for j in 0..n
        invariant
            acc == w_sections(sv.take(j as int)),
            acc <= u64::MAX,
    {
        proof {
            assert(sections@[j as int]@ == sv[j as int]);
            assert(sv.take(j + 1).drop_last() =~= sv.take(j as int));
            assert(sv.take(j + 1).last() == sv[j as int]);
        }
        let a = sections[j].alignment();
        let eff: u128 = if a <= 1 {
            1
        } else {
            a as u128
        };
        let wc = match w_chunks_exec(&sections[j].chunks) {
            Some(v) => v,
            None => {
                proof {
                    lemma_w_sections_prefix(sv, j + 1);
                    lemma_w_chunks_nonneg(sv[j as int].chunks);
                }
                return None;
            },
        };
        acc = acc + eff + wc as u128;
        if acc > u64::MAX as u128 {
            proof {
                lemma_w_sections_prefix(sv, j + 1);
            }
            return None;
        }
    }
    proof {
        assert(sv.take(n as int) =~= sv);
    }
    Some(acc as u64)
}

/// Whether the whole link fits in the 64-bit address space: the exact
/// condition under which layout, relocation and writing stay in range.
#[verifier::loop_isolation(false)]
pub fn layout_fits(linked: &LinkedProgram, config: &Config) -> (r: bool)
    ensures
        r == fits(linked@, *config),
{
    let ghost segs = linked@;
    let ghost page = config.page_size;
    let fa = config.segment_file_align;
    let efa: u128 = if fa <= 1 {
        1
    } else {
        fa as u128
    };
    let ghost extra = 0x38 + spec_eff_align(fa as int);
    let mut acc: u128 = 0;
    let n = linked.segments.len();
    proof {
        assert(segs.take(0) =~= Seq::<SegmentV>::empty());
    }
    for i in 0..n
        invariant
            n == segs.len(),
            efa == spec_eff_align(fa as int),
            extra == 0x38 + spec_eff_align(fa as int),
            acc == w_segments(segs.take(i as int), page, extra),
            acc <= u64::MAX,
    {
        proof {
            assert(linked.segments@[i as int]@ == segs[i as int]);
            assert(segs.take(i + 1).drop_last() =~= segs.take(i as int));
            assert(segs.take(i + 1).last() == segs[i as int]);
        }
        let sa = linked.segments[i].alignment();
        let m = if sa >= config.page_size {
            sa
        } else {
            config.page_size
        };
        let effm: u128 = if m <= 1 {
            1
        } else {
            m as u128
        };
        let ws = match w_sections_exec(&linked.segments[i].sections) {
            Some(v) => v,
            None => {
                proof {
                    lemma_w_segments_prefix(segs, page, extra, i + 1);
                    lemma_w_sections_nonneg(segs[i as int].sections);
                }
                return false;
            },
        };
        acc = acc + 0x38 + efa + effm + ws as u128;
        if acc > u64::MAX as u128 {
            proof {
                lemma_w_segments_prefix(segs, page, extra, i + 1);
            }
            return false;
        }
    }
    proof {
        assert(segs.take(n as int) =~= segs);
    }
    let total: u128 = config.base_addr as u128 + 0x40 + efa + 4 * acc;
    total <= u64::MAX as u128
}


} // verus!
