//! Output sections: per-input chunks, patches over their bytes, sections,
//! segments, and the linked program.
//!
//! A chunk's bytes are an owned copy of its source section's file range and
//! are never changed; relocations install [`Patch`] records beside them. The
//! final bytes of a chunk are the original bytes with each patch overlaid at
//! its offset.

use vstd::prelude::*;

use crate::elf::SHT_PROGBITS;
use crate::error::{InvalidPatch, LinkError};
use crate::inputs::{InputCache, InputCacheV, InputId, InputObject, InputObjectV};
use crate::permissions::Permissions;
use crate::relocation::{spec_extract, Relocate, RelocateV};

verus! {

/// A run of replacement bytes at a fixed offset within a chunk.
#[derive(Debug, Clone)]
pub struct Patch {
    pub offset: usize,
    pub bytes: Vec<u8>,
}

/// Mathematical image of a [`Patch`].
pub struct PatchV {
    pub offset: usize,
    pub bytes: Seq<u8>,
}

impl View for Patch {
    type V = PatchV;

    open spec fn view(&self) -> PatchV {
        PatchV { offset: self.offset, bytes: self.bytes@ }
    }
}

/// Whether `bytes[at .. at + w]` is all zero.
pub open spec fn all_zero(bytes: Seq<u8>, at: int, w: int) -> bool {
    forall|x: int| at <= x < at + w ==> bytes[x] == 0
}

/// Whether the patch `p` covers byte index `i`.
pub open spec fn patch_covers(p: PatchV, i: int) -> bool {
    p.offset <= i < p.offset + p.bytes.len()
}

/// Whether a new patch at `at` of length `len` may not be installed beside
/// `p`: their half-open ranges intersect. A patch that starts exactly at an
/// earlier patch's end, or ends exactly at a later patch's start, merely
/// touches it and is allowed.
pub open spec fn patch_blocked(p: PatchV, at: int, len: int) -> bool {
    if p.offset < at {
        p.offset + p.bytes.len() > at
    } else {
        at + len > p.offset
    }
}

/// Whether a new patch at `at` of length `len` conflicts with any of `patches`.
pub open spec fn patch_conflicts(patches: Seq<PatchV>, at: int, len: int) -> bool {
    exists|k: int| 0 <= k < patches.len() && patch_blocked(#[trigger] patches[k], at, len)
}

/// Where a patch with offset `at` is inserted to keep `patches` sorted:
/// the number of leading patches whose offset is below `at`.
pub open spec fn patch_insert_index(patches: Seq<PatchV>, at: int) -> int
    decreases patches.len(),
{
    if patches.len() == 0 {
        0
    } else if patches.last().offset >= at {
        patch_insert_index(patches.drop_last(), at)
    } else {
        patches.len() as int
    }
}

/// `patches` with `p` inserted at its sorted position.
pub open spec fn patch_insert(patches: Seq<PatchV>, p: PatchV) -> Seq<PatchV> {
    let idx = patch_insert_index(patches, p.offset as int);
    patches.take(idx) + seq![p] + patches.skip(idx)
}

/// The linker's per-input slice of a named output section.
#[derive(Debug, Clone)]
pub struct SectionChunk {
    /// The input the bytes came from.
    pub input: InputId,
    /// Index of the source section within its input, used by relocations.
    pub section_index: u32,
    /// The source section's bytes, fixed at construction.
    pub orig_bytes: Vec<u8>,
    /// Required alignment in bytes, from the section header.
    pub alignment: u64,
    pub permissions: Permissions,
    pub relocations: Vec<Relocate>,
    /// Patches generated from relocations: sorted by offset, pairwise
    /// disjoint, and entirely within the chunk — see [`ChunkV::patches_wf`].
    /// Install patches through [`SectionChunk::patch`], which keeps that
    /// shape.
    pub patches: Vec<Patch>,
}

/// Mathematical image of a [`SectionChunk`].
pub struct ChunkV {
    pub input: InputId,
    pub section_index: u32,
    pub orig_bytes: Seq<u8>,
    pub alignment: u64,
    pub permissions: Permissions,
    pub relocations: Seq<RelocateV>,
    pub patches: Seq<PatchV>,
}

impl View for SectionChunk {
    type V = ChunkV;

    open spec fn view(&self) -> ChunkV {
        ChunkV {
            input: self.input,
            section_index: self.section_index,
            orig_bytes: self.orig_bytes@,
            alignment: self.alignment,
            permissions: self.permissions,
            relocations: self.relocations@.map_values(|r: Relocate| r@),
            patches: self.patches@.map_values(|p: Patch| p@),
        }
    }
}

impl ChunkV {
    /// The patch list is sorted by offset, patches never overlap (each ends
    /// at or before the next one starts), and each lies entirely within the
    /// chunk.
    pub open spec fn patches_wf(self) -> bool {
        &&& forall|i: int|
            0 <= i < self.patches.len()
                ==> (#[trigger] self.patches[i]).offset + self.patches[i].bytes.len()
                <= self.orig_bytes.len()
        &&& forall|i: int, j: int|
            0 <= i < j < self.patches.len()
                ==> (#[trigger] self.patches[i]).offset + self.patches[i].bytes.len()
                < (#[trigger] self.patches[j]).offset + 1
    }
}

/// The byte at index `i` of a chunk after all patches are overlaid.
pub open spec fn finalized_byte(c: ChunkV, i: int) -> u8 {
    if exists|k: int| 0 <= k < c.patches.len() && patch_covers(#[trigger] c.patches[k], i) {
        let k = choose|k: int| 0 <= k < c.patches.len() && patch_covers(#[trigger] c.patches[k], i);
        c.patches[k].bytes[i - c.patches[k].offset]
    } else {
        c.orig_bytes[i]
    }
}

/// A chunk's bytes after all patches are overlaid. Same length as the
/// original bytes.
pub open spec fn finalized(c: ChunkV) -> Seq<u8> {
    Seq::new(c.orig_bytes.len(), |i: int| finalized_byte(c, i))
}

/// Under a well-formed patch list, the patch at index `pi` decides every
/// byte it covers.
pub proof fn lemma_finalized_byte_patch(c: ChunkV, pi: int, i: int)
    requires
        c.patches_wf(),
        0 <= pi < c.patches.len(),
        patch_covers(c.patches[pi], i),
    ensures
        finalized_byte(c, i) == c.patches[pi].bytes[i - c.patches[pi].offset],
{
    let k = choose|k: int| 0 <= k < c.patches.len() && patch_covers(#[trigger] c.patches[k], i);
    if k < pi {
        assert(c.patches[k].offset + c.patches[k].bytes.len() < c.patches[pi].offset + 1);
    } else if pi < k {
        assert(c.patches[pi].offset + c.patches[pi].bytes.len() < c.patches[k].offset + 1);
    }
}

/// A byte that no patch covers keeps its original value.
pub proof fn lemma_finalized_byte_orig(c: ChunkV, i: int)
    requires
        forall|k: int| 0 <= k < c.patches.len() ==> !patch_covers(#[trigger] c.patches[k], i),
        0 <= i < c.orig_bytes.len(),
    ensures
        finalized_byte(c, i) == c.orig_bytes[i],
{
}

proof fn lemma_patch_insert_index_of(patches: Seq<PatchV>, at: int, idx: int)
    requires
        forall|i: int, j: int|
            0 <= i < j < patches.len()
                ==> (#[trigger] patches[i]).offset <= (#[trigger] patches[j]).offset,
        0 <= idx <= patches.len(),
        forall|j: int| 0 <= j < idx ==> (#[trigger] patches[j]).offset < at,
        idx < patches.len() ==> patches[idx as int].offset >= at,
    ensures
        patch_insert_index(patches, at) == idx,
    decreases patches.len(),
{
    if patches.len() == 0 {
    } else if patches.last().offset >= at {
        assert(idx < patches.len());
        lemma_patch_insert_index_of(patches.drop_last(), at, idx);
    } else {
        assert(idx == patches.len());
    }
}

impl SectionChunk {
    /// A fresh chunk with no patches.
    pub fn new(
        input: InputId,
        section_index: u32,
        orig_bytes: Vec<u8>,
        alignment: u64,
        permissions: Permissions,
        relocations: Vec<Relocate>,
    ) -> (r: SectionChunk)
        ensures
            r@ == (ChunkV {
                input,
                section_index,
                orig_bytes: orig_bytes@,
                alignment,
                permissions,
                relocations: relocations@.map_values(|x: Relocate| x@),
                patches: Seq::<PatchV>::empty(),
            }),
            r@.patches_wf(),
    {
        let r = SectionChunk {
            input,
            section_index,
            orig_bytes,
            alignment,
            permissions,
            relocations,
            patches: Vec::new(),
        };
        proof {
            assert(r@.patches =~= Seq::<PatchV>::empty());
        }
        r
    }

    /// The chunk's size in bytes; patching never changes it.
    pub fn size(&self) -> (r: u64)
        ensures
            r == self@.orig_bytes.len(),
    {
        self.orig_bytes.len() as u64
    }

    /// Install `bytes` as a patch at offset `at`.
    ///
    /// Rejected exactly when the patch would reach past the end of the chunk
    /// (`NotInRange`) or conflict with an already installed patch
    /// (`Overlapping`); a rejected patch leaves the chunk unchanged.
    pub fn patch(&mut self, at: usize, bytes: Vec<u8>) -> (r: Result<(), InvalidPatch>)
        requires
            old(self)@.patches_wf(),
        ensures
            final(self)@.patches_wf(),
            match r {
                Ok(()) => {
                    &&& at + bytes@.len() <= old(self)@.orig_bytes.len()
                    &&& !patch_conflicts(old(self)@.patches, at as int, bytes@.len() as int)
                    &&& final(self)@ == (ChunkV {
                        patches: patch_insert(
                            old(self)@.patches,
                            PatchV { offset: at, bytes: bytes@ },
                        ),
                        ..old(self)@
                    })
                },
                Err(e) => {
                    &&& *final(self) == *old(self)
                    &&& if at + bytes@.len() > old(self)@.orig_bytes.len() {
                        e == InvalidPatch::NotInRange
                    } else {
                        e == InvalidPatch::Overlapping && patch_conflicts(
                            old(self)@.patches,
                            at as int,
                            bytes@.len() as int,
                        )
                    }
                },
            },
    {
        if bytes.len() > self.orig_bytes.len() || at > self.orig_bytes.len() - bytes.len() {
            return Err(InvalidPatch::NotInRange);
        }

        let ghost old_patches = self@.patches;

        let mut idx: usize = 0;
        while idx < self.patches.len() && self.patches[idx].offset < at
            invariant
                idx <= self.patches.len(),
                forall|j: int| 0 <= j < idx ==> (#[trigger] old_patches[j]).offset < at,
                old_patches == self@.patches,
                self == old(self),
            decreases self.patches.len() - idx,
        {
            idx += 1;
        }

        proof {
            assert forall|i: int, j: int|
                0 <= i < j < old_patches.len() implies (#[trigger] old_patches[i]).offset
                <= (#[trigger] old_patches[j]).offset by {
                assert(old_patches[i].offset + old_patches[i].bytes.len()
                    < old_patches[j].offset + 1);
            }
            lemma_patch_insert_index_of(old_patches, at as int, idx as int);
        }

        if idx > 0 {
            proof {
                assert(old_patches[idx - 1] == self.patches@[idx - 1]@);
                assert(old_patches[idx - 1].offset + old_patches[idx - 1].bytes.len()
                    <= self@.orig_bytes.len());
            }
            let prev = &self.patches[idx - 1];
            if prev.offset + prev.bytes.len() > at {
                proof {
                    assert(patch_blocked(old_patches[idx - 1], at as int, bytes@.len() as int));
                }
                return Err(InvalidPatch::Overlapping);
            }
        }
        if idx < self.patches.len() {
            proof {
                assert(old_patches[idx as int] == self.patches@[idx as int]@);
            }
            let next = &self.patches[idx];
            if at + bytes.len() > next.offset {
                proof {
                    assert(patch_blocked(old_patches[idx as int], at as int, bytes@.len() as int));
                }
                return Err(InvalidPatch::Overlapping);
            }
        }

        // No installed patch conflicts: the ones before `idx` end before the
        // previous one does, the ones after start at or past the next one.
        proof {
            assert forall|k: int|
                0 <= k < old_patches.len() implies !patch_blocked(
                #[trigger] old_patches[k],
                at as int,
                bytes@.len() as int,
            ) by {
                if k < idx - 1 {
                    assert(old_patches[k].offset + old_patches[k].bytes.len()
                        < old_patches[idx - 1].offset + 1);
                }
                if idx < k {
                    assert(old_patches[idx as int].offset + old_patches[idx as int].bytes.len()
                        < old_patches[k].offset + 1);
                }
            }
        }

        self.patches.insert(idx, Patch { offset: at, bytes });

        proof {
            let p = PatchV { offset: at, bytes: self@.patches[idx as int].bytes };
            assert(self@.patches =~= patch_insert(old_patches, p));
            let np = self@.patches;
            assert forall|i: int, j: int|
                0 <= i < j < np.len() implies (#[trigger] np[i]).offset + np[i].bytes.len()
                < (#[trigger] np[j]).offset + 1 by {
                if i < idx && j == idx {
                    assert(np[i] == old_patches[i]);
                    if i < idx - 1 {
                        assert(old_patches[i].offset + old_patches[i].bytes.len()
                            < old_patches[idx - 1].offset + 1);
                    }
                } else if i == idx && idx < j {
                    assert(np[j] == old_patches[j - 1]);
                    if idx < j - 1 {
                        assert(old_patches[idx as int].offset
                            + old_patches[idx as int].bytes.len()
                            < old_patches[j - 1].offset + 1);
                    }
                } else if j < idx {
                    assert(np[i] == old_patches[i] && np[j] == old_patches[j]);
                } else if idx < i {
                    assert(np[i] == old_patches[i - 1] && np[j] == old_patches[j - 1]);
                } else {
                    assert(i < idx && idx < j);
                    assert(np[i] == old_patches[i] && np[j] == old_patches[j - 1]);
                }
            }
        }

        Ok(())
    }

    /// Append the chunk's finalized bytes — the original bytes with every
    /// patch overlaid — to `out`.
    pub fn write_finalized(&self, out: &mut Vec<u8>)
        requires
            self@.patches_wf(),
        ensures
            final(out)@ == old(out)@ + finalized(self@),
    {
        let ghost base = old(out)@;
        let ghost cv = self@;
        proof {
            assert(self.orig_bytes.len() == self.orig_bytes@.len());
        }
        let mut cursor: usize = 0;
        let n = self.patches.len();

        for pi in 0..n
            invariant
                n == self.patches.len(),
                cv == self@,
                cv.patches_wf(),
                cv.orig_bytes.len() <= usize::MAX,
                cursor <= cv.orig_bytes.len(),
                forall|k: int|
                    0 <= k < pi ==> (#[trigger] cv.patches[k]).offset + cv.patches[k].bytes.len()
                        <= cursor,
                pi < n ==> cursor <= cv.patches[pi as int].offset,
                out@ == base + finalized(cv).take(cursor as int),
        {
            let p_offset = self.patches[pi].offset;
            let p_len = self.patches[pi].bytes.len();
            proof {
                assert(cv.patches[pi as int].offset + cv.patches[pi as int].bytes.len()
                    <= cv.orig_bytes.len());
            }

            // Original bytes up to the start of this patch.
            while cursor < p_offset
                invariant
                    n == self.patches.len(),
                    cv == self@,
                    cv.patches_wf(),
                    cv.orig_bytes.len() <= usize::MAX,
                    pi < n,
                    p_offset == cv.patches[pi as int].offset,
                    p_len == cv.patches[pi as int].bytes.len(),
                    p_offset + p_len <= cv.orig_bytes.len(),
                    cursor <= p_offset,
                    forall|k: int|
                        0 <= k < pi ==> (#[trigger] cv.patches[k]).offset
                            + cv.patches[k].bytes.len() <= cursor,
                    out@ == base + finalized(cv).take(cursor as int),
                decreases p_offset - cursor,
            {
                proof {
                    assert forall|k: int|
                        0 <= k < cv.patches.len() implies !patch_covers(
                        #[trigger] cv.patches[k],
                        cursor as int,
                    ) by {
                        if k >= pi {
                            if k > pi {
                                assert(cv.patches[pi as int].offset
                                    + cv.patches[pi as int].bytes.len()
                                    < cv.patches[k].offset + 1);
                            }
                        }
                    }
                    lemma_finalized_byte_orig(cv, cursor as int);
                }
                out.push(self.orig_bytes[cursor]);
                cursor += 1;
                proof {
                    assert(out@ =~= base + finalized(cv).take(cursor as int));
                }
            }

            // The patch's own bytes.
            let mut bi: usize = 0;
            while bi < p_len
                invariant
                    n == self.patches.len(),
                    cv == self@,
                    cv.patches_wf(),
                    cv.orig_bytes.len() <= usize::MAX,
                    pi < n,
                    p_offset == cv.patches[pi as int].offset,
                    p_len == cv.patches[pi as int].bytes.len(),
                    p_offset + p_len <= cv.orig_bytes.len(),
                    bi <= p_len,
                    cursor == p_offset + bi,
                    out@ == base + finalized(cv).take(cursor as int),
                decreases p_len - bi,
            {
                proof {
                    lemma_finalized_byte_patch(cv, pi as int, cursor as int);
                }
                out.push(self.patches[pi].bytes[bi]);
                bi += 1;
                cursor += 1;
                proof {
                    assert(out@ =~= base + finalized(cv).take(cursor as int));
                }
            }

            proof {
                assert forall|k: int|
                    0 <= k < pi + 1 implies (#[trigger] cv.patches[k]).offset
                    + cv.patches[k].bytes.len() <= cursor by {
                    if k < pi {
                        assert(cv.patches[k].offset + cv.patches[k].bytes.len()
                            < cv.patches[pi as int].offset + 1);
                    }
                }
                if pi + 1 < n {
                    assert(cv.patches[pi as int].offset + cv.patches[pi as int].bytes.len()
                        < cv.patches[pi + 1].offset + 1);
                }
            }
        }

        // Original bytes after the last patch.
        let end = self.orig_bytes.len();
        while cursor < end
            invariant
                cv == self@,
                cv.patches_wf(),
                cv.orig_bytes.len() <= usize::MAX,
                end == cv.orig_bytes.len(),
                cursor <= end,
                forall|k: int|
                    0 <= k < cv.patches.len() ==> (#[trigger] cv.patches[k]).offset
                        + cv.patches[k].bytes.len() <= cursor,
                out@ == base + finalized(cv).take(cursor as int),
            decreases end - cursor,
        {
            proof {
                assert forall|k: int|
                    0 <= k < cv.patches.len() implies !patch_covers(
                    #[trigger] cv.patches[k],
                    cursor as int,
                ) by {}
                lemma_finalized_byte_orig(cv, cursor as int);
            }
            out.push(self.orig_bytes[cursor]);
            cursor += 1;
            proof {
                assert(out@ =~= base + finalized(cv).take(cursor as int));
            }
        }

        proof {
            assert(final(out)@ =~= base + finalized(cv));
        }
    }
}

/// A named output section: the chunks of every input that contributes to it.
#[derive(Debug)]
pub struct Section {
    pub name: String,
    pub chunks: Vec<SectionChunk>,
    pub permissions: Permissions,
}

/// Mathematical image of a [`Section`].
pub struct SectionV {
    pub name: Seq<char>,
    pub chunks: Seq<ChunkV>,
    pub permissions: Permissions,
}

impl View for Section {
    type V = SectionV;

    open spec fn view(&self) -> SectionV {
        SectionV {
            name: self.name@,
            chunks: self.chunks@.map_values(|c: SectionChunk| c@),
            permissions: self.permissions,
        }
    }
}

/// A loadable region, emitted as one program header.
#[derive(Debug)]
pub struct Segment {
    pub sections: Vec<Section>,
}

/// Mathematical image of a [`Segment`].
pub struct SegmentV {
    pub sections: Seq<SectionV>,
}

impl View for Segment {
    type V = SegmentV;

    open spec fn view(&self) -> SegmentV {
        SegmentV { sections: self.sections@.map_values(|s: Section| s@) }
    }
}

/// The ordered segments of the link: the loadable portion of the output.
#[derive(Debug)]
pub struct LinkedProgram {
    pub segments: Vec<Segment>,
}

impl View for LinkedProgram {
    type V = Seq<SegmentV>;

    open spec fn view(&self) -> Seq<SegmentV> {
        self.segments@.map_values(|s: Segment| s@)
    }
}

/// One chunk of the program together with its place and its base-relative
/// addresses, as yielded by [`LinkedProgram::iter_with_positions`].
#[derive(Debug, Clone, Copy, PartialEq, Eq, Structural)]
pub struct ItChunk {
    pub segment_index: usize,
    pub section_index: usize,
    pub chunk_index: usize,
    pub segment_start: u64,
    pub section_start: u64,
    pub chunk_start: u64,
}

// ---------------------------------------------------------------------------
// Section assembly
// ---------------------------------------------------------------------------

/// A copy of `bytes[start..start + len]`.
fn copy_range(bytes: &Vec<u8>, start: usize, len: usize) -> (r: Vec<u8>)
    requires
        start + len <= bytes@.len(),
    ensures
        r@ == bytes@.subrange(start as int, start + len),
{
    let bl = bytes.len();
    let mut r: Vec<u8> = Vec::new();
    for i in 0..len
        invariant
            bl == bytes@.len(),
            start + len <= bytes@.len(),
            r@ == bytes@.subrange(start as int, start + i),
    {
        r.push(bytes[start + i]);
        proof {
            assert(r@ =~= bytes@.subrange(start as int, start + i + 1));
        }
    }
    r
}

/// The chunk carrying section `i` of `obj`: its file-range bytes, its
/// alignment, permissions read from the section flags (always readable),
/// and the relocations that apply to it.
pub open spec fn spec_chunk_of(input: InputId, obj: InputObjectV, i: int) -> ChunkV {
    let s = obj.sections[i];
    ChunkV {
        input,
        section_index: i as u32,
        orig_bytes: obj.bytes.subrange(s.sh_offset as int, s.sh_offset + s.sh_size),
        alignment: s.sh_addralign,
        permissions: Permissions {
            read: true,
            write: s.sh_flags & (crate::elf::SHF_WRITE as u64) != 0,
            execute: s.sh_flags & (crate::elf::SHF_EXECINSTR as u64) != 0,
        },
        relocations: spec_extract(obj, i as u32),
        patches: Seq::empty(),
    }
}

/// The chunks contributed by the first `n` sections of `obj` to the output
/// section called `name`, or `name` itself if a contributing section asks
/// for a fixed address.
pub open spec fn spec_chunks_from(
    input: InputId,
    obj: InputObjectV,
    name: Seq<char>,
    n: int,
) -> Result<Seq<ChunkV>, Seq<char>>
    decreases n,
{
    if n <= 0 {
        Ok(Seq::empty())
    } else {
        match spec_chunks_from(input, obj, name, n - 1) {
            Err(e) => Err(e),
            Ok(cs) => {
                let s = obj.sections[n - 1];
                if s.sh_type == SHT_PROGBITS && s.name == name {
                    if s.sh_addr != 0 {
                        Err(name)
                    } else {
                        Ok(cs.push(spec_chunk_of(input, obj, n - 1)))
                    }
                } else {
                    Ok(cs)
                }
            },
        }
    }
}

/// The chunks `obj` contributes to the output section called `name`.
pub open spec fn spec_section_chunks(input: InputId, obj: InputObjectV, name: Seq<char>) -> Result<
    Seq<ChunkV>,
    Seq<char>,
> {
    spec_chunks_from(input, obj, name, obj.sections.len() as int)
}

proof fn lemma_chunks_from_err_persists(
    input: InputId,
    obj: InputObjectV,
    name: Seq<char>,
    n: int,
    m: int,
)
    requires
        0 <= n <= m,
        spec_chunks_from(input, obj, name, n) is Err,
    ensures
        spec_chunks_from(input, obj, name, m) == spec_chunks_from(input, obj, name, n),
    decreases m,
{
    if m > n {
        lemma_chunks_from_err_persists(input, obj, name, n, m - 1);
    }
}

/// Collect the chunks one input contributes to the output section called
/// `section_name`, in section-header order.
///
/// Fails exactly when a contributing section has a non-zero address.
#[verifier::loop_isolation(false)]
pub fn build_section_from(
    input: InputId,
    obj: &InputObject,
    section_name: &String,
) -> (r: Result<Vec<SectionChunk>, LinkError>)
    requires
        obj@.wf(),
    ensures
        match r {
            Ok(v) => spec_section_chunks(input, obj@, section_name@) == Ok::<
                Seq<ChunkV>,
                Seq<char>,
            >(v@.map_values(|c: SectionChunk| c@)),
            Err(e) => e matches LinkError::FixedAddressSection { name: n }
                && spec_section_chunks(input, obj@, section_name@) == Err::<
                Seq<ChunkV>,
                Seq<char>,
            >(n@),
        },
{
    let ghost ov = obj@;
    let ghost name = section_name@;
    let mut result: Vec<SectionChunk> = Vec::new();
    let bl = obj.bytes.len();
    let n = obj.sections.len();
    proof {
        assert(ov.bytes.len() == bl);
        assert(ov.sections.len() == n);
        assert(result@.map_values(|c: SectionChunk| c@) =~= Seq::<ChunkV>::empty());
    }
    for i in 0..n
        invariant
            bl == ov.bytes.len(),
            spec_chunks_from(input, ov, name, i as int) == Ok::<Seq<ChunkV>, Seq<char>>(
                result@.map_values(|c: SectionChunk| c@),
            ),
    {
        proof {
            assert(obj.sections@[i as int]@ == ov.sections[i as int]);
        }
        let s = &obj.sections[i];
        if s.sh_type == SHT_PROGBITS && s.name == *section_name {
            if s.sh_addr != 0 {
                proof {
                    lemma_chunks_from_err_persists(input, ov, name, i + 1, n as int);
                }
                return Err(LinkError::FixedAddressSection { name: section_name.clone() });
            }
            proof {
                assert(ov.sections[i as int].sh_offset + ov.sections[i as int].sh_size
                    <= ov.bytes.len());
                assert(ov.sections[i as int].sh_offset <= bl);
                assert(ov.sections[i as int].sh_size <= bl);
            }
            let bytes = copy_range(&obj.bytes, s.sh_offset as usize, s.sh_size as usize);
            proof {
                assert(bytes@ == ov.bytes.subrange(
                    ov.sections[i as int].sh_offset as int,
                    ov.sections[i as int].sh_offset + ov.sections[i as int].sh_size,
                ));
            }
            let relocations = crate::relocation::extract(obj, i as u32);
            let ghost prev = result@;
            let chunk = SectionChunk::new(
                input,
                i as u32,
                bytes,
                s.sh_addralign,
                Permissions {
                    read: true,
                    write: s.sh_flags & crate::elf::SHF_WRITE != 0,
                    execute: s.sh_flags & crate::elf::SHF_EXECINSTR != 0,
                },
                relocations,
            );
            result.push(chunk);
            proof {
                assert(result@.last()@ == spec_chunk_of(input, ov, i as int));
                assert(result@.map_values(|c: SectionChunk| c@) =~= prev.map_values(
                    |c: SectionChunk| c@,
                ).push(spec_chunk_of(input, ov, i as int)));
            }
        }
    }
    proof {
        assert(ov.sections.len() == n);
    }
    Ok(result)
}

/// The chunks the first `k` inputs of the cache contribute to the output
/// section called `name`, in input order.
pub open spec fn spec_group_upto(cache: InputCacheV, name: Seq<char>, k: int) -> Result<
    Seq<ChunkV>,
    Seq<char>,
>
    decreases k,
{
    if k <= 0 {
        Ok(Seq::empty())
    } else {
        match spec_group_upto(cache, name, k - 1) {
            Err(e) => Err(e),
            Ok(cs) => {
                let id = cache.ids()[k - 1];
                match spec_section_chunks(id, cache.obj(id), name) {
                    Err(e) => Err(e),
                    Ok(more) => Ok(cs + more),
                }
            },
        }
    }
}

/// The chunks every input contributes to the output section called `name`.
pub open spec fn spec_group_chunks(cache: InputCacheV, name: Seq<char>) -> Result<
    Seq<ChunkV>,
    Seq<char>,
> {
    spec_group_upto(cache, name, cache.ids().len() as int)
}

proof fn lemma_group_upto_err_persists(cache: InputCacheV, name: Seq<char>, k: int, m: int)
    requires
        0 <= k <= m,
        spec_group_upto(cache, name, k) is Err,
    ensures
        spec_group_upto(cache, name, m) == spec_group_upto(cache, name, k),
    decreases m,
{
    if m > k {
        lemma_group_upto_err_persists(cache, name, k, m - 1);
    }
}

/// Collect the chunks of every input for the output section called
/// `section_name`, inputs in order.
#[verifier::loop_isolation(false)]
pub fn build_section_group(
    inputs: &InputCache,
    section_name: &String,
) -> (r: Result<Vec<SectionChunk>, LinkError>)
    requires
        inputs@.wf(),
    ensures
        match r {
            Ok(v) => spec_group_chunks(inputs@, section_name@) == Ok::<Seq<ChunkV>, Seq<char>>(
                v@.map_values(|c: SectionChunk| c@),
            ),
            Err(e) => e matches LinkError::FixedAddressSection { name: n } && spec_group_chunks(
                inputs@,
                section_name@,
            ) == Err::<Seq<ChunkV>, Seq<char>>(n@),
        },
{
    let ghost name = section_name@;
    let ids = inputs.iter_ids();
    proof {
        let nfiles = inputs.files.len();
        assert(inputs@.files.len() == nfiles);
        inputs@.lemma_ids_contained();
    }
    let mut result: Vec<SectionChunk> = Vec::new();
    let n = ids.len();
    proof {
        assert(result@.map_values(|c: SectionChunk| c@) =~= Seq::<ChunkV>::empty());
    }
    for k in 0..n
        invariant
            spec_group_upto(inputs@, name, k as int) == Ok::<Seq<ChunkV>, Seq<char>>(
                result@.map_values(|c: SectionChunk| c@),
            ),
    {
        let id = ids[k];
        let obj = inputs.get_elf(id);
        let ghost prev = result@;
        match build_section_from(id, obj, section_name) {
            Ok(mut addition) => {
                let ghost addv = addition@;
                result.append(&mut addition);
                proof {
                    assert(result@.map_values(|c: SectionChunk| c@) =~= prev.map_values(
                        |c: SectionChunk| c@,
                    ) + addv.map_values(|c: SectionChunk| c@));
                }
            }
            Err(e) => {
                proof {
                    lemma_group_upto_err_persists(inputs@, name, k + 1, n as int);
                }
                return Err(e);
            }
        }
    }
    Ok(result)
}

// ---------------------------------------------------------------------------
// Combining sections and packing segments
// ---------------------------------------------------------------------------

/// Whether `s` begins with `p`.
pub open spec fn str_has_prefix(s: Seq<char>, p: Seq<char>) -> bool {
    s.len() >= p.len() && s.subrange(0, p.len() as int) == p
}

/// Whether `s` begins with `prefix`.
pub(crate) fn starts_with(s: &String, prefix: &String) -> (r: bool)
    ensures
        r == str_has_prefix(s@, prefix@),
{
    let sn = s.as_str().unicode_len();
    let pn = prefix.as_str().unicode_len();
    if sn < pn {
        return false;
    }
    for i in 0..pn
        invariant
            sn == s@.len(),
            pn == prefix@.len(),
            pn <= sn,
            forall|j: int| 0 <= j < i ==> s@[j] == prefix@[j],
    {
        if s.as_str().get_char(i) != prefix.as_str().get_char(i) {
            proof {
                assert(s@.subrange(0, pn as int)[i as int] != prefix@[i as int]);
            }
            return false;
        }
    }
    proof {
        assert(s@.subrange(0, pn as int) =~= prefix@);
    }
    true
}

/// Whether some element of `names` is `g`.
pub(crate) fn contains_string(names: &Vec<String>, g: &String) -> (r: bool)
    ensures
        r == names@.map_values(|x: String| x@).contains(g@),
{
    let ghost nv = names@.map_values(|x: String| x@);
    let n = names.len();
    for k in 0..n
        invariant
            n == names.len(),
            nv == names@.map_values(|x: String| x@),
            forall|j: int| 0 <= j < k ==> nv[j] != g@,
    {
        if names[k] == *g {
            proof {
                assert(nv[k as int] == g@);
            }
            return true;
        }
    }
    proof {
        if nv.contains(g@) {
            let w = choose|w: int| 0 <= w < nv.len() && nv[w] == g@;
        }
    }
    false
}

/// The output section called `name`: every input's chunks for it, in input
/// order, under the default permissions (a section's effective permissions
/// are computed from its chunks).
pub open spec fn spec_section_named(cache: InputCacheV, name: Seq<char>) -> Result<
    SectionV,
    Seq<char>,
> {
    match spec_group_chunks(cache, name) {
        Err(e) => Err(e),
        Ok(cs) => Ok(
            SectionV {
                name,
                chunks: cs,
                permissions: Permissions { read: false, write: false, execute: false },
            },
        ),
    }
}

/// `acc` extended with one section for each of the first `k` observed names
/// that begins with `gdot`, in observed order.
pub open spec fn spec_add_prefixed(
    acc: Seq<SectionV>,
    cache: InputCacheV,
    names: Seq<Seq<char>>,
    gdot: Seq<char>,
    k: int,
) -> Result<Seq<SectionV>, Seq<char>>
    decreases k,
{
    if k <= 0 {
        Ok(acc)
    } else {
        match spec_add_prefixed(acc, cache, names, gdot, k - 1) {
            Err(e) => Err(e),
            Ok(a) => {
                if str_has_prefix(names[k - 1], gdot) {
                    match spec_section_named(cache, names[k - 1]) {
                        Err(e) => Err(e),
                        Ok(sec) => Ok(a.push(sec)),
                    }
                } else {
                    Ok(a)
                }
            },
        }
    }
}

/// `acc` extended with the sections of one group: the exact name `g` first
/// if it was observed, then every observed name beginning with `gdot`.
pub open spec fn spec_add_group(
    acc: Seq<SectionV>,
    cache: InputCacheV,
    names: Seq<Seq<char>>,
    g: Seq<char>,
    gdot: Seq<char>,
) -> Result<Seq<SectionV>, Seq<char>> {
    let step1 = if names.contains(g) {
        match spec_section_named(cache, g) {
            Err(e) => Err(e),
            Ok(sec) => Ok(acc.push(sec)),
        }
    } else {
        Ok(acc)
    };
    match step1 {
        Err(e) => Err(e),
        Ok(a) => spec_add_prefixed(a, cache, names, gdot, names.len() as int),
    }
}

/// The combined output sections, in fixed group order: `.entry`, `.text`,
/// `.rodata`, each group being the exact name then its prefixed names.
pub open spec fn spec_combine(cache: InputCacheV, names: Seq<Seq<char>>) -> Result<
    Seq<SectionV>,
    Seq<char>,
> {
    match spec_add_group(Seq::empty(), cache, names, ".entry"@, ".entry."@) {
        Err(e) => Err(e),
        Ok(a) => match spec_add_group(a, cache, names, ".text"@, ".text."@) {
            Err(e) => Err(e),
            Ok(b) => spec_add_group(b, cache, names, ".rodata"@, ".rodata."@),
        },
    }
}

proof fn lemma_add_prefixed_err_persists(
    acc: Seq<SectionV>,
    cache: InputCacheV,
    names: Seq<Seq<char>>,
    gdot: Seq<char>,
    k: int,
    m: int,
)
    requires
        0 <= k <= m,
        spec_add_prefixed(acc, cache, names, gdot, k) is Err,
    ensures
        spec_add_prefixed(acc, cache, names, gdot, m) == spec_add_prefixed(
            acc,
            cache,
            names,
            gdot,
            k,
        ),
    decreases m,
{
    if m > k {
        lemma_add_prefixed_err_persists(acc, cache, names, gdot, k, m - 1);
    }
}

/// Build one named output section.
fn build_section_named(inputs: &InputCache, name: &String) -> (r: Result<Section, LinkError>)
    requires
        inputs@.wf(),
    ensures
        match r {
            Ok(sec) => spec_section_named(inputs@, name@) == Ok::<SectionV, Seq<char>>(sec@),
            Err(e) => e matches LinkError::FixedAddressSection { name: n } && spec_section_named(
                inputs@,
                name@,
            ) == Err::<SectionV, Seq<char>>(n@),
        },
{
    let chunks = build_section_group(inputs, name)?;
    let sec = Section {
        name: name.clone(),
        chunks,
        permissions: Permissions { read: false, write: false, execute: false },
    };
    Ok(sec)
}

/// Append one group's sections to `result`: the exact name `g` if observed,
/// then every observed name beginning with `gdot`, in observed order.
#[verifier::loop_isolation(false)]
fn add_group(
    result: Vec<Section>,
    inputs: &InputCache,
    section_names: &Vec<String>,
    g: &String,
    gdot: &String,
) -> (r: Result<Vec<Section>, LinkError>)
    requires
        inputs@.wf(),
    ensures
        match r {
            Ok(v) => spec_add_group(
                result@.map_values(|x: Section| x@),
                inputs@,
                section_names@.map_values(|x: String| x@),
                g@,
                gdot@,
            ) == Ok::<Seq<SectionV>, Seq<char>>(v@.map_values(|x: Section| x@)),
            Err(e) => e matches LinkError::FixedAddressSection { name: n } && spec_add_group(
                result@.map_values(|x: Section| x@),
                inputs@,
                section_names@.map_values(|x: String| x@),
                g@,
                gdot@,
            ) == Err::<Seq<SectionV>, Seq<char>>(n@),
        },
{
    let ghost acc0 = result@.map_values(|x: Section| x@);
    let ghost names = section_names@.map_values(|x: String| x@);
    let mut result = result;

    if contains_string(section_names, g) {
        match build_section_named(inputs, g) {
            Ok(sec) => {
                let ghost prev = result@.map_values(|x: Section| x@);
                result.push(sec);
                proof {
                    assert(result@.map_values(|x: Section| x@) =~= prev.push(
                        result@.last()@,
                    ));
                }
            }
            Err(e) => {
                return Err(e);
            }
        }
    }
    let ghost acc1 = result@.map_values(|x: Section| x@);

    let n = section_names.len();
    for k in 0..n
        invariant
            spec_add_prefixed(acc1, inputs@, names, gdot@, k as int) == Ok::<
                Seq<SectionV>,
                Seq<char>,
            >(result@.map_values(|x: Section| x@)),
    {
        proof {
            assert(section_names@[k as int]@ == names[k as int]);
        }
        if starts_with(&section_names[k], gdot) {
            match build_section_named(inputs, &section_names[k]) {
                Ok(sec) => {
                    let ghost prev = result@.map_values(|x: Section| x@);
                    result.push(sec);
                    proof {
                        assert(result@.map_values(|x: Section| x@) =~= prev.push(
                            result@.last()@,
                        ));
                    }
                }
                Err(e) => {
                    proof {
                        lemma_add_prefixed_err_persists(
                            acc1,
                            inputs@,
                            names,
                            gdot@,
                            k + 1,
                            n as int,
                        );
                    }
                    return Err(e);
                }
            }
        }
    }
    Ok(result)
}

/// Combine the chunks of every input into output sections, grouped and
/// ordered by the fixed name groups `.entry`, `.text`, `.rodata`: for each
/// group the exactly matching observed name comes first, then every
/// observed name extending it with a dot, in observed order.
///
/// Fails exactly when a contributing input section asks for a fixed
/// address, naming the section.
pub fn combine_sections(
    config: &crate::config::Config,
    inputs: &InputCache,
    section_names: &Vec<String>,
) -> (r: Result<Vec<Section>, LinkError>)
    requires
        inputs@.wf(),
    ensures
        match r {
            Ok(v) => spec_combine(inputs@, section_names@.map_values(|x: String| x@)) == Ok::<
                Seq<SectionV>,
                Seq<char>,
            >(v@.map_values(|x: Section| x@)),
            Err(e) => e matches LinkError::FixedAddressSection { name: n } && spec_combine(
                inputs@,
                section_names@.map_values(|x: String| x@),
            ) == Err::<Seq<SectionV>, Seq<char>>(n@),
        },
{
    let _ = config;
    let result: Vec<Section> = Vec::new();
    proof {
        assert(result@.map_values(|x: Section| x@) =~= Seq::<SectionV>::empty());
    }
    let g1 = String::from_str(".entry");
    let d1 = String::from_str(".entry.");
    let result = add_group(result, inputs, section_names, &g1, &d1)?;
    let g2 = String::from_str(".text");
    let d2 = String::from_str(".text.");
    let result = add_group(result, inputs, section_names, &g2, &d2)?;
    let g3 = String::from_str(".rodata");
    let d3 = String::from_str(".rodata.");
    let result = add_group(result, inputs, section_names, &g3, &d3)?;
    Ok(result)
}


/// The fixed permission palette of segments, in output order: r-x, r--,
/// rw-, rwx.
pub open spec fn palette() -> Seq<Permissions> {
    seq![
        Permissions { read: true, write: false, execute: true },
        Permissions { read: true, write: false, execute: false },
        Permissions { read: true, write: true, execute: false },
        Permissions { read: true, write: true, execute: true },
    ]
}

/// The segments of the first `p` palette entries: for each entry, in
/// palette order, one segment holding every section with exactly those
/// permissions, in section order; empty segments are dropped.
pub open spec fn packed_upto(ss: Seq<SectionV>, p: int) -> Seq<SegmentV>
    decreases p,
{
    if p <= 0 {
        Seq::empty()
    } else {
        let f = ss.filter(
            |x: SectionV| crate::layout::section_perms(x) == palette()[p - 1],
        );
        packed_upto(ss, p - 1) + if f.len() > 0 {
            seq![SegmentV { sections: f }]
        } else {
            Seq::empty()
        }
    }
}

/// Whether every section's permissions match some palette entry.
pub open spec fn all_in_palette(ss: Seq<SectionV>) -> bool {
    forall|k: int|
        0 <= k < ss.len() ==> palette().contains(
            crate::layout::section_perms(#[trigger] ss[k]),
        )
}

/// The program after packing: one segment per palette entry with matching
/// sections, or failure if a section matches no entry.
pub open spec fn spec_pack(ss: Seq<SectionV>) -> Result<Seq<SegmentV>, ()> {
    if all_in_palette(ss) {
        Ok(packed_upto(ss, 4))
    } else {
        Err(())
    }
}

proof fn lemma_filter_filter<A>(s: Seq<A>, p: spec_fn(A) -> bool, q: spec_fn(A) -> bool)
    ensures
        s.filter(p).filter(q) == s.filter(|x: A| p(x) && q(x)),
    decreases s.len(),
{
    reveal(Seq::filter);
    if s.len() > 0 {
        lemma_filter_filter(s.drop_last(), p, q);
        if p(s.last()) {
            assert(s.filter(p).drop_last() =~= s.drop_last().filter(p));
        }
    }
}

proof fn lemma_filter_equiv<A>(s: Seq<A>, p: spec_fn(A) -> bool, q: spec_fn(A) -> bool)
    requires
        forall|i: int| 0 <= i < s.len() ==> (p(#[trigger] s[i]) <==> q(s[i])),
    ensures
        s.filter(p) == s.filter(q),
    decreases s.len(),
{
    reveal(Seq::filter);
    if s.len() > 0 {
        lemma_filter_equiv(s.drop_last(), p, q);
    }
}

proof fn lemma_filter_all_false<A>(s: Seq<A>, p: spec_fn(A) -> bool)
    requires
        forall|i: int| 0 <= i < s.len() ==> !p(#[trigger] s[i]),
    ensures
        s.filter(p).len() == 0,
    decreases s.len(),
{
    reveal(Seq::filter);
    if s.len() > 0 {
        lemma_filter_all_false(s.drop_last(), p);
    }
}

proof fn lemma_filter_nonempty_witness<A>(s: Seq<A>, p: spec_fn(A) -> bool) -> (w: int)
    requires
        s.filter(p).len() > 0,
    ensures
        0 <= w < s.len(),
        p(s[w]),
    decreases s.len(),
{
    reveal(Seq::filter);
    if p(s.last()) {
        s.len() - 1
    } else {
        lemma_filter_nonempty_witness(s.drop_last(), p)
    }
}

/// Split the sections into those whose permissions equal `p`, and the rest,
/// both in input order.
#[verifier::loop_isolation(false)]
fn split_by_perm(sections: Vec<Section>, p: Permissions) -> (r: (Vec<Section>, Vec<Section>))
    ensures
        r.0@.map_values(|x: Section| x@) == sections@.map_values(|x: Section| x@).filter(
            |x: SectionV| crate::layout::section_perms(x) == p,
        ),
        r.1@.map_values(|x: Section| x@) == sections@.map_values(|x: Section| x@).filter(
            |x: SectionV| crate::layout::section_perms(x) != p,
        ),
{
    let ghost orig = sections@.map_values(|x: Section| x@);
    let ghost ppred = |x: SectionV| crate::layout::section_perms(x) == p;
    let ghost npred = |x: SectionV| crate::layout::section_perms(x) != p;
    let mut rem = sections;
    let mut matched: Vec<Section> = Vec::new();
    let mut rest: Vec<Section> = Vec::new();
    let ghost mut k: int = 0;
    proof {
        reveal(Seq::filter);
        assert(orig.take(0).filter(ppred) =~= Seq::<SectionV>::empty());
        assert(orig.take(0).filter(npred) =~= Seq::<SectionV>::empty());
        assert(matched@.map_values(|x: Section| x@) =~= Seq::<SectionV>::empty());
        assert(rest@.map_values(|x: Section| x@) =~= Seq::<SectionV>::empty());
        assert(rem@.map_values(|x: Section| x@) =~= orig.skip(0));
    }
    while rem.len() > 0
        invariant
            0 <= k <= orig.len(),
            rem@.map_values(|x: Section| x@) == orig.skip(k),
            matched@.map_values(|x: Section| x@) == orig.take(k).filter(ppred),
            rest@.map_values(|x: Section| x@) == orig.take(k).filter(npred),
        decreases rem@.len(),
    {
        let ghost rv = rem@;
        let s = rem.remove(0);
        proof {
            assert(rv.map_values(|x: Section| x@) == orig.skip(k));
            assert(s@ == rv.map_values(|x: Section| x@)[0]);
            assert(s@ == orig[k]);
            assert(rem@ == rv.remove(0));
            assert forall|j: int| 0 <= j < rem@.len() implies #[trigger] rem@[j]@ == orig.skip(
                k + 1,
            )[j] by {
                assert(rem@[j] == rv[j + 1]);
                assert(rv.map_values(|x: Section| x@)[j + 1] == rv[j + 1]@);
                assert(orig.skip(k)[j + 1] == orig[k + 1 + j]);
            }
            assert(rem@.map_values(|x: Section| x@) =~= orig.skip(k + 1));
        }
        let perms = s.permissions();
        let ghost prev_m = matched@.map_values(|x: Section| x@);
        let ghost prev_r = rest@.map_values(|x: Section| x@);
        if perms == p {
            matched.push(s);
            proof {
                assert(matched@.map_values(|x: Section| x@) =~= prev_m.push(orig[k]));
            }
        } else {
            rest.push(s);
            proof {
                assert(rest@.map_values(|x: Section| x@) =~= prev_r.push(orig[k]));
            }
        }
        proof {
            reveal(Seq::filter);
            assert(orig.take(k + 1).drop_last() =~= orig.take(k));
            assert(orig.take(k + 1).last() == orig[k]);
            k = k + 1;
        }
    }
    proof {
        assert(orig.take(k) =~= orig);
    }
    (matched, rest)
}

/// Combine sections into segments, so that those with the same permissions
/// stay together, segments in palette order: r-x, r--, rw-, rwx. Empty
/// segments are dropped.
///
/// Fails exactly when some section's permissions match no palette entry.
#[verifier::loop_isolation(false)]
pub fn sections_to_segments(
    config: &crate::config::Config,
    inputs: &InputCache,
    sections: Vec<Section>,
) -> (r: Result<LinkedProgram, LinkError>)
    ensures
        match r {
            Ok(lp) => spec_pack(sections@.map_values(|x: Section| x@)) == Ok::<
                Seq<SegmentV>,
                (),
            >(lp@) && lp@ == packed_upto(sections@.map_values(|x: Section| x@), 4),
            Err(e) => e matches LinkError::UncollectedSections && !all_in_palette(
                sections@.map_values(|x: Section| x@),
            ),
        },
{
    let _ = config;
    let _ = inputs;
    let ghost orig = sections@.map_values(|x: Section| x@);
    let mut segments: Vec<Segment> = Vec::new();
    let mut rem = sections;
    proof {
        assert(segments@.map_values(|x: Segment| x@) =~= Seq::<SegmentV>::empty());
        assert(packed_upto(orig, 0) =~= Seq::<SegmentV>::empty());
        let lp = |q: int| |x: SectionV| crate::layout::section_perms(x) == palette()[q];
        lemma_filter_equiv(
            orig,
            |x: SectionV| true,
            |x: SectionV|
                !exists|q: int| 0 <= q < 0 && crate::layout::section_perms(x) == palette()[q],
        );
    }
    let ghost leftover_pred = |pp: int|
        |x: SectionV|
            forall|q: int| 0 <= q < pp ==> crate::layout::section_perms(x) != palette()[q];
    proof {
        lemma_filter_equiv(orig, leftover_pred(0), |x: SectionV| true);
        lemma_filter_id(orig);
    }

    let mut pass: usize = 0;
    while pass < 4
        invariant
            pass <= 4,
            rem@.map_values(|x: Section| x@) == orig.filter(leftover_pred(pass as int)),
            segments@.map_values(|x: Segment| x@) == packed_upto(orig, pass as int),
        decreases 4 - pass,
    {
        let p = palette_perm(pass);
        let ghost ppred = |x: SectionV| crate::layout::section_perms(x) == p;
        let ghost npred = |x: SectionV| crate::layout::section_perms(x) != p;
        let ghost remv = rem@.map_values(|x: Section| x@);
        let (matched, rest) = split_by_perm(rem, p);
        proof {
            // The sections matched in this pass are exactly those of the
            // original list with these permissions: earlier passes removed
            // only sections with other permissions.
            lemma_filter_filter(orig, leftover_pred(pass as int), ppred);
            lemma_filter_equiv(
                orig,
                |x: SectionV| leftover_pred(pass as int)(x) && ppred(x),
                ppred,
            );
            assert(matched@.map_values(|x: Section| x@) == orig.filter(ppred));
            // What is left is exactly the leftover of one more pass.
            lemma_filter_filter(orig, leftover_pred(pass as int), npred);
            lemma_filter_equiv(
                orig,
                |x: SectionV| leftover_pred(pass as int)(x) && npred(x),
                leftover_pred(pass as int + 1),
            );
            assert(rest@.map_values(|x: Section| x@) == orig.filter(
                leftover_pred(pass as int + 1),
            ));
        }
        rem = rest;
        if matched.len() > 0 {
            let ghost prev = segments@.map_values(|x: Segment| x@);
            segments.push(Segment { sections: matched });
            proof {
                assert(segments@.map_values(|x: Segment| x@) =~= prev.push(
                    segments@.last()@,
                ));
                assert(segments@.map_values(|x: Segment| x@) =~= packed_upto(
                    orig,
                    pass as int + 1,
                ));
            }
        } else {
            proof {
                assert(matched@.map_values(|x: Section| x@).len() == 0);
                assert(segments@.map_values(|x: Segment| x@) =~= packed_upto(
                    orig,
                    pass as int + 1,
                ));
            }
        }
        pass = pass + 1;
    }

    if rem.len() > 0 {
        proof {
            let w = lemma_filter_nonempty_witness(orig, leftover_pred(4));
            assert(!palette().contains(crate::layout::section_perms(orig[w]))) by {
                if palette().contains(crate::layout::section_perms(orig[w])) {
                    let q = choose|q: int|
                        0 <= q < palette().len() && palette()[q]
                            == crate::layout::section_perms(orig[w]);
                }
            }
        }
        return Err(LinkError::UncollectedSections);
    }
    proof {
        if !all_in_palette(orig) {
            let bad = choose|k: int|
                0 <= k < orig.len() && !palette().contains(
                    crate::layout::section_perms(#[trigger] orig[k]),
                );
            assert(leftover_pred(4)(orig[bad])) by {
                assert forall|q: int| 0 <= q < 4 implies crate::layout::section_perms(
                    orig[bad],
                ) != palette()[q] by {
                    if crate::layout::section_perms(orig[bad]) == palette()[q] {
                        assert(palette().contains(crate::layout::section_perms(orig[bad])));
                    }
                }
            }
            lemma_filter_member_nonempty(orig, leftover_pred(4), bad);
            assert(rem@.map_values(|x: Section| x@).len() > 0);
        }
    }
    Ok(LinkedProgram { segments })
}

proof fn lemma_filter_member_nonempty<A>(s: Seq<A>, p: spec_fn(A) -> bool, i: int)
    requires
        0 <= i < s.len(),
        p(s[i]),
    ensures
        s.filter(p).len() > 0,
    decreases s.len(),
{
    reveal(Seq::filter);
    if i == s.len() - 1 {
    } else {
        lemma_filter_member_nonempty(s.drop_last(), p, i);
    }
}

proof fn lemma_filter_id<A>(s: Seq<A>)
    ensures
        s.filter(|x: A| true) == s,
    decreases s.len(),
{
    reveal(Seq::filter);
    if s.len() > 0 {
        lemma_filter_id(s.drop_last());
        assert(s.filter(|x: A| true) =~= s);
    }
}

/// The palette entry at `p`.
fn palette_perm(p: usize) -> (r: Permissions)
    requires
        p < 4,
    ensures
        r == palette()[p as int],
{
    if p == 0 {
        Permissions { read: true, write: false, execute: true }
    } else if p == 1 {
        Permissions { read: true, write: false, execute: false }
    } else if p == 2 {
        Permissions { read: true, write: true, execute: false }
    } else {
        Permissions { read: true, write: true, execute: true }
    }
}


} // verus!
