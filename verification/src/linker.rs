//! The linking pipeline: validate inputs, collect section names, combine
//! sections, pack segments, apply relocations, and emit the image.

use vstd::prelude::*;

use crate::config::Config;
use crate::elf::{ET_REL, SHT_NOBITS, SHT_PROGBITS};
use crate::error::LinkError;
use crate::inputs::{InputCache, InputCacheV, InputId, InputObjectV};
use crate::layout::{fits, layout_fits, max_align_chunks, max_align_sections, w_chunks, w_sections, w_segments};
use crate::name_resolution::{table_wf, GlobalEntryV, GlobalTable};
use crate::relocation::{all_relocs_ok, applied_program, apply_relocations, chunk_result, err_matches, idx_ok, program_wf};
use crate::section::{
    all_in_palette, combine_sections, contains_string, packed_upto, sections_to_segments,
    spec_combine, ChunkV, LinkedProgram, SectionV, SegmentV,
};

verus! {

/// Whether every input is 64-bit, little-endian and relocatable.
pub open spec fn spec_inputs_valid(cache: InputCacheV) -> bool {
    forall|k: int|
        0 <= k < cache.ids().len() ==> {
            let o = cache.obj(#[trigger] cache.ids()[k]);
            o.is_64 && o.little_endian && o.e_type == ET_REL
        }
}

/// Check that every input is a 64-bit little-endian relocatable object.
#[verifier::loop_isolation(false)]
pub fn verify_inputs(inputs: &InputCache) -> (r: Result<(), LinkError>)
    ensures
        match r {
            Ok(()) => spec_inputs_valid(inputs@),
            Err(e) => !spec_inputs_valid(inputs@) && (e is NotElf64 || e is NotLittleEndian
                || e is NotRelocatable),
        },
{
    let ids = inputs.iter_ids();
    proof {
        let nfiles = inputs.files.len();
        assert(inputs@.files.len() == nfiles);
        inputs@.lemma_ids_contained();
    }
    let n = ids.len();
    for k in 0..n
        invariant
            n == ids.len(),
            ids@ == inputs@.ids(),
            forall|j: int| 0 <= j < n ==> inputs@.contains_id(#[trigger] ids@[j]),
            forall|j: int|
                0 <= j < k ==> {
                    let o = inputs@.obj(#[trigger] ids@[j]);
                    o.is_64 && o.little_endian && o.e_type == ET_REL
                },
    {
        let obj = inputs.get_elf(ids[k]);
        if !obj.is_64 {
            let path = if ids[k].file < inputs.file_paths.len() {
                inputs.description(ids[k])
            } else {
                String::new()
            };
            return Err(LinkError::NotElf64 { path });
        }
        if !obj.little_endian {
            let path = if ids[k].file < inputs.file_paths.len() {
                inputs.description(ids[k])
            } else {
                String::new()
            };
            return Err(LinkError::NotLittleEndian { path });
        }
        if obj.e_type != ET_REL {
            let path = if ids[k].file < inputs.file_paths.len() {
                inputs.description(ids[k])
            } else {
                String::new()
            };
            return Err(LinkError::NotRelocatable { path });
        }
    }
    Ok(())
}

/// The distinct names of `PROGBITS` and `NOBITS` sections of the first `n`
/// sections of one input, appended to `acc` in first-seen order.
pub open spec fn add_names_obj(acc: Seq<Seq<char>>, obj: InputObjectV, n: int) -> Seq<Seq<char>>
    decreases n,
{
    if n <= 0 {
        acc
    } else {
        let a = add_names_obj(acc, obj, n - 1);
        let s = obj.sections[n - 1];
        if (s.sh_type == SHT_PROGBITS || s.sh_type == SHT_NOBITS) && !a.contains(s.name) {
            a.push(s.name)
        } else {
            a
        }
    }
}

/// The observed section names of the first `k` inputs, in first-seen order.
pub open spec fn spec_names_upto(cache: InputCacheV, k: int) -> Seq<Seq<char>>
    decreases k,
{
    if k <= 0 {
        Seq::empty()
    } else {
        let a = spec_names_upto(cache, k - 1);
        let id = cache.ids()[k - 1];
        add_names_obj(a, cache.obj(id), cache.obj(id).sections.len() as int)
    }
}

/// Every observed section name, in first-seen order. Iteration over the
/// observed names is thereby a deterministic function of the input order.
pub open spec fn spec_section_names(cache: InputCacheV) -> Seq<Seq<char>> {
    spec_names_upto(cache, cache.ids().len() as int)
}

/// Collect the distinct names of `PROGBITS` and `NOBITS` sections across
/// all inputs, in first-seen order.
#[verifier::loop_isolation(false)]
pub fn extract_section_names(inputs: &InputCache) -> (r: Vec<String>)
    ensures
        r@.map_values(|s: String| s@) == spec_section_names(inputs@),
{
    let ids = inputs.iter_ids();
    proof {
        let nfiles = inputs.files.len();
        assert(inputs@.files.len() == nfiles);
        inputs@.lemma_ids_contained();
    }
    let mut names: Vec<String> = Vec::new();
    let n = ids.len();
    proof {
        assert(names@.map_values(|s: String| s@) =~= Seq::<Seq<char>>::empty());
    }
    for k in 0..n
        invariant
            n == ids.len(),
            ids@ == inputs@.ids(),
            forall|j: int| 0 <= j < n ==> inputs@.contains_id(#[trigger] ids@[j]),
            names@.map_values(|s: String| s@) == spec_names_upto(inputs@, k as int),
    {
        let obj = inputs.get_elf(ids[k]);
        let ghost ov = inputs@.obj(ids@[k as int]);
        let ns = obj.sections.len();
        let mut x: usize = 0;
        while x < ns
            invariant
                x <= ns,
                ns == obj.sections.len(),
                ov == inputs@.obj(ids@[k as int]),
                obj@ == ov,
                names@.map_values(|s: String| s@) == add_names_obj(
                    spec_names_upto(inputs@, k as int),
                    ov,
                    x as int,
                ),
            decreases ns - x,
        {
            proof {
                assert(obj.sections@[x as int]@ == ov.sections[x as int]);
            }
            let s = &obj.sections[x];
            if s.sh_type == SHT_PROGBITS || s.sh_type == SHT_NOBITS {
                if !contains_string(&names, &s.name) {
                    let ghost prev = names@.map_values(|y: String| y@);
                    names.push(s.name.clone());
                    proof {
                        assert(names@.map_values(|y: String| y@) =~= prev.push(
                            ov.sections[x as int].name,
                        ));
                    }
                }
            }
            x += 1;
        }
        proof {
            assert(ov.sections.len() == ns);
        }
    }
    names
}

// ---------------------------------------------------------------------------
// The chunks the pipeline builds come from the cache and carry no patches.
// ---------------------------------------------------------------------------

/// The property every freshly assembled chunk has: its input addresses an
/// object of the cache and it carries no patches yet.
pub open spec fn chunk_fresh(c: ChunkV, cache: InputCacheV) -> bool {
    cache.contains_id(c.input) && c.patches == Seq::<crate::section::PatchV>::empty()
}

proof fn lemma_chunks_from_fresh(
    input: InputId,
    obj: InputObjectV,
    name: Seq<char>,
    n: int,
    cache: InputCacheV,
)
    requires
        cache.contains_id(input),
    ensures
        crate::section::spec_chunks_from(input, obj, name, n) matches Ok(cs) ==> forall|x: int|
            0 <= x < cs.len() ==> chunk_fresh(#[trigger] cs[x], cache),
    decreases n,
{
    if n > 0 {
        lemma_chunks_from_fresh(input, obj, name, n - 1, cache);
    }
}

proof fn lemma_group_fresh(cache: InputCacheV, name: Seq<char>, k: int)
    requires
        0 <= k <= cache.ids().len(),
        cache.files.len() <= usize::MAX,
    ensures
        crate::section::spec_group_upto(cache, name, k) matches Ok(cs) ==> forall|x: int|
            0 <= x < cs.len() ==> chunk_fresh(#[trigger] cs[x], cache),
    decreases k,
{
    if k > 0 {
        lemma_group_fresh(cache, name, k - 1);
        cache.lemma_ids_contained();
        let id = cache.ids()[k - 1];
        lemma_chunks_from_fresh(id, cache.obj(id), name, cache.obj(id).sections.len() as int, cache);
    }
}

/// Whether every chunk of every section of `ss` is fresh.
pub open spec fn sections_fresh(ss: Seq<SectionV>, cache: InputCacheV) -> bool {
    forall|y: int, z: int|
        0 <= y < ss.len() && 0 <= z < (#[trigger] ss[y]).chunks.len() ==> chunk_fresh(
            #[trigger] ss[y].chunks[z],
            cache,
        )
}

proof fn lemma_named_fresh(cache: InputCacheV, name: Seq<char>)
    requires
        cache.files.len() <= usize::MAX,
    ensures
        crate::section::spec_section_named(cache, name) matches Ok(s) ==> forall|z: int|
            0 <= z < s.chunks.len() ==> chunk_fresh(#[trigger] s.chunks[z], cache),
{
    lemma_group_fresh(cache, name, cache.ids().len() as int);
}

proof fn lemma_prefixed_fresh(
    acc: Seq<SectionV>,
    cache: InputCacheV,
    names: Seq<Seq<char>>,
    gdot: Seq<char>,
    k: int,
)
    requires
        cache.files.len() <= usize::MAX,
        sections_fresh(acc, cache),
    ensures
        crate::section::spec_add_prefixed(acc, cache, names, gdot, k) matches Ok(ss)
            ==> sections_fresh(ss, cache),
    decreases k,
{
    if k > 0 {
        lemma_prefixed_fresh(acc, cache, names, gdot, k - 1);
        lemma_named_fresh(cache, names[k - 1]);
    }
}

proof fn lemma_add_group_fresh(
    acc: Seq<SectionV>,
    cache: InputCacheV,
    names: Seq<Seq<char>>,
    g: Seq<char>,
    gdot: Seq<char>,
)
    requires
        cache.files.len() <= usize::MAX,
        sections_fresh(acc, cache),
    ensures
        crate::section::spec_add_group(acc, cache, names, g, gdot) matches Ok(ss)
            ==> sections_fresh(ss, cache),
{
    lemma_named_fresh(cache, g);
    if names.contains(g) {
        match crate::section::spec_section_named(cache, g) {
            Ok(sec) => {
                lemma_prefixed_fresh(acc.push(sec), cache, names, gdot, names.len() as int);
            },
            Err(_) => {},
        }
    } else {
        lemma_prefixed_fresh(acc, cache, names, gdot, names.len() as int);
    }
}

proof fn lemma_combine_fresh(cache: InputCacheV, names: Seq<Seq<char>>)
    requires
        cache.files.len() <= usize::MAX,
    ensures
        spec_combine(cache, names) matches Ok(ss) ==> sections_fresh(ss, cache),
{
    assert(sections_fresh(Seq::<SectionV>::empty(), cache));
    lemma_add_group_fresh(Seq::empty(), cache, names, ".entry"@, ".entry."@);
    match crate::section::spec_add_group(Seq::empty(), cache, names, ".entry"@, ".entry."@) {
        Ok(a) => {
            lemma_add_group_fresh(a, cache, names, ".text"@, ".text."@);
            match crate::section::spec_add_group(a, cache, names, ".text"@, ".text."@) {
                Ok(b) => {
                    lemma_add_group_fresh(b, cache, names, ".rodata"@, ".rodata."@);
                },
                Err(_) => {},
            }
        },
        Err(_) => {},
    }
}

proof fn lemma_packed_fresh(ss: Seq<SectionV>, cache: InputCacheV, p: int)
    requires
        sections_fresh(ss, cache),
        0 <= p <= 4,
    ensures
        forall|i: int, j: int, k: int|
            idx_ok(packed_upto(ss, p), i, j, k) ==> chunk_fresh(
                #[trigger] packed_upto(ss, p)[i].sections[j].chunks[k],
                cache,
            ),
    decreases p,
{
    if p > 0 {
        lemma_packed_fresh(ss, cache, p - 1);
        let f = ss.filter(
            |x: SectionV| crate::layout::section_perms(x) == crate::section::palette()[p - 1],
        );
        assert forall|y: int, z: int|
            0 <= y < f.len() && 0 <= z < f[y].chunks.len() implies chunk_fresh(
            #[trigger] f[y].chunks[z],
            cache,
        ) by {
            assert(f.contains(f[y]));
            ss.lemma_filter_contains_rev(
                |x: SectionV| crate::layout::section_perms(x) == crate::section::palette()[p - 1],
                f[y],
            );
            let w = choose|w: int| 0 <= w < ss.len() && ss[w] == f[y];
            assert(chunk_fresh(ss[w].chunks[z], cache));
        }
        assert forall|i: int, j: int, k: int|
            idx_ok(packed_upto(ss, p), i, j, k) implies chunk_fresh(
            #[trigger] packed_upto(ss, p)[i].sections[j].chunks[k],
            cache,
        ) by {
            if i < packed_upto(ss, p - 1).len() {
                assert(packed_upto(ss, p)[i] == packed_upto(ss, p - 1)[i]);
            } else {
                assert(packed_upto(ss, p)[i] == SegmentV { sections: f });
            }
        }
    }
}

// ---------------------------------------------------------------------------
// Shape congruence: patching changes no sizes, alignments or weights.
// ---------------------------------------------------------------------------

proof fn lemma_chunks_shape(a: Seq<ChunkV>, b: Seq<ChunkV>)
    requires
        a.len() == b.len(),
        forall|x: int|
            0 <= x < a.len() ==> (#[trigger] a[x]).alignment == b[x].alignment && a[x].orig_bytes
                == b[x].orig_bytes,
    ensures
        w_chunks(a) == w_chunks(b),
        max_align_chunks(a) == max_align_chunks(b),
    decreases a.len(),
{
    if a.len() > 0 {
        lemma_chunks_shape(a.drop_last(), b.drop_last());
    }
}

proof fn lemma_sections_shape(a: Seq<SectionV>, b: Seq<SectionV>)
    requires
        a.len() == b.len(),
        forall|y: int|
            0 <= y < a.len() ==> (#[trigger] a[y]).chunks.len() == b[y].chunks.len(),
        forall|y: int, z: int|
            0 <= y < a.len() && 0 <= z < (#[trigger] a[y]).chunks.len()
                ==> (#[trigger] a[y].chunks[z]).alignment == b[y].chunks[z].alignment && a[
                y
            ].chunks[z].orig_bytes == b[y].chunks[z].orig_bytes,
    ensures
        w_sections(a) == w_sections(b),
        max_align_sections(a) == max_align_sections(b),
    decreases a.len(),
{
    if a.len() > 0 {
        lemma_sections_shape(a.drop_last(), b.drop_last());
        lemma_chunks_shape(a.last().chunks, b.last().chunks);
    }
}

proof fn lemma_segments_shape(a: Seq<SegmentV>, b: Seq<SegmentV>, page: u64, extra: int)
    requires
        a.len() == b.len(),
        forall|x: int|
            0 <= x < a.len() ==> (#[trigger] a[x]).sections.len() == b[x].sections.len(),
        forall|x: int, y: int|
            0 <= x < a.len() && 0 <= y < (#[trigger] a[x]).sections.len()
                ==> (#[trigger] a[x].sections[y]).chunks.len() == b[x].sections[y].chunks.len(),
        forall|x: int, y: int, z: int|
            0 <= x < a.len() && 0 <= y < a[x].sections.len() && 0 <= z < (#[trigger] a[
                x
            ].sections[y]).chunks.len() ==> (#[trigger] a[x].sections[y].chunks[z]).alignment
                == b[x].sections[y].chunks[z].alignment && a[x].sections[y].chunks[z].orig_bytes
                == b[x].sections[y].chunks[z].orig_bytes,
    ensures
        w_segments(a, page, extra) == w_segments(b, page, extra),
    decreases a.len(),
{
    if a.len() > 0 {
        lemma_segments_shape(a.drop_last(), b.drop_last(), page, extra);
        lemma_sections_shape(a.last().sections, b.last().sections);
    }
}

/// Applying relocations keeps the layout: the applied program has the same
/// weights as the packed one, so it fits whenever the packed one does.
pub proof fn lemma_applied_fits(
    config: Config,
    segs: Seq<SegmentV>,
    cache: InputCacheV,
    globals: Seq<GlobalEntryV>,
)
    requires
        fits(segs, config),
    ensures
        fits(applied_program(config, segs, cache, globals), config),
{
    let a = applied_program(config, segs, cache, globals);
    lemma_segments_shape(
        a,
        segs,
        config.page_size,
        0x38 + crate::math::spec_eff_align(config.segment_file_align as int),
    );
}

/// Packing yields at most one segment per palette entry.
pub proof fn lemma_packed_len(ss: Seq<SectionV>, p: int)
    requires
        0 <= p,
    ensures
        packed_upto(ss, p).len() <= p,
    decreases p,
{
    if p > 0 {
        lemma_packed_len(ss, p - 1);
    }
}

/// Build the linked program: combine the inputs' sections, pack them into
/// segments, check the layout fits, and apply every relocation.
#[verifier::loop_isolation(false)]
pub fn build(
    config: &Config,
    inputs: &InputCache,
    section_names: &Vec<String>,
    globals: &GlobalTable,
) -> (r: Result<LinkedProgram, LinkError>)
    requires
        inputs@.wf(),
        table_wf(globals@, inputs@),
    ensures
        ({
            let names = section_names@.map_values(|x: String| x@);
            match r {
                Ok(lp) => spec_combine(inputs@, names) matches Ok(ss) && all_in_palette(ss) && ({
                    let packed = packed_upto(ss, 4);
                    &&& fits(packed, *config)
                    &&& all_relocs_ok(*config, packed, inputs@, globals@)
                    &&& lp@ == applied_program(*config, packed, inputs@, globals@)
                    &&& fits(lp@, *config)
                    &&& lp@.len() <= 4
                    &&& forall|i: int, j: int, k: int|
                        idx_ok(lp@, i, j, k) ==> (#[trigger] lp@[i].sections[j].chunks[
                            k
                        ]).patches_wf()
                }),
                Err(e) => {
                    ||| (spec_combine(inputs@, names) matches Err(n) && (
                    e matches LinkError::FixedAddressSection { name } && name@ == n))
                    ||| (spec_combine(inputs@, names) matches Ok(ss) && !all_in_palette(ss)
                        && e is UncollectedSections)
                    ||| (spec_combine(inputs@, names) matches Ok(ss) && all_in_palette(ss)
                        && !fits(packed_upto(ss, 4), *config) && e is TooLarge)
                    ||| (spec_combine(inputs@, names) matches Ok(ss) && all_in_palette(ss) && fits(
                        packed_upto(ss, 4),
                        *config,
                    ) && (exists|i: int, j: int, k: int|
                        idx_ok(packed_upto(ss, 4), i, j, k) && (#[trigger] chunk_result(
                            *config,
                            packed_upto(ss, 4),
                            inputs@,
                            globals@,
                            i,
                            j,
                            k,
                        ) matches Err(f) && err_matches(e, f))))
                },
            }
        }),
{
    let ghost names = section_names@.map_values(|x: String| x@);
    let nfiles = inputs.files.len();
    proof {
        assert(inputs@.files.len() == nfiles);
    }
    let sections = combine_sections(config, inputs, section_names)?;
    let ghost ss = sections@.map_values(|x: crate::section::Section| x@);
    proof {
        lemma_combine_fresh(inputs@, names);
    }
    let mut linked = sections_to_segments(config, inputs, sections)?;
    proof {
        lemma_packed_fresh(ss, inputs@, 4);
        lemma_packed_len(ss, 4);
        assert(program_wf(linked@, inputs@)) by {
            assert forall|i: int, j: int, k: int| idx_ok(linked@, i, j, k) implies (
            #[trigger] linked@[i].sections[j].chunks[k]).patches_wf() && inputs@.contains_id(
                linked@[i].sections[j].chunks[k].input,
            ) by {
                assert(chunk_fresh(linked@[i].sections[j].chunks[k], inputs@));
            }
        }
    }
    if !layout_fits(&linked, config) {
        return Err(LinkError::TooLarge);
    }
    let ghost packed = linked@;
    match apply_relocations(config, inputs, &mut linked, globals) {
        Ok(()) => {
            proof {
                lemma_applied_fits(*config, packed, inputs@, globals@);
            }
            Ok(linked)
        },
        Err(e) => Err(e),
    }
}

/// Emit the linked program as the bytes of an ELF64 executable image.
pub fn build_binary(config: &Config, inputs: &InputCache, linked: &LinkedProgram) -> (r: Result<
    Vec<u8>,
    LinkError,
>)
    requires
        fits(linked@, *config),
        linked@.len() <= u16::MAX,
        forall|i: int, j: int, k: int|
            idx_ok(linked@, i, j, k) ==> (#[trigger] linked@[i].sections[j].chunks[
                k
            ]).patches_wf(),
    ensures
        r matches Ok(v) && v@ == crate::write_elf64::spec_image(linked@, *config),
{
    let _ = inputs;
    let mut result: Vec<u8> = Vec::new();
    crate::write_elf64::write(config, &mut result, linked);
    Ok(result)
}

} // verus!
