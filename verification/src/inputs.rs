//! The linker's view of its inputs.
//!
//! Each relocatable object is held as an [`InputObject`]: plain values for
//! everything the link reads — section headers, symbol table, relocation
//! tables and the raw bytes. Objects come either from a bare `.o` file or
//! from the `.o` members of an `.rlib` archive; the [`InputCache`] holds them
//! all and addresses each one by a stable [`InputId`].

use vstd::prelude::*;

use crate::decode::{archive_members, archive_members_of, load_object, spec_load_object, ArchiveMemberV};
use crate::elf::SHT_NOBITS;
use crate::error::LinkError;

verus! {

/// Identifies one relocatable object view: the index of the file it came
/// from, and the archive member index if the file was an archive.
#[derive(Debug, Clone, Copy, PartialEq, Eq, Structural, PartialOrd, Ord)]
pub struct InputId {
    pub file: usize,
    pub member: Option<usize>,
}

/// One section header, with its name already resolved.
#[derive(Debug, Clone)]
pub struct SectionInfo {
    pub name: String,
    pub sh_type: u32,
    pub sh_flags: u64,
    pub sh_addr: u64,
    pub sh_info: u32,
    pub sh_addralign: u64,
    pub sh_offset: u64,
    pub sh_size: u64,
}

/// Mathematical image of a [`SectionInfo`].
pub struct SectionInfoV {
    pub name: Seq<char>,
    pub sh_type: u32,
    pub sh_flags: u64,
    pub sh_addr: u64,
    pub sh_info: u32,
    pub sh_addralign: u64,
    pub sh_offset: u64,
    pub sh_size: u64,
}

impl View for SectionInfo {
    type V = SectionInfoV;

    open spec fn view(&self) -> SectionInfoV {
        SectionInfoV {
            name: self.name@,
            sh_type: self.sh_type,
            sh_flags: self.sh_flags,
            sh_addr: self.sh_addr,
            sh_info: self.sh_info,
            sh_addralign: self.sh_addralign,
            sh_offset: self.sh_offset,
            sh_size: self.sh_size,
        }
    }
}

/// One symbol table entry, with its name already resolved.
#[derive(Debug, Clone)]
pub struct SymbolInfo {
    pub name: String,
    pub st_info: u8,
    pub st_other: u8,
    pub st_shndx: u32,
    pub st_value: u64,
}

/// Mathematical image of a [`SymbolInfo`].
pub struct SymbolInfoV {
    pub name: Seq<char>,
    pub st_info: u8,
    pub st_other: u8,
    pub st_shndx: u32,
    pub st_value: u64,
}

impl View for SymbolInfo {
    type V = SymbolInfoV;

    open spec fn view(&self) -> SymbolInfoV {
        SymbolInfoV {
            name: self.name@,
            st_info: self.st_info,
            st_other: self.st_other,
            st_shndx: self.st_shndx,
            st_value: self.st_value,
        }
    }
}

impl SymbolInfoV {
    /// The binding half of `st_info`.
    pub open spec fn st_bind(self) -> u8 {
        self.st_info >> 4
    }

    /// The visibility bits of `st_other`.
    pub open spec fn st_visibility(self) -> u8 {
        self.st_other & 7
    }
}

impl SymbolInfo {
    /// The binding half of `st_info`.
    pub fn st_bind(&self) -> (r: u8)
        ensures
            r == self@.st_bind(),
    {
        self.st_info >> 4
    }

    /// The visibility bits of `st_other`.
    pub fn st_visibility(&self) -> (r: u8)
        ensures
            r == self@.st_visibility(),
    {
        self.st_other & 7
    }
}

/// One raw relocation record.
#[derive(Debug, Clone, Copy, PartialEq, Eq, Structural)]
pub struct RawReloc {
    pub r_offset: u64,
    pub r_sym: u32,
    pub r_type: u32,
    pub r_addend: Option<i64>,
}

/// All relocation records of one relocation section, together with the
/// index of the relocation section itself: its header's `sh_info` names
/// the section the records apply to.
#[derive(Debug, Clone)]
pub struct RelocTable {
    pub section_index: u32,
    pub relocs: Vec<RawReloc>,
}

/// Mathematical image of a [`RelocTable`].
pub struct RelocTableV {
    pub section_index: u32,
    pub relocs: Seq<RawReloc>,
}

impl View for RelocTable {
    type V = RelocTableV;

    open spec fn view(&self) -> RelocTableV {
        RelocTableV { section_index: self.section_index, relocs: self.relocs@ }
    }
}

/// One decoded relocatable object.
#[derive(Debug, Clone)]
pub struct InputObject {
    pub is_64: bool,
    pub little_endian: bool,
    pub e_type: u16,
    pub sections: Vec<SectionInfo>,
    pub symbols: Vec<SymbolInfo>,
    pub reloc_tables: Vec<RelocTable>,
    pub bytes: Vec<u8>,
}

/// Mathematical image of an [`InputObject`].
pub struct InputObjectV {
    pub is_64: bool,
    pub little_endian: bool,
    pub e_type: u16,
    pub sections: Seq<SectionInfoV>,
    pub symbols: Seq<SymbolInfoV>,
    pub reloc_tables: Seq<RelocTableV>,
    pub bytes: Seq<u8>,
}

impl View for InputObject {
    type V = InputObjectV;

    open spec fn view(&self) -> InputObjectV {
        InputObjectV {
            is_64: self.is_64,
            little_endian: self.little_endian,
            e_type: self.e_type,
            sections: self.sections@.map_values(|s: SectionInfo| s@),
            symbols: self.symbols@.map_values(|s: SymbolInfo| s@),
            reloc_tables: self.reloc_tables@.map_values(|t: RelocTable| t@),
            bytes: self.bytes@,
        }
    }
}

impl InputObjectV {
    /// Every section's file range lies inside the object's bytes, every
    /// relocation's symbol index is in range of the symbol table, every
    /// relocation table names a section of the object, and the section and
    /// symbol tables are addressable by 32-bit indices.
    pub open spec fn wf(self) -> bool {
        &&& forall|i: int|
            0 <= i < self.sections.len() && self.sections[i].sh_type != SHT_NOBITS
                ==> (#[trigger] self.sections[i]).sh_offset + self.sections[i].sh_size
                <= self.bytes.len()
        &&& forall|t: int, r: int|
            0 <= t < self.reloc_tables.len() && 0 <= r
                < (#[trigger] self.reloc_tables[t]).relocs.len()
                ==> (#[trigger] self.reloc_tables[t].relocs[r]).r_sym < self.symbols.len()
        &&& forall|t: int|
            0 <= t < self.reloc_tables.len()
                ==> (#[trigger] self.reloc_tables[t]).section_index < self.sections.len()
        &&& self.sections.len() <= u32::MAX
        &&& self.symbols.len() <= u32::MAX
    }
}

/// A loaded input file: a bare object, or the object members of an archive.
pub enum InputCacheItem {
    Elf { object: InputObject },
    Archive { members: Vec<InputObject>, member_names: Vec<String> },
}

/// Mathematical image of an [`InputCacheItem`].
pub enum InputCacheItemV {
    Elf { object: InputObjectV },
    Archive { members: Seq<InputObjectV>, member_names: Seq<Seq<char>> },
}

impl View for InputCacheItem {
    type V = InputCacheItemV;

    open spec fn view(&self) -> InputCacheItemV {
        match self {
            InputCacheItem::Elf { object } => InputCacheItemV::Elf { object: object@ },
            InputCacheItem::Archive { members, member_names } => InputCacheItemV::Archive {
                members: members@.map_values(|o: InputObject| o@),
                member_names: member_names@.map_values(|n: String| n@),
            },
        }
    }
}

impl InputCacheItemV {
    /// The input ids this file contributes, in order.
    pub open spec fn ids(self, file: int) -> Seq<InputId>
        decreases self via Self::ids_decreases
    {
        match self {
            InputCacheItemV::Elf { .. } => seq![
                InputId { file: file as usize, member: None },
            ],
            InputCacheItemV::Archive { members, .. } => Seq::new(
                members.len(),
                |m: int| InputId { file: file as usize, member: Some(m as usize) },
            ),
        }
    }

    #[via_fn]
    proof fn ids_decreases(self, file: int) {
    }
}

/// Holds every decoded input of the link.
pub struct InputCache {
    pub files: Vec<InputCacheItem>,
    pub file_paths: Vec<String>,
}

/// Mathematical image of an [`InputCache`].
pub struct InputCacheV {
    pub files: Seq<InputCacheItemV>,
    pub file_paths: Seq<Seq<char>>,
}

impl View for InputCache {
    type V = InputCacheV;

    open spec fn view(&self) -> InputCacheV {
        InputCacheV {
            files: self.files@.map_values(|f: InputCacheItem| f@),
            file_paths: self.file_paths@.map_values(|p: String| p@),
        }
    }
}

impl InputCacheV {
    /// The ids of the first `n` files, flattened in order.
    pub open spec fn ids_prefix(self, n: int) -> Seq<InputId>
        decreases n,
    {
        if n <= 0 {
            Seq::empty()
        } else {
            self.ids_prefix(n - 1) + self.files[n - 1].ids(n - 1)
        }
    }

    /// Every input id of the cache, in iteration order.
    pub open spec fn ids(self) -> Seq<InputId> {
        self.ids_prefix(self.files.len() as int)
    }

    /// Whether `id` addresses an object of this cache.
    pub open spec fn contains_id(self, id: InputId) -> bool {
        &&& id.file < self.files.len()
        &&& match self.files[id.file as int] {
            InputCacheItemV::Elf { .. } => id.member is None,
            InputCacheItemV::Archive { members, .. } => match id.member {
                Some(m) => m < members.len(),
                None => false,
            },
        }
    }

    /// The object `id` addresses.
    pub open spec fn obj(self, id: InputId) -> InputObjectV
        recommends
            self.contains_id(id),
    {
        match self.files[id.file as int] {
            InputCacheItemV::Elf { object } => object,
            InputCacheItemV::Archive { members, .. } => members[id.member->0 as int],
        }
    }

    /// Every object of the cache is well formed.
    pub open spec fn wf(self) -> bool {
        forall|id: InputId| self.contains_id(id) ==> (#[trigger] self.obj(id)).wf()
    }

    /// Every id the cache enumerates is contained in it.
    pub proof fn lemma_ids_contained(self)
        requires
            self.files.len() <= usize::MAX,
        ensures
            forall|k: int|
                0 <= k < self.ids().len() ==> self.contains_id(#[trigger] self.ids()[k]),
    {
        self.lemma_ids_prefix_contained(self.files.len() as int);
    }

    proof fn lemma_ids_prefix_contained(self, n: int)
        requires
            n <= self.files.len(),
            self.files.len() <= usize::MAX,
        ensures
            forall|k: int|
                0 <= k < self.ids_prefix(n).len()
                    ==> self.contains_id(#[trigger] self.ids_prefix(n)[k]),
        decreases n,
    {
        if n > 0 {
            self.lemma_ids_prefix_contained(n - 1);
            let tail = self.files[n - 1].ids(n - 1);
            assert forall|k: int| 0 <= k < tail.len() implies self.contains_id(tail[k]) by {
                match self.files[n - 1] {
                    InputCacheItemV::Elf { .. } => {
                        assert(tail[k] == InputId { file: (n - 1) as usize, member: None });
                    }
                    InputCacheItemV::Archive { members, .. } => {
                        assert(tail[k] == InputId {
                            file: (n - 1) as usize,
                            member: Some(k as usize),
                        });
                    }
                }
            }
            assert forall|k: int|
                0 <= k < self.ids_prefix(n).len() implies self.contains_id(
                self.ids_prefix(n)[k],
            ) by {
                if k < self.ids_prefix(n - 1).len() {
                    assert(self.ids_prefix(n)[k] == self.ids_prefix(n - 1)[k]);
                } else {
                    assert(self.ids_prefix(n)[k] == tail[k - self.ids_prefix(n - 1).len()]);
                }
            }
        }
    }
}

impl InputCache {
    /// An empty cache.
    pub fn new() -> (r: Self)
        ensures
            r@.files.len() == 0,
            r@.file_paths.len() == 0,
    {
        InputCache { files: Vec::new(), file_paths: Vec::new() }
    }

    /// Every input id of the cache, in iteration order.
    pub fn iter_ids(&self) -> (r: Vec<InputId>)
        ensures
            r@ == self@.ids(),
    {
        let mut result: Vec<InputId> = Vec::new();
        let ghost cv = self@;
        for file in 0..self.files.len()
            invariant
                cv == self@,
                result@ == cv.ids_prefix(file as int),
        {
            match &self.files[file] {
                InputCacheItem::Elf { .. } => {
                    result.push(InputId { file, member: None });
                    assert(result@ =~= cv.ids_prefix(file + 1));
                }
                InputCacheItem::Archive { members, .. } => {
                    let ghost before = result@;
                    for m in 0..members.len()
                        invariant
                            result@ == before + Seq::new(
                                m as nat,
                                |k: int| InputId { file, member: Some(k as usize) },
                            ),
                    {
                        result.push(InputId { file, member: Some(m) });
                        assert(result@ =~= before + Seq::new(
                            (m + 1) as nat,
                            |k: int| InputId { file, member: Some(k as usize) },
                        ));
                    }
                    assert(result@ =~= cv.ids_prefix(file + 1));
                }
            }
        }
        result
    }

    /// The object `id` addresses.
    pub fn get_elf(&self, id: InputId) -> (r: &InputObject)
        requires
            self@.contains_id(id),
        ensures
            r@ == self@.obj(id),
    {
        match &self.files[id.file] {
            InputCacheItem::Elf { object } => object,
            InputCacheItem::Archive { members, .. } => {
                let m = match id.member {
                    Some(m) => m,
                    None => 0,
                };
                &members[m]
            }
        }
    }

    /// The raw bytes backing the object `id` addresses.
    pub fn get_backing_bytes(&self, id: InputId) -> (r: &Vec<u8>)
        requires
            self@.contains_id(id),
        ensures
            r@ == self@.obj(id).bytes,
    {
        &self.get_elf(id).bytes
    }

    /// A human-readable name for the input `id` addresses: the file's path,
    /// with the member's name in front for an archive member.
    pub fn description(&self, id: InputId) -> (r: String)
        requires
            self@.contains_id(id),
            id.file < self.file_paths.len(),
        ensures
            match self@.files[id.file as int] {
                InputCacheItemV::Elf { .. } => r@ == self@.file_paths[id.file as int],
                InputCacheItemV::Archive { member_names, .. } => r@ == (match id.member {
                    Some(m) => if m < member_names.len() {
                        member_names[m as int]
                    } else {
                        Seq::empty()
                    },
                    None => Seq::empty(),
                }) + " in "@ + self@.file_paths[id.file as int],
            },
    {
        proof {
            assert(self.file_paths@[id.file as int]@ == self@.file_paths[id.file as int]);
        }
        let path = &self.file_paths[id.file];
        match &self.files[id.file] {
            InputCacheItem::Elf { .. } => path.clone(),
            InputCacheItem::Archive { member_names, .. } => {
                let m = match id.member {
                    Some(m) => m,
                    None => 0,
                };
                let mut r = if m < member_names.len() {
                    member_names[m].clone()
                } else {
                    String::new()
                };
                r.append(" in ");
                r.append(path.as_str());
                r
            }
        }
    }

    /// References to every object, in id order.
    pub fn iter(&self) -> (r: Vec<&InputObject>)
        ensures
            r@.len() == self@.ids().len(),
            forall|k: int|
                0 <= k < r@.len() ==> (#[trigger] r@[k])@ == self@.obj(self@.ids()[k]),
    {
        let ids = self.iter_ids();
        let nfiles = self.files.len();
        proof {
            assert(self@.files.len() == nfiles);
            self@.lemma_ids_contained();
        }
        let mut result: Vec<&InputObject> = Vec::new();
        for k in 0..ids.len()
            invariant
                ids@ == self@.ids(),
                result@.len() == k,
                forall|j: int|
                    0 <= j < k ==> (#[trigger] result@[j])@ == self@.obj(self@.ids()[j]),
                forall|j: int|
                    0 <= j < ids@.len() ==> self@.contains_id(#[trigger] ids@[j]),
        {
            result.push(self.get_elf(ids[k]));
        }
        result
    }
}

/// Whether `s` ends with `x`.
pub open spec fn str_has_suffix(s: Seq<char>, x: Seq<char>) -> bool {
    s.len() >= x.len() && s.subrange(s.len() - x.len(), s.len() as int) == x
}

/// Whether `s` ends with `suffix`.
fn ends_with(s: &String, suffix: &String) -> (r: bool)
    ensures
        r == str_has_suffix(s@, suffix@),
{
    let sn = s.as_str().unicode_len();
    let xn = suffix.as_str().unicode_len();
    if sn < xn {
        return false;
    }
    for i in 0..xn
        invariant
            sn == s@.len(),
            xn == suffix@.len(),
            xn <= sn,
            forall|j: int| 0 <= j < i ==> s@[sn - xn + j] == suffix@[j],
    {
        if s.as_str().get_char(sn - xn + i) != suffix.as_str().get_char(i) {
            proof {
                assert(s@.subrange(sn - xn, sn as int)[i as int] != suffix@[i as int]);
            }
            return false;
        }
    }
    proof {
        assert(s@.subrange(sn - xn, sn as int) =~= suffix@);
    }
    true
}

/// One input file as handed to the linker: its path and its raw bytes.
pub struct SourceFile {
    pub path: String,
    pub bytes: Vec<u8>,
}

/// Mathematical image of a [`SourceFile`].
pub struct SourceFileV {
    pub path: Seq<char>,
    pub bytes: Seq<u8>,
}

impl View for SourceFile {
    type V = SourceFileV;

    open spec fn view(&self) -> SourceFileV {
        SourceFileV { path: self.path@, bytes: self.bytes@ }
    }
}

/// Check that an object is well formed: section ranges inside the bytes,
/// relocation tables naming sections and symbols of the object, and tables
/// addressable by 32-bit indices.
#[verifier::loop_isolation(false)]
fn validate_object(obj: &InputObject) -> (r: bool)
    ensures
        r == obj@.wf(),
{
    let ghost ov = obj@;
    let bl = obj.bytes.len() as u64;
    proof {
        assert(ov.bytes.len() == obj.bytes.len());
    }
    if obj.sections.len() as u64 > u32::MAX as u64 {
        return false;
    }
    if obj.symbols.len() as u64 > u32::MAX as u64 {
        return false;
    }
    let ns = obj.sections.len();
    for i in 0..ns
        invariant
            forall|x: int|
                0 <= x < i && ov.sections[x].sh_type != SHT_NOBITS
                    ==> (#[trigger] ov.sections[x]).sh_offset + ov.sections[x].sh_size
                    <= ov.bytes.len(),
    {
        proof {
            assert(obj.sections@[i as int]@ == ov.sections[i as int]);
        }
        let sec = &obj.sections[i];
        if sec.sh_type != SHT_NOBITS {
            if sec.sh_offset > bl || sec.sh_size > bl - sec.sh_offset {
                return false;
            }
        }
    }
    let nt = obj.reloc_tables.len();
    for t in 0..nt
        invariant
            forall|x: int|
                0 <= x < t ==> (#[trigger] ov.reloc_tables[x]).section_index
                    < ov.sections.len(),
            forall|x: int, y: int|
                0 <= x < t && 0 <= y < (#[trigger] ov.reloc_tables[x]).relocs.len()
                    ==> (#[trigger] ov.reloc_tables[x].relocs[y]).r_sym < ov.symbols.len(),
    {
        proof {
            assert(obj.reloc_tables@[t as int]@ == ov.reloc_tables[t as int]);
        }
        let table = &obj.reloc_tables[t];
        if table.section_index as usize >= obj.sections.len() {
            return false;
        }
        let nr = table.relocs.len();
        for x in 0..nr
            invariant
                nr == table.relocs.len(),
                table@ == ov.reloc_tables[t as int],
                forall|y: int|
                    0 <= y < x ==> (#[trigger] ov.reloc_tables[t as int].relocs[y]).r_sym
                        < ov.symbols.len(),
        {
            if table.relocs[x].r_sym as usize >= obj.symbols.len() {
                return false;
            }
        }
    }
    true
}

/// Why one input could not be loaded.
pub enum LoadFail {
    /// The path has no recognised extension.
    Extension,
    /// The bytes are not a well-formed ELF64 relocatable object.
    BadElf,
    /// The bytes are not a well-formed archive of such objects.
    BadArchive,
}

/// The objects and names of the first `n` archive members whose name ends
/// in `.o`, each decoded and well formed; other members are ignored.
pub open spec fn spec_load_members(ms: Seq<ArchiveMemberV>, n: int) -> Result<
    (Seq<InputObjectV>, Seq<Seq<char>>),
    LoadFail,
>
    decreases n,
{
    if n <= 0 {
        Ok((Seq::empty(), Seq::empty()))
    } else {
        match spec_load_members(ms, n - 1) {
            Err(f) => Err(f),
            Ok((objs, mnames)) => {
                let m = ms[n - 1];
                if str_has_suffix(m.name, ".o"@) {
                    match spec_load_object(m.bytes) {
                        Some(o) => if o.wf() {
                            Ok((objs.push(o), mnames.push(m.name)))
                        } else {
                            Err(LoadFail::BadElf)
                        },
                        None => Err(LoadFail::BadElf),
                    }
                } else {
                    Ok((objs, mnames))
                }
            },
        }
    }
}

/// The loaded item of one input file: a `.o` file is one object, an
/// `.rlib` contributes its `.o` members; anything else is a usage error.
pub open spec fn spec_load_item(path: Seq<char>, bytes: Seq<u8>) -> Result<
    InputCacheItemV,
    LoadFail,
> {
    if str_has_suffix(path, ".o"@) {
        match spec_load_object(bytes) {
            Some(o) => if o.wf() {
                Ok(InputCacheItemV::Elf { object: o })
            } else {
                Err(LoadFail::BadElf)
            },
            None => Err(LoadFail::BadElf),
        }
    } else if str_has_suffix(path, ".rlib"@) {
        match archive_members_of(bytes) {
            None => Err(LoadFail::BadArchive),
            Some(ms) => match spec_load_members(ms, ms.len() as int) {
                Err(f) => Err(f),
                Ok((objs, mnames)) => Ok(
                    InputCacheItemV::Archive { members: objs, member_names: mnames },
                ),
            },
        }
    } else {
        Err(LoadFail::Extension)
    }
}

/// The loaded items of the first `k` input files, or the index of the
/// first failing file and why it failed.
pub open spec fn spec_read_upto(files: Seq<SourceFileV>, k: int) -> Result<
    Seq<InputCacheItemV>,
    (int, LoadFail),
>
    decreases k,
{
    if k <= 0 {
        Ok(Seq::empty())
    } else {
        match spec_read_upto(files, k - 1) {
            Err(e) => Err(e),
            Ok(items) => match spec_load_item(files[k - 1].path, files[k - 1].bytes) {
                Ok(item) => Ok(items.push(item)),
                Err(f) => Err((k - 1, f)),
            },
        }
    }
}

/// The loaded items of every input file.
pub open spec fn spec_read_all(files: Seq<SourceFileV>) -> Result<
    Seq<InputCacheItemV>,
    (int, LoadFail),
> {
    spec_read_upto(files, files.len() as int)
}

proof fn lemma_load_members_wf(ms: Seq<ArchiveMemberV>, n: int)
    ensures
        spec_load_members(ms, n) matches Ok(p) ==> forall|x: int|
            0 <= x < p.0.len() ==> (#[trigger] p.0[x]).wf(),
    decreases n,
{
    if n > 0 {
        lemma_load_members_wf(ms, n - 1);
    }
}

proof fn lemma_load_item_wf(path: Seq<char>, bytes: Seq<u8>)
    ensures
        spec_load_item(path, bytes) matches Ok(item) ==> match item {
            InputCacheItemV::Elf { object } => object.wf(),
            InputCacheItemV::Archive { members, .. } => forall|x: int|
                0 <= x < members.len() ==> (#[trigger] members[x]).wf(),
        },
{
    if str_has_suffix(path, ".rlib"@) && !str_has_suffix(path, ".o"@) {
        match archive_members_of(bytes) {
            Some(ms) => {
                lemma_load_members_wf(ms, ms.len() as int);
            },
            None => {},
        }
    }
}

proof fn lemma_read_upto_wf(files: Seq<SourceFileV>, k: int)
    ensures
        spec_read_upto(files, k) matches Ok(items) ==> forall|x: int|
            0 <= x < items.len() ==> match #[trigger] items[x] {
                InputCacheItemV::Elf { object } => object.wf(),
                InputCacheItemV::Archive { members, .. } => forall|y: int|
                    0 <= y < members.len() ==> (#[trigger] members[y]).wf(),
            },
    decreases k,
{
    if k > 0 {
        lemma_read_upto_wf(files, k - 1);
        lemma_load_item_wf(files[k - 1].path, files[k - 1].bytes);
    }
}

proof fn lemma_read_upto_err_persists(files: Seq<SourceFileV>, k: int, m: int)
    requires
        0 <= k <= m,
        spec_read_upto(files, k) is Err,
    ensures
        spec_read_upto(files, m) == spec_read_upto(files, k),
    decreases m,
{
    if m > k {
        lemma_read_upto_err_persists(files, k, m - 1);
    }
}

proof fn lemma_load_members_err_persists(ms: Seq<ArchiveMemberV>, n: int, m: int)
    requires
        0 <= n <= m,
        spec_load_members(ms, n) is Err,
    ensures
        spec_load_members(ms, m) == spec_load_members(ms, n),
    decreases m,
{
    if m > n {
        lemma_load_members_err_persists(ms, n, m - 1);
    }
}

/// Load one input file.
#[verifier::loop_isolation(false)]
fn load_item(path: &String, bytes: Vec<u8>) -> (r: Result<InputCacheItem, LinkError>)
    ensures
        match r {
            Ok(item) => spec_load_item(path@, bytes@) == Ok::<InputCacheItemV, LoadFail>(item@),
            Err(e) => spec_load_item(path@, bytes@) matches Err(f) && match f {
                LoadFail::Extension => e matches LinkError::UnknownExtension { path: p } && p@
                    == path@,
                LoadFail::BadElf => e matches LinkError::UnparsableElf { path: p } && p@
                    == path@,
                LoadFail::BadArchive => e matches LinkError::UnparsableArchive { path: p } && p@
                    == path@,
            },
        },
{
    let ghost bv = bytes@;
    let dot_o = String::from_str(".o");
    let dot_rlib = String::from_str(".rlib");
    if ends_with(path, &dot_o) {
        match load_object(bytes) {
            Some(o) => {
                if validate_object(&o) {
                    Ok(InputCacheItem::Elf { object: o })
                } else {
                    Err(LinkError::UnparsableElf { path: path.clone() })
                }
            },
            None => Err(LinkError::UnparsableElf { path: path.clone() }),
        }
    } else if ends_with(path, &dot_rlib) {
        let members = match archive_members(&bytes) {
            Some(ms) => ms,
            None => {
                return Err(LinkError::UnparsableArchive { path: path.clone() });
            },
        };
        let ghost msv = members@.map_values(|m: crate::decode::ArchiveMember| m@);
        let mut objs: Vec<InputObject> = Vec::new();
        let mut mnames: Vec<String> = Vec::new();
        let mut rest = members;
        let ghost mut n: int = 0;
        proof {
            assert(rest@.map_values(|m: crate::decode::ArchiveMember| m@) =~= msv.skip(0));
            assert(spec_load_members(msv, 0) == Ok::<(Seq<InputObjectV>, Seq<Seq<char>>), LoadFail>(
                (Seq::empty(), Seq::empty()),
            ));
            assert(objs@.map_values(|o: InputObject| o@) =~= Seq::<InputObjectV>::empty());
            assert(mnames@.map_values(|x: String| x@) =~= Seq::<Seq<char>>::empty());
        }
        while rest.len() > 0
            invariant
                0 <= n <= msv.len(),
                rest@.map_values(|m: crate::decode::ArchiveMember| m@) == msv.skip(n),
                spec_load_members(msv, n) matches Ok(p) && p.0 == objs@.map_values(
                    |o: InputObject| o@,
                ) && p.1 == mnames@.map_values(|x: String| x@),
            decreases rest@.len(),
        {
            let ghost rv = rest@;
            let m = rest.remove(0);
            proof {
                assert(m@ == rv.map_values(|x: crate::decode::ArchiveMember| x@)[0]);
                assert(m@ == msv[n]);
                assert forall|y: int| 0 <= y < rest@.len() implies #[trigger] rest@[y]@
                    == msv.skip(n + 1)[y] by {
                    assert(rest@[y] == rv[y + 1]);
                    assert(rv.map_values(|x: crate::decode::ArchiveMember| x@)[y + 1] == rv[y
                        + 1]@);
                    assert(msv.skip(n)[y + 1] == msv[n + 1 + y]);
                }
                assert(rest@.map_values(|x: crate::decode::ArchiveMember| x@) =~= msv.skip(
                    n + 1,
                ));
            }
            if ends_with(&m.name, &dot_o) {
                let mname = m.name;
                match load_object(m.bytes) {
                    Some(o) => {
                        if validate_object(&o) {
                            let ghost prev_o = objs@.map_values(|x: InputObject| x@);
                            let ghost prev_n = mnames@.map_values(|x: String| x@);
                            objs.push(o);
                            mnames.push(mname);
                            proof {
                                assert(objs@.map_values(|x: InputObject| x@) =~= prev_o.push(
                                    objs@.last()@,
                                ));
                                assert(mnames@.map_values(|x: String| x@) =~= prev_n.push(
                                    mnames@.last()@,
                                ));
                            }
                        } else {
                            proof {
                                lemma_load_members_err_persists(msv, n + 1, msv.len() as int);
                            }
                            return Err(LinkError::UnparsableElf { path: path.clone() });
                        }
                    },
                    None => {
                        proof {
                            lemma_load_members_err_persists(msv, n + 1, msv.len() as int);
                        }
                        return Err(LinkError::UnparsableElf { path: path.clone() });
                    },
                }
            }
            proof {
                n = n + 1;
            }
        }
        proof {
            assert(n == msv.len());
        }
        Ok(InputCacheItem::Archive { members: objs, member_names: mnames })
    } else {
        Err(LinkError::UnknownExtension { path: path.clone() })
    }
}

impl InputCache {
    /// Load every input file: a `.o` file becomes one input; an `.rlib`
    /// contributes one input per member whose name ends in `.o`, in the
    /// order the archive lists them, other members being ignored.
    ///
    /// Fails exactly on the first file that has an unknown extension or
    /// does not decode, naming the file.
    #[verifier::loop_isolation(false)]
    pub fn read_all(&mut self, inputs: Vec<SourceFile>) -> (r: Result<(), LinkError>)
        ensures
            match r {
                Ok(()) => spec_read_all(inputs@.map_values(|f: SourceFile| f@)) matches Ok(items)
                    && final(self)@.files == old(self)@.files + items && final(self)@.file_paths
                    == old(self)@.file_paths + inputs@.map_values(|f: SourceFile| f@.path) && (
                old(self)@.wf() ==> final(self)@.wf()),
                Err(e) => spec_read_all(inputs@.map_values(|f: SourceFile| f@)) matches Err(p)
                    && match p.1 {
                    LoadFail::Extension => e matches LinkError::UnknownExtension { path: q } && q@
                        == inputs@.map_values(|f: SourceFile| f@)[p.0].path,
                    LoadFail::BadElf => e matches LinkError::UnparsableElf { path: q } && q@
                        == inputs@.map_values(|f: SourceFile| f@)[p.0].path,
                    LoadFail::BadArchive => e matches LinkError::UnparsableArchive { path: q }
                        && q@ == inputs@.map_values(|f: SourceFile| f@)[p.0].path,
                },
            },
    {
        let ghost fv = inputs@.map_values(|f: SourceFile| f@);
        let ghost base_files = self@.files;
        let ghost base_paths = self@.file_paths;
        let mut rest = inputs;
        let ghost mut k: int = 0;
        proof {
            assert(rest@.map_values(|f: SourceFile| f@) =~= fv.skip(0));
            assert(self@.files =~= base_files + Seq::<InputCacheItemV>::empty());
            assert(self@.file_paths =~= base_paths + Seq::<Seq<char>>::empty());
        }
        while rest.len() > 0
            invariant
                0 <= k <= fv.len(),
                rest@.map_values(|f: SourceFile| f@) == fv.skip(k),
                spec_read_upto(fv, k) matches Ok(items) && self@.files == base_files + items,
                self@.file_paths == base_paths + fv.take(k).map_values(
                    |f: SourceFileV| f.path,
                ),
            decreases rest@.len(),
        {
            let ghost rv = rest@;
            let file = rest.remove(0);
            proof {
                assert(file@ == rv.map_values(|x: SourceFile| x@)[0]);
                assert(file@ == fv[k]);
                assert forall|y: int| 0 <= y < rest@.len() implies #[trigger] rest@[y]@
                    == fv.skip(k + 1)[y] by {
                    assert(rest@[y] == rv[y + 1]);
                    assert(rv.map_values(|x: SourceFile| x@)[y + 1] == rv[y + 1]@);
                    assert(fv.skip(k)[y + 1] == fv[k + 1 + y]);
                }
                assert(rest@.map_values(|x: SourceFile| x@) =~= fv.skip(k + 1));
            }
            let SourceFile { path, bytes } = file;
            match load_item(&path, bytes) {
                Ok(item) => {
                    let ghost prev_files = self@.files;
                    let ghost prev_paths = self@.file_paths;
                    self.files.push(item);
                    self.file_paths.push(path);
                    proof {
                        assert(self@.files =~= prev_files.push(self.files@.last()@));
                        assert(self@.file_paths =~= prev_paths.push(
                            self.file_paths@.last()@,
                        ));
                        assert(fv.take(k + 1).drop_last() =~= fv.take(k));
                        assert(fv.take(k + 1).map_values(|f: SourceFileV| f.path) =~= fv.take(
                            k,
                        ).map_values(|f: SourceFileV| f.path).push(fv[k].path));
                        k = k + 1;
                    }
                },
                Err(e) => {
                    proof {
                        assert(spec_read_upto(fv, k + 1) is Err);
                        lemma_read_upto_err_persists(fv, k + 1, fv.len() as int);
                    }
                    return Err(e);
                },
            }
        }
        proof {
            assert(k == fv.len());
            assert(fv.take(k) =~= fv);
            lemma_read_upto_wf(fv, k);
            if base_files == old(self)@.files {
            }
            let items = match spec_read_upto(fv, k) {
                Ok(items) => items,
                Err(_) => Seq::empty(),
            };
            assert(self@.files == base_files + items);
            let bc = InputCacheV { files: base_files, file_paths: base_paths };
            if bc.wf() {
                assert forall|id: InputId| self@.contains_id(id) implies (#[trigger] self@.obj(
                    id,
                )).wf() by {
                    if id.file < base_files.len() {
                        assert(self@.files[id.file as int] == bc.files[id.file as int]);
                        assert(bc.contains_id(id));
                        assert(self@.obj(id) == bc.obj(id));
                    } else {
                        assert(self@.files[id.file as int] == items[id.file - base_files.len()]);
                    }
                }
            }
        }
        Ok(())
    }
}

} // verus!
