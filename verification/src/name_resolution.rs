//! Global symbol collection and name resolution.
//!
//! A symbol is a global definition iff it has `STB_GLOBAL` binding,
//! non-hidden visibility and a non-zero section index. Every definition of
//! every input goes into one table under its name; a second definition of
//! the same name is a fatal error.

use vstd::prelude::*;

use crate::elf::{STB_GLOBAL, STB_WEAK, STV_HIDDEN};
use crate::error::LinkError;
use crate::inputs::{InputCache, InputCacheV, InputId, InputObject, InputObjectV, SymbolInfoV};

verus! {

/// Location of a global symbol: the input that defines it and the index of
/// its entry in that input's symbol table.
#[derive(Debug, Clone, Copy, PartialEq, Eq, Structural)]
pub struct GlobalLocation {
    pub input: InputId,
    pub symtab_index: u32,
}

/// One entry of the global symbol table.
#[derive(Debug, Clone)]
pub struct GlobalEntry {
    pub name: String,
    pub location: GlobalLocation,
}

/// Mathematical image of a [`GlobalEntry`].
pub struct GlobalEntryV {
    pub name: Seq<char>,
    pub location: GlobalLocation,
}

impl View for GlobalEntry {
    type V = GlobalEntryV;

    open spec fn view(&self) -> GlobalEntryV {
        GlobalEntryV { name: self.name@, location: self.location }
    }
}

/// The global symbol table: a name-keyed association list in insertion
/// order. Each name appears at most once.
pub struct GlobalTable {
    pub entries: Vec<GlobalEntry>,
}

impl View for GlobalTable {
    type V = Seq<GlobalEntryV>;

    open spec fn view(&self) -> Seq<GlobalEntryV> {
        self.entries@.map_values(|e: GlobalEntry| e@)
    }
}

/// Whether the table holds an entry for `name`.
pub open spec fn table_contains(t: Seq<GlobalEntryV>, name: Seq<char>) -> bool {
    exists|k: int| 0 <= k < t.len() && (#[trigger] t[k]).name == name
}

/// The location the table maps `name` to: the first entry with that name.
pub open spec fn table_lookup(t: Seq<GlobalEntryV>, name: Seq<char>, k: int) -> Option<
    GlobalLocation,
>
    decreases t.len() - k,
{
    if k < 0 || k >= t.len() {
        None
    } else if t[k].name == name {
        Some(t[k].location)
    } else {
        table_lookup(t, name, k + 1)
    }
}

/// Every location of the table addresses an object of `cache` and an entry
/// of that object's symbol table.
pub open spec fn table_wf(t: Seq<GlobalEntryV>, cache: InputCacheV) -> bool {
    forall|k: int|
        0 <= k < t.len() ==> cache.contains_id((#[trigger] t[k]).location.input)
            && t[k].location.symtab_index < cache.obj(t[k].location.input).symbols.len()
}

/// A location the table hands out is a location of one of its entries, so
/// a well-formed table only hands out locations that address the cache.
pub proof fn lemma_table_lookup_wf(
    t: Seq<GlobalEntryV>,
    cache: InputCacheV,
    name: Seq<char>,
    k: int,
    loc: GlobalLocation,
)
    requires
        table_wf(t, cache),
        table_lookup(t, name, k) == Some(loc),
        k >= 0,
    ensures
        cache.contains_id(loc.input),
        loc.symtab_index < cache.obj(loc.input).symbols.len(),
    decreases t.len() - k,
{
    if k < t.len() && t[k].name == name {
    } else {
        lemma_table_lookup_wf(t, cache, name, k + 1, loc);
    }
}

impl GlobalTable {
    /// An empty table.
    pub fn new() -> (r: Self)
        ensures
            r@ =~= Seq::<GlobalEntryV>::empty(),
    {
        GlobalTable { entries: Vec::new() }
    }

    /// The location `name` is mapped to, if any.
    pub fn get(&self, name: &String) -> (r: Option<GlobalLocation>)
        ensures
            r == table_lookup(self@, name@, 0),
            r is Some <==> table_contains(self@, name@),
    {
        let ghost t = self@;
        let n = self.entries.len();
        for k in 0..n
            invariant
                n == self.entries.len(),
                t == self@,
                table_lookup(t, name@, 0) == table_lookup(t, name@, k as int),
                forall|j: int| 0 <= j < k ==> (#[trigger] t[j]).name != name@,
        {
            if self.entries[k].name == *name {
                return Some(self.entries[k].location);
            }
        }
        proof {
            if table_contains(t, name@) {
                let w = choose|w: int| 0 <= w < t.len() && (#[trigger] t[w]).name == name@;
            }
        }
        None
    }
}

/// Whether a symbol is a global definition: `STB_GLOBAL` binding, not
/// hidden, and defined in some section.
pub open spec fn is_global_definition(s: SymbolInfoV) -> bool {
    &&& s.st_bind() == STB_GLOBAL
    &&& s.st_visibility() != STV_HIDDEN
    &&& s.st_shndx != 0
}

/// What a duplicated global definition reports: the symbol's name, the
/// location already in the table, and the conflicting new location.
pub struct DuplicateV {
    pub name: Seq<char>,
    pub existing: GlobalLocation,
    pub incoming: GlobalLocation,
}

/// The table after scanning the first `n` symbols of one input, or the
/// first duplicated global with both of its locations.
pub open spec fn add_defs(
    t: Seq<GlobalEntryV>,
    input: InputId,
    syms: Seq<SymbolInfoV>,
    n: int,
) -> Result<Seq<GlobalEntryV>, DuplicateV>
    decreases n,
{
    if n <= 0 {
        Ok(t)
    } else {
        match add_defs(t, input, syms, n - 1) {
            Err(d) => Err(d),
            Ok(t2) => {
                let s = syms[n - 1];
                if is_global_definition(s) {
                    if table_contains(t2, s.name) {
                        Err(
                            DuplicateV {
                                name: s.name,
                                existing: match table_lookup(t2, s.name, 0) {
                                    Some(l) => l,
                                    None => GlobalLocation { input, symtab_index: 0 },
                                },
                                incoming: GlobalLocation { input, symtab_index: (n - 1) as u32 },
                            },
                        )
                    } else {
                        Ok(
                            t2.push(
                                GlobalEntryV {
                                    name: s.name,
                                    location: GlobalLocation {
                                        input,
                                        symtab_index: (n - 1) as u32,
                                    },
                                },
                            ),
                        )
                    }
                } else {
                    Ok(t2)
                }
            },
        }
    }
}


/// The table after scanning every symbol of one input.
pub open spec fn spec_add_input(
    t: Seq<GlobalEntryV>,
    input: InputId,
    obj: InputObjectV,
) -> Result<Seq<GlobalEntryV>, DuplicateV> {
    add_defs(t, input, obj.symbols, obj.symbols.len() as int)
}

/// The table after scanning the first `k` inputs of the cache, or the
/// first duplicated global with both of its locations.
pub open spec fn spec_extract_upto(cache: InputCacheV, k: int) -> Result<
    Seq<GlobalEntryV>,
    DuplicateV,
>
    decreases k,
{
    if k <= 0 {
        Ok(Seq::empty())
    } else {
        match spec_extract_upto(cache, k - 1) {
            Err(d) => Err(d),
            Ok(t) => {
                let id = cache.ids()[k - 1];
                add_defs(t, id, cache.obj(id).symbols, cache.obj(id).symbols.len() as int)
            },
        }
    }
}

/// The global symbol table of the whole cache, or the first duplicated
/// global with both of its locations.
pub open spec fn spec_extract_globals(cache: InputCacheV) -> Result<Seq<GlobalEntryV>, DuplicateV> {
    spec_extract_upto(cache, cache.ids().len() as int)
}

/// Once the symbol scan fails, scanning further symbols keeps the failure.
proof fn lemma_add_defs_err_persists(
    t: Seq<GlobalEntryV>,
    input: InputId,
    syms: Seq<SymbolInfoV>,
    n: int,
    m: int,
)
    requires
        0 <= n <= m,
        add_defs(t, input, syms, n) is Err,
    ensures
        add_defs(t, input, syms, m) == add_defs(t, input, syms, n),
    decreases m,
{
    if m > n {
        lemma_add_defs_err_persists(t, input, syms, n, m - 1);
    }
}

/// Once the input scan fails, scanning further inputs keeps the failure.
proof fn lemma_extract_err_persists(cache: InputCacheV, k: int, m: int)
    requires
        0 <= k <= m,
        spec_extract_upto(cache, k) is Err,
    ensures
        spec_extract_upto(cache, m) == spec_extract_upto(cache, k),
    decreases m,
{
    if m > k {
        lemma_extract_err_persists(cache, k, m - 1);
    }
}

proof fn lemma_add_defs_wf(
    t: Seq<GlobalEntryV>,
    input: InputId,
    obj: InputObjectV,
    n: int,
    cache: InputCacheV,
)
    requires
        table_wf(t, cache),
        cache.contains_id(input),
        obj == cache.obj(input),
        n <= obj.symbols.len(),
        obj.symbols.len() <= u32::MAX,
    ensures
        add_defs(t, input, obj.symbols, n) matches Ok(t2) ==> table_wf(t2, cache),
    decreases n,
{
    if n > 0 {
        lemma_add_defs_wf(t, input, obj, n - 1, cache);
    }
}

/// Collect the global definitions of one input into `table`.
///
/// Fails exactly on the first global already present in the table, naming
/// the duplicate and both of its locations.
#[verifier::loop_isolation(false)]
pub fn extract_globals_from(
    input: InputId,
    obj: &InputObject,
    table: GlobalTable,
) -> (r: Result<GlobalTable, LinkError>)
    requires
        obj@.symbols.len() <= u32::MAX,
    ensures
        match r {
            Ok(t) => spec_add_input(table@, input, obj@) matches Ok(t2) && t@ == t2,
            Err(e) => e matches LinkError::DuplicateSymbol { name, existing, incoming }
                && spec_add_input(table@, input, obj@) == Err::<Seq<GlobalEntryV>, DuplicateV>(
                DuplicateV { name: name@, existing, incoming },
            ),
        },
    {
        let ghost syms = obj@.symbols;
        let ghost t0 = table@;
        let mut tbl = table;
        let n = obj.symbols.len();
        let mut k: usize = 0;
        while k < n
            invariant
                k <= n,
                n == obj.symbols.len(),
                syms == obj@.symbols,
                n <= u32::MAX,
                add_defs(t0, input, syms, k as int) matches Ok(t2) && tbl@ == t2,
            decreases n - k,
        {
            let sym = &obj.symbols[k];
            proof {
                assert(obj.symbols@[k as int]@ == syms[k as int]);
            }
            if sym.st_bind() == STB_GLOBAL && sym.st_visibility() != STV_HIDDEN && sym.st_shndx
                != 0 {
                match tbl.get(&sym.name) {
                    Some(existing) => {
                        let err_name = sym.name.clone();
                        let incoming = GlobalLocation { input, symtab_index: k as u32 };
                        proof {
                            assert(add_defs(t0, input, syms, k + 1) == Err::<
                                Seq<GlobalEntryV>,
                                DuplicateV,
                            >(
                                DuplicateV {
                                    name: syms[k as int].name,
                                    existing,
                                    incoming,
                                },
                            ));
                            lemma_add_defs_err_persists(t0, input, syms, k + 1, n as int);
                            assert(obj@.symbols.len() as int == n as int);
                            assert(err_name@ == syms[k as int].name);
                        }
                        return Err(
                            LinkError::DuplicateSymbol { name: err_name, existing, incoming },
                        );
                    },
                    None => {},
                }
                tbl.entries.push(
                    GlobalEntry {
                        name: sym.name.clone(),
                        location: GlobalLocation { input, symtab_index: k as u32 },
                    },
                );
                proof {
                    assert(tbl@ =~= (match add_defs(t0, input, syms, k + 1) {
                        Ok(t2) => t2,
                        Err(_) => tbl@,
                    }));
                }
            }
            k += 1;
        }
        proof {
            assert(obj@.symbols.len() as int == n as int);
        }
        Ok(tbl)
    }

/// Build the global symbol table of every input.
///
/// Fails exactly on the first duplicated global definition, naming it and
/// both of its locations.
pub fn extract_globals(inputs: &InputCache) -> (r: Result<GlobalTable, LinkError>)
    requires
        forall|id: InputId|
            inputs@.contains_id(id) ==> (#[trigger] inputs@.obj(id)).symbols.len() <= u32::MAX,
    ensures
        match r {
            Ok(table) => spec_extract_globals(inputs@) matches Ok(t) && table@ == t && table_wf(
                table@,
                inputs@,
            ),
            Err(e) => e matches LinkError::DuplicateSymbol { name, existing, incoming }
                && spec_extract_globals(inputs@) == Err::<Seq<GlobalEntryV>, DuplicateV>(
                DuplicateV { name: name@, existing, incoming },
            ),
        },
{
    let ids = inputs.iter_ids();
    proof {
        let nfiles = inputs.files.len();
        assert(inputs@.files.len() == nfiles);
        inputs@.lemma_ids_contained();
    }
    let mut table = GlobalTable::new();
    let n = ids.len();
    for k in 0..n
        invariant
            n == ids.len(),
            ids@ == inputs@.ids(),
            forall|j: int| 0 <= j < n ==> inputs@.contains_id(#[trigger] ids@[j]),
            forall|id: InputId|
                inputs@.contains_id(id) ==> (#[trigger] inputs@.obj(id)).symbols.len()
                    <= u32::MAX,
            spec_extract_upto(inputs@, k as int) matches Ok(t) && table@ == t,
            table_wf(table@, inputs@),
    {
        let id = ids[k];
        let obj = inputs.get_elf(id);
        let ghost t_before = table@;
        let r = extract_globals_from(id, obj, table);
        proof {
            lemma_add_defs_wf(t_before, id, inputs@.obj(id), inputs@.obj(id).symbols.len() as int, inputs@);
        }
        match r {
            Ok(t) => {
                table = t;
            }
            Err(e) => {
                proof {
                    assert(spec_extract_upto(inputs@, k + 1) is Err);
                    lemma_extract_err_persists(inputs@, k + 1, inputs@.ids().len() as int);
                }
                return Err(e);
            }
        }
    }
    Ok(table)
}

/// How a symbol name resolves within one input.
#[derive(Debug)]
pub enum NameResolved {
    /// Bound locally in the input; carries the symbol's `st_info`.
    Local(u8),
    /// Globally or weakly bound: to be resolved through the global
    /// symbol table, whichever input defines it.
    Import,
}

/// The index of the first symbol named `name`, scanning from `k`.
pub open spec fn sym_match_index(syms: Seq<SymbolInfoV>, name: Seq<char>, k: int) -> Option<int>
    decreases syms.len() - k,
{
    if k < 0 || k >= syms.len() {
        None
    } else if syms[k].name == name {
        Some(k)
    } else {
        sym_match_index(syms, name, k + 1)
    }
}

/// How `name` resolves in `obj`: by the first symbol carrying that name.
/// A globally or weakly bound symbol goes through the global symbol table,
/// whether its definition lives in this input or in another; a locally
/// bound one is a local symbol.
pub open spec fn spec_resolve_name(obj: InputObjectV, name: Seq<char>) -> Option<NameResolved> {
    match sym_match_index(obj.symbols, name, 0) {
        None => None,
        Some(k) => Some(
            if obj.symbols[k].st_bind() == STB_GLOBAL || obj.symbols[k].st_bind() == STB_WEAK {
                NameResolved::Import
            } else {
                NameResolved::Local(obj.symbols[k].st_info)
            },
        ),
    }
}

/// Resolve `name` against the symbol table of `obj`.
pub fn resolve_name(obj: &InputObject, name: &String) -> (r: Option<NameResolved>)
    ensures
        r == spec_resolve_name(obj@, name@),
{
    let ghost syms = obj@.symbols;
    let n = obj.symbols.len();
    for k in 0..n
        invariant
            n == obj.symbols.len(),
            syms == obj@.symbols,
            sym_match_index(syms, name@, 0) == sym_match_index(syms, name@, k as int),
    {
        proof {
            assert(obj.symbols@[k as int]@ == syms[k as int]);
        }
        if obj.symbols[k].name == *name {
            let bind = obj.symbols[k].st_bind();
            if bind == STB_GLOBAL || bind == STB_WEAK {
                return Some(NameResolved::Import);
            } else {
                return Some(NameResolved::Local(obj.symbols[k].st_info));
            }
        }
    }
    None
}

} // verus!
