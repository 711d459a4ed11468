//! Symbols and the global symbol table.
use crate::name_map;
use crate::name_map::NameMap;
use crate::util::bytes;
use vstd::prelude::*;

verus! {

/// A symbol index.
pub type SymbolId = u32;

/// Where a symbol's definition comes from.
#[derive(Clone, Copy, Debug, PartialEq, Eq, Structural)]
pub enum Origin {
    /// Not defined by any input file (yet).
    Undef,
    /// Defined by an object file (index).
    Obj(u32),
    /// Exported by a dylib (index).
    Dylib(u32),
    /// Defined by the linker itself, e.g. `__mh_execute_header`.
    Synthetic,
}

/// "No index" for `file`, `isec` and `aux_idx`.
pub const NONE: u32 = u32::MAX;

pub const KIND_UNDEF: u8 = 0;

pub const KIND_OBJ: u8 = 1;

pub const KIND_DYLIB: u8 = 2;

pub const KIND_SYNTHETIC: u8 = 3;

/// The boolean attributes of a symbol.
#[derive(Clone, Copy, Debug, PartialEq, Eq, Structural)]
pub struct SymFlags {
    /// An external (global) symbol.
    pub is_extern: bool,
    /// A weak definition.
    pub is_weak_def: bool,
    /// The definition is in a dylib, so references need dynamic binding.
    pub is_imported: bool,
    /// Some relocation refers to this symbol, so that leaving it
    /// unresolved is an error.
    pub is_used: bool,
    /// Resolves globally at link time but is neither exported nor kept as
    /// an external symbol.
    pub is_private_extern: bool,
    /// References may go unresolved at load time (a weak import).
    pub is_weak_ref: bool,
    /// The symbol must survive dead-stripping.
    pub no_dead_strip: bool,
    /// A tentative definition not yet converted; `value` holds its size.
    pub is_common: bool,
    /// A transient per-pass flag, set by `mark`.
    pub marked: bool,
    /// Referenced non-weakly by some object.
    pub is_strong_ref: bool,
}

/// The flags of a new symbol.
pub open spec fn no_flags() -> SymFlags {
    SymFlags {
        is_extern: false,
        is_weak_def: false,
        is_imported: false,
        is_used: false,
        is_private_extern: false,
        is_weak_ref: false,
        no_dead_strip: false,
        is_common: false,
        marked: false,
        is_strong_ref: false,
    }
}

#[derive(Debug)]
pub struct Symbol {
    pub name: Vec<u8>,
    /// The defining object or dylib index (see `kind`), or `NONE`.
    pub file: u32,
    /// The defining subsection, or `NONE`. Read through `isec()`.
    pub isec: u32,
    /// Offset from the start of `isec`, or the absolute value.
    pub value: u64,
    /// Index into the table of slot indices, or `NONE`.
    pub aux_idx: u32,
    pub flags: SymFlags,
    /// Which of `Origin`'s variants this is.
    pub kind: u8,
    pub common_p2align: u8,
}

impl Symbol {
    /// Where the symbol's definition comes from.
    pub open spec fn defined_by(self) -> Origin {
        if self.kind == KIND_OBJ {
            Origin::Obj(self.file)
        } else if self.kind == KIND_DYLIB {
            Origin::Dylib(self.file)
        } else if self.kind == KIND_SYNTHETIC {
            Origin::Synthetic
        } else {
            Origin::Undef
        }
    }

    /// The subsection that holds the definition, if one does.
    pub open spec fn section(self) -> Option<u32> {
        if self.isec != NONE {
            Some(self.isec)
        } else {
            None
        }
    }

    /// The symbol with its origin replaced.
    pub open spec fn with_origin(self, o: Origin) -> Symbol {
        match o {
            Origin::Undef => Symbol { kind: KIND_UNDEF, file: NONE, ..self },
            Origin::Obj(i) => Symbol { kind: KIND_OBJ, file: i, ..self },
            Origin::Dylib(i) => Symbol { kind: KIND_DYLIB, file: i, ..self },
            Origin::Synthetic => Symbol { kind: KIND_SYNTHETIC, file: NONE, ..self },
        }
    }

    /// The symbol with its section replaced.
    pub open spec fn with_isec(self, isec: Option<u32>) -> Symbol {
        match isec {
            Some(i) => Symbol { isec: i, ..self },
            None => Symbol { isec: NONE, ..self },
        }
    }

    /// True once a definition is known.
    pub open spec fn has_definition(self) -> bool {
        self.defined_by() != Origin::Undef
    }

    /// A new undefined symbol.
    pub fn new(name: Vec<u8>) -> (r: Symbol)
        ensures
            r == Symbol::fresh(name),
    {
        Symbol {
            name,
            file: NONE,
            isec: NONE,
            value: 0,
            aux_idx: NONE,
            flags: SymFlags {
                is_extern: false,
                is_weak_def: false,
                is_imported: false,
                is_used: false,
                is_private_extern: false,
                is_weak_ref: false,
                no_dead_strip: false,
                is_common: false,
                marked: false,
                is_strong_ref: false,
            },
            kind: KIND_UNDEF,
            common_p2align: 0,
        }
    }

    /// A new undefined symbol.
    pub open spec fn fresh(name: Vec<u8>) -> Symbol {
        Symbol {
            name,
            file: NONE,
            isec: NONE,
            value: 0,
            aux_idx: NONE,
            flags: no_flags(),
            kind: KIND_UNDEF,
            common_p2align: 0,
        }
    }

    /// The symbol's name.
    pub fn name(&self) -> (r: &[u8])
        ensures
            r@ == self.name@,
    {
        self.name.as_slice()
    }

    /// Where the symbol's definition comes from.
    pub fn origin(&self) -> (r: Origin)
        ensures
            r == self.defined_by(),
    {
        if self.kind == KIND_OBJ {
            Origin::Obj(self.file)
        } else if self.kind == KIND_DYLIB {
            Origin::Dylib(self.file)
        } else if self.kind == KIND_SYNTHETIC {
            Origin::Synthetic
        } else {
            Origin::Undef
        }
    }

    /// Replaces the symbol's origin.
    pub fn set_origin(&mut self, o: Origin)
        ensures
            *final(self) == old(self).with_origin(o),
            final(self).defined_by() == o,
    {
        match o {
            Origin::Undef => {
                self.kind = KIND_UNDEF;
                self.file = NONE;
            },
            Origin::Obj(i) => {
                self.kind = KIND_OBJ;
                self.file = i;
            },
            Origin::Dylib(i) => {
                self.kind = KIND_DYLIB;
                self.file = i;
            },
            Origin::Synthetic => {
                self.kind = KIND_SYNTHETIC;
                self.file = NONE;
            },
        }
    }

    /// The subsection that holds the definition, if one does.
    pub fn isec(&self) -> (r: Option<u32>)
        ensures
            r == self.section(),
    {
        if self.isec != NONE {
            Some(self.isec)
        } else {
            None
        }
    }

    /// Replaces the symbol's subsection.
    pub fn set_isec(&mut self, isec: Option<u32>)
        ensures
            *final(self) == old(self).with_isec(isec),
            isec != Some(NONE) ==> final(self).section() == isec,
    {
        self.isec = match isec {
            Some(i) => i,
            None => NONE,
        };
    }

    /// True once a definition is known.
    pub fn is_defined(&self) -> (r: bool)
        ensures
            r == self.has_definition(),
    {
        self.origin() != Origin::Undef
    }

    /// Sets the transient mark; true if it was clear.
    pub fn mark(&mut self) -> (r: bool)
        ensures
            r == !old(self).flags.marked,
            *final(self) == (Symbol {
                flags: SymFlags { marked: true, ..old(self).flags },
                ..*old(self)
            }),
    {
        let fresh = !self.flags.marked;
        self.flags.marked = true;
        fresh
    }

    /// Clears the transient mark.
    pub fn unmark(&mut self)
        ensures
            *final(self) == (Symbol {
                flags: SymFlags { marked: false, ..old(self).flags },
                ..*old(self)
            }),
    {
        self.flags.marked = false;
    }

    /// True while the transient mark is set.
    pub fn is_marked(&self) -> (r: bool)
        ensures
            r == self.flags.marked,
    {
        self.flags.marked
    }
}

/// What a symbol holds, as mathematical values.
#[verifier::ext_equal]
pub struct SymView {
    pub name: Seq<u8>,
    pub file: u32,
    pub isec: u32,
    pub value: u64,
    pub aux_idx: u32,
    pub flags: SymFlags,
    pub kind: u8,
    pub common_p2align: u8,
}

impl View for Symbol {
    type V = SymView;

    open spec fn view(&self) -> SymView {
        SymView {
            name: self.name@,
            file: self.file,
            isec: self.isec,
            value: self.value,
            aux_idx: self.aux_idx,
            flags: self.flags,
            kind: self.kind,
            common_p2align: self.common_p2align,
        }
    }
}

/// A new undefined symbol.
pub open spec fn fresh_view(name: Seq<u8>) -> SymView {
    SymView {
        name,
        file: NONE,
        isec: NONE,
        value: 0,
        aux_idx: NONE,
        flags: no_flags(),
        kind: KIND_UNDEF,
        common_p2align: 0,
    }
}

impl SymView {
    /// True while no definition is known.
    pub open spec fn is_open(self) -> bool {
        self.kind != KIND_OBJ && self.kind != KIND_DYLIB && self.kind != KIND_SYNTHETIC
    }

    /// The symbol defined by the linker itself.
    pub open spec fn synthetic(self) -> SymView {
        SymView { kind: KIND_SYNTHETIC, file: NONE, ..self }
    }

    /// The symbol, visible outside its file or not.
    pub open spec fn with_extern(self, is_extern: bool) -> SymView {
        SymView { flags: SymFlags { is_extern, ..self.flags }, ..self }
    }

    /// True when what the symbol refers to exists, with so many
    /// subsections, libraries and slot entries.
    pub open spec fn refs_ok(self, nisecs: int, ndylibs: int, naux: int) -> bool {
        &&& self.isec == NONE || self.isec < nisecs
        &&& self.kind == KIND_DYLIB ==> self.file == NONE || self.file < ndylibs
        &&& self.aux_idx == NONE || self.aux_idx < naux
    }
}

/// What a list of symbols holds.
pub open spec fn symbol_views(syms: Seq<Symbol>) -> Seq<SymView> {
    syms.map_values(|s: Symbol| s@)
}

/// What a symbol table holds: the symbols of global names, and all symbols.
#[verifier::ext_equal]
pub struct TableState {
    pub ids: Map<Seq<u8>, u32>,
    pub syms: Seq<SymView>,
}

impl TableState {
    /// The table with a symbol for a global name. `None` when there is no
    /// room for a new one.
    pub open spec fn with_symbol(self, name: Seq<u8>) -> Option<TableState> {
        if self.ids.contains_key(name) {
            Some(self)
        } else if self.syms.len() + 1 >= NONE {
            None
        } else {
            Some(
                TableState {
                    ids: self.ids.insert(name, self.syms.len() as u32),
                    syms: self.syms.push(fresh_view(name)),
                },
            )
        }
    }

    /// The table with a slot for a file-local symbol.
    pub open spec fn with_local(self, name: Seq<u8>) -> TableState {
        TableState { syms: self.syms.push(fresh_view(name)), ..self }
    }

    /// The table with a symbol replaced.
    pub open spec fn with(self, id: int, s: SymView) -> TableState {
        TableState { syms: self.syms.update(id, s), ..self }
    }

    /// True when what the symbols refer to exists.
    pub open spec fn refs_ok(self, nisecs: int, ndylibs: int, naux: int) -> bool {
        forall|i: int|
            0 <= i < self.syms.len() ==> (#[trigger] self.syms[i]).refs_ok(nisecs, ndylibs, naux)
    }
}

/// Sentinel for a synthetic-slot index a symbol does not have.
pub const NO_IDX: u32 = u32::MAX;

/// A symbol's synthetic-slot indices (__stubs, __got, __thread_ptrs,
/// __objc_stubs), each `NO_IDX` when absent.
#[derive(Debug, Clone)]
pub struct SymAux {
    pub stub_idx: u32,
    pub got_idx: u32,
    pub tlv_idx: u32,
    pub objc_stub_idx: u32,
    /// The addresses of this symbol's range-extension thunk entries,
    /// sorted, so that an out-of-range branch can find one within reach.
    pub thunk_addrs: Vec<u64>,
}

impl Default for SymAux {
    /// No slots.
    fn default() -> (r: SymAux)
        ensures
            r.stub_idx == NO_IDX,
            r.got_idx == NO_IDX,
            r.tlv_idx == NO_IDX,
            r.objc_stub_idx == NO_IDX,
            r.thunk_addrs@ == Seq::<u64>::empty(),
    {
        SymAux {
            stub_idx: NO_IDX,
            got_idx: NO_IDX,
            tlv_idx: NO_IDX,
            objc_stub_idx: NO_IDX,
            thunk_addrs: Vec::new(),
        }
    }
}

/// The XXH3 hash of a byte string.
pub uninterp spec fn xxh3(data: Seq<u8>) -> u64;

/// Calls `xxhash_rust::xxh3::xxh3_64`, a fixed function of its input. It is
/// the hash of a symbol table key, which the sharded table and its callers
/// share.
#[verifier::external_body]
pub fn hash_key(key: &[u8]) -> (r: u64)
    ensures
        r == xxh3(key@),
{
    xxhash_rust::xxh3::xxh3_64(key)
}

/// The number of parts of the name map.
pub const NUM_SHARDS: usize = 64;

/// The part of the name map that a hash belongs to.
pub fn shard_of(hash: u64) -> (r: usize)
    ensures
        r == hash % 64,
        r < NUM_SHARDS,
{
    (hash % NUM_SHARDS as u64) as usize
}

/// The part of the name map that holds a name.
pub open spec fn home_shard(name: Seq<u8>) -> int {
    xxh3(name) as int % 64
}

/// All symbols in this link. Global symbols are interned by name so that
/// all references to one name share a slot; local symbols get anonymous
/// slots of their own. The name map is sharded by a hash of the name.
#[derive(Debug)]
pub struct SymbolTable {
    pub shards: Vec<NameMap>,
    pub syms: Vec<Symbol>,
}

/// The names of `names` that `known` lacks, each once, in the order of
/// their first occurrence.
pub open spec fn new_names(known: Set<Seq<u8>>, names: Seq<Seq<u8>>) -> Seq<Seq<u8>>
    decreases names.len(),
{
    if names.len() == 0 {
        Seq::empty()
    } else {
        let head = new_names(known, names.drop_last());
        if known.contains(names.last()) || head.contains(names.last()) {
            head
        } else {
            head.push(names.last())
        }
    }
}

/// The names of `names` that belong to shard `s`, in order.
pub open spec fn names_of_shard(names: Seq<Seq<u8>>, s: int) -> Seq<Seq<u8>>
    decreases names.len(),
{
    if names.len() == 0 {
        Seq::empty()
    } else {
        let head = names_of_shard(names.drop_last(), s);
        if home_shard(names.last()) == s {
            head.push(names.last())
        } else {
            head
        }
    }
}

/// The names of `names` that belong to the first `n` shards, shard by
/// shard.
pub open spec fn by_shard(names: Seq<Seq<u8>>, n: int) -> Seq<Seq<u8>>
    decreases n,
{
    if n <= 0 {
        Seq::empty()
    } else {
        by_shard(names, n - 1) + names_of_shard(names, n - 1)
    }
}

/// The names of a list of symbols.
pub open spec fn sym_names(syms: Seq<Symbol>) -> Seq<Seq<u8>> {
    syms.map_values(|s: Symbol| s.name@)
}

/// The names of a batch of (name, hash) pairs.
pub open spec fn batch_names(batch: Seq<(Vec<u8>, u64)>) -> Seq<Seq<u8>> {
    batch.map_values(|e: (Vec<u8>, u64)| e.0@)
}

impl SymbolTable {
    /// The interned names with their symbols.
    pub open spec fn ids(self) -> Map<Seq<u8>, u32> {
        Map::new(
            |name: Seq<u8>| name_map::entries(self.shards[home_shard(name)]).contains_key(name),
            |name: Seq<u8>| name_map::entries(self.shards[home_shard(name)])[name],
        )
    }

    /// The table is well-formed: every interned name has a symbol that
    /// bears it.
    pub open spec fn wf(self) -> bool {
        &&& self.shards.len() == NUM_SHARDS
        &&& self.syms.len() < NONE
        &&& forall|name: Seq<u8>| #[trigger]
            self.ids().contains_key(name) ==> self.ids()[name] < self.syms.len()
                && self.syms[self.ids()[name] as int].name@ == name
    }

    /// The symbols from `from` on are new undefined ones.
    pub open spec fn fresh_from(self, from: int) -> bool {
        forall|i: int|
            from <= i < self.syms.len() ==> (#[trigger] self.syms[i]) == Symbol::fresh(
                self.syms[i].name,
            )
    }

    /// The names are interned under consecutive ids, from `from` on.
    pub open spec fn numbers_from(self, from: int, names: Seq<Seq<u8>>) -> bool {
        forall|k: int|
            0 <= k < names.len() ==> self.ids().contains_key(#[trigger] names[k])
                && self.ids()[names[k]] == from + k
    }

    /// An empty table.
    pub fn new() -> (r: SymbolTable)
        ensures
            r.wf(),
            r.syms.len() == 0,
            r.ids() == Map::<Seq<u8>, u32>::empty(),
    {
        let mut shards: Vec<NameMap> = Vec::new();
        while shards.len() < NUM_SHARDS
            invariant
                shards.len() <= NUM_SHARDS,
                forall|i: int, name: Seq<u8>|
                    0 <= i < shards.len() ==> !(#[trigger] name_map::entries(
                        shards[i],
                    ).contains_key(name)),
            decreases NUM_SHARDS - shards.len(),
        {
            shards.push(NameMap::new());
        }
        let r = SymbolTable { shards, syms: Vec::new() };
        assert(r.ids() =~= Map::<Seq<u8>, u32>::empty());
        r
    }

    /// Returns the symbol for a global name if it exists.
    pub fn get(&self, name: &[u8]) -> (r: Option<SymbolId>)
        requires
            self.wf(),
        ensures
            r == if self.ids().contains_key(name@) {
                Some(self.ids()[name@])
            } else {
                None::<u32>
            },
    {
        let shard: usize = shard_of(hash_key(name));
        self.shards[shard].get(name)
    }

    /// Returns the symbol for a global name whose hash is known, creating
    /// it if needed.
    fn intern_hashed(&mut self, name: &[u8], hash: u64) -> (r: SymbolId)
        requires
            old(self).wf(),
            old(self).syms.len() + 1 < NONE,
            hash == xxh3(name@),
        ensures
            final(self).wf(),
            final(self).ids() == if old(self).ids().contains_key(name@) {
                old(self).ids()
            } else {
                old(self).ids().insert(name@, old(self).syms.len() as u32)
            },
            r == final(self).ids()[name@],
            final(self).ids().contains_key(name@),
            sym_names(final(self).syms@) == sym_names(old(self).syms@) + new_names(
                old(self).ids().dom(),
                seq![name@],
            ),
            final(self).syms@.take(old(self).syms.len() as int) == old(self).syms@,
            final(self).fresh_from(old(self).syms.len() as int),
    {
        let shard: usize = shard_of(hash);
        let ghost before = *self;
        proof {
            reveal_with_fuel(new_names, 2);
            assert(seq![name@].drop_last() =~= Seq::<Seq<u8>>::empty());
        }
        match self.shards[shard].get(name) {
            Some(id) => {
                assert(before.ids().contains_key(name@));
                assert(self.syms@.take(self.syms.len() as int) =~= self.syms@);
                assert(sym_names(self.syms@) =~= sym_names(before.syms@) + new_names(
                    before.ids().dom(),
                    seq![name@],
                ));
                id
            },
            None => {
                let id: u32 = self.syms.len() as u32;
                self.syms.push(Symbol::new(bytes::to_vec(name)));
                self.shards[shard].insert(bytes::to_vec(name), id);
                proof {
                    assert(self.ids() =~= before.ids().insert(name@, id)) by {
                        assert forall|n: Seq<u8>| #[trigger]
                            self.ids().contains_key(n) == before.ids().insert(
                                name@,
                                id,
                            ).contains_key(n) by {
                            if home_shard(n) != shard {
                                assert(self.shards[home_shard(n)] == before.shards[home_shard(n)]);
                            }
                        }
                        assert forall|n: Seq<u8>| #[trigger]
                            self.ids().contains_key(n) implies self.ids()[n]
                            == before.ids().insert(name@, id)[n] by {
                            if home_shard(n) != shard {
                                assert(self.shards[home_shard(n)] == before.shards[home_shard(n)]);
                            }
                        }
                    }
                    assert(sym_names(self.syms@) =~= sym_names(before.syms@).push(name@));
                    assert(sym_names(self.syms@) =~= sym_names(before.syms@) + new_names(
                        before.ids().dom(),
                        seq![name@],
                    ));
                    assert(self.syms@.take(before.syms.len() as int) =~= before.syms@);
                    assert forall|n: Seq<u8>| #[trigger] self.ids().contains_key(n) implies
                        self.ids()[n] < self.syms.len() && self.syms[self.ids()[n] as int].name@
                        == n by {
                        if n != name@ {
                            assert(before.ids().contains_key(n));
                        }
                    }
                }
                id
            },
        }
    }

    /// Returns the symbol for a global name, creating it if needed.
    pub fn intern(&mut self, name: &[u8]) -> (r: SymbolId)
        requires
            old(self).wf(),
            old(self).syms.len() + 1 < NONE,
        ensures
            final(self).wf(),
            final(self).ids() == if old(self).ids().contains_key(name@) {
                old(self).ids()
            } else {
                old(self).ids().insert(name@, old(self).syms.len() as u32)
            },
            r == final(self).ids()[name@],
            final(self).ids().contains_key(name@),
            sym_names(final(self).syms@) == sym_names(old(self).syms@) + new_names(
                old(self).ids().dom(),
                seq![name@],
            ),
            final(self).syms@.take(old(self).syms.len() as int) == old(self).syms@,
            final(self).fresh_from(old(self).syms.len() as int),
            old(self).state().with_symbol(name@) == Some(final(self).state()),
    {
        let ghost before = *self;
        let hash: u64 = hash_key(name);
        let id: u32 = self.intern_hashed(name, hash);
        proof {
            let n = before.syms.len() as int;
            reveal_with_fuel(new_names, 2);
            assert(seq![name@].drop_last() =~= Seq::<Seq<u8>>::empty());
            assert(sym_names(self.syms@).len() == self.syms.len());
            assert(sym_names(before.syms@).len() == n);
            assert forall|i: int| 0 <= i < n implies #[trigger] self.syms[i] == before.syms[i] by {
                assert(self.syms@.take(n)[i] == before.syms@[i]);
            }
            if before.ids().contains_key(name@) {
                assert(sym_names(self.syms@) =~= sym_names(before.syms@));
                assert(symbol_views(self.syms@) =~= symbol_views(before.syms@));
            } else {
                assert(sym_names(self.syms@) =~= sym_names(before.syms@).push(name@));
                assert(self.syms.len() == n + 1);
                assert(sym_names(self.syms@)[n] == self.syms[n].name@);
                assert(self.syms[n] == Symbol::fresh(self.syms[n].name));
                assert(symbol_views(self.syms@) =~= symbol_views(before.syms@).push(
                    fresh_view(name@),
                ));
            }
        }
        id
    }

    /// What the table holds.
    pub open spec fn state(self) -> TableState {
        TableState { ids: self.ids(), syms: symbol_views(self.syms@) }
    }

    /// Returns the symbol for a global name, creating it if needed. `None`
    /// when there is no room for it.
    pub fn find_or_add(&mut self, name: &[u8]) -> (r: Option<SymbolId>)
        requires
            old(self).wf(),
        ensures
            final(self).wf(),
            match r {
                Some(id) => {
                    &&& old(self).state().with_symbol(name@) == Some(final(self).state())
                    &&& final(self).state().ids.contains_key(name@)
                    &&& id == final(self).state().ids[name@]
                    &&& id < final(self).syms.len()
                },
                None => old(self).state().with_symbol(name@) is None && *final(self) == *old(self),
            },
    {
        let ghost before = *self;
        if let Some(id) = self.get(name) {
            return Some(id);
        }
        if self.syms.len() >= 0xffff_fffe {
            return None;
        }
        let id: u32 = self.intern(name);
        Some(id)
    }

    /// Creates an anonymous slot for a file-local symbol.
    pub fn add_local(&mut self, name: Vec<u8>) -> (r: SymbolId)
        requires
            old(self).wf(),
            old(self).syms.len() + 1 < NONE,
        ensures
            final(self).wf(),
            final(self).ids() == old(self).ids(),
            r == old(self).syms.len(),
            final(self).syms@ == old(self).syms@.push(Symbol::fresh(name)),
            final(self).state() == old(self).state().with_local(name@),
    {
        let ghost before = *self;
        let id: u32 = self.syms.len() as u32;
        let ghost nv = name@;
        self.syms.push(Symbol::new(name));
        proof {
            assert(self.ids() =~= before.ids());
            assert(symbol_views(self.syms@) =~= symbol_views(before.syms@).push(fresh_view(nv)));
            assert forall|n: Seq<u8>| #[trigger] self.ids().contains_key(n) implies self.ids()[n]
                < self.syms.len() && self.syms[self.ids()[n] as int].name@ == n by {
                assert(before.ids().contains_key(n));
            }
        }
        id
    }

    /// The table after names were interned all at once in another one, and
    /// the names' symbols: a known name keeps its symbol, and each new name
    /// has a new undefined symbol of its own. The new symbols stand behind
    /// all others, shard by shard, in the order of their first occurrence.
    pub open spec fn gathered(
        self,
        before: SymbolTable,
        names: Seq<Seq<u8>>,
        ids: Seq<SymbolId>,
    ) -> bool {
        let added = new_names(before.ids().dom(), by_shard(names, 64));
        &&& sym_names(self.syms@) == sym_names(before.syms@) + added
        &&& self.syms@.take(before.syms.len() as int) == before.syms@
        &&& self.fresh_from(before.syms.len() as int)
        &&& before.ids().submap_of(self.ids())
        &&& self.ids().dom() == before.ids().dom().union(names.to_set())
        &&& self.numbers_from(before.syms.len() as int, added)
        &&& ids.len() == names.len()
        &&& forall|i: int|
            0 <= i < names.len() ==> self.ids().contains_key(#[trigger] names[i]) && ids[i]
                == self.ids()[names[i]]
    }

    /// Interns every (name, precomputed-hash) pair at once, returning ids
    /// aligned with the batch. New symbols take contiguous id ranges shard
    /// by shard, in the order of their first occurrence within a shard, so
    /// ids depend only on input order and the hash.
    pub fn gather(&mut self, batch: &[(Vec<u8>, u64)]) -> (r: Vec<SymbolId>)
        requires
            old(self).wf(),
            old(self).syms.len() + batch.len() < NONE,
            forall|i: int| 0 <= i < batch.len() ==> (#[trigger] batch[i]).1 == xxh3(batch[i].0@),
        ensures
            final(self).wf(),
            final(self).gathered(*old(self), batch_names(batch@), r@),
    {
        let ghost start = *self;
        let ghost names = batch_names(batch@);
        let mut ids: Vec<u32> = Vec::new();
        while ids.len() < batch.len()
            invariant
                ids.len() <= batch.len(),
            decreases batch.len() - ids.len(),
        {
            ids.push(0);
        }
        let mut s: usize = 0;
        let ghost mut done: nat = 0;
        proof {
            lemma_pending(names, 0);
            assert(sym_names(self.syms@) =~= sym_names(start.syms@) + new_names(
                start.ids().dom(),
                by_shard(names, 0),
            ));
            assert(self.syms@.take(start.syms.len() as int) =~= start.syms@);
            assert(start.ids().dom() =~= start.ids().dom().union(by_shard(names, 0).to_set()));
        }
        while s < NUM_SHARDS
            invariant
                s <= 64,
                names == batch_names(batch@),
                ids.len() == batch.len(),
                forall|i: int| 0 <= i < batch.len() ==> (#[trigger] batch[i]).1 == xxh3(batch[i].0@),
                start.syms.len() + batch.len() < NONE,
                self.table_step(start, by_shard(names, s as int)),
                done == by_shard(names, s as int).len(),
                done + pending(names, s as int) == names.len(),
                forall|i: int|
                    0 <= i < batch.len() && home_shard(batch[i].0@) < s ==> self.ids().contains_key(
                        #[trigger] batch[i].0@,
                    ) && ids[i] == self.ids()[batch[i].0@],
            decreases 64 - s,
        {
            let mut i: usize = 0;
            proof {
                assert(by_shard(names, s as int) + names_of_shard(names.take(0), s as int)
                    =~= by_shard(names, s as int));
                lemma_pending(names, s as int);
            }
            while i < batch.len()
                invariant
                    s < 64,
                    i <= batch.len(),
                    names == batch_names(batch@),
                    ids.len() == batch.len(),
                    forall|i: int|
                        0 <= i < batch.len() ==> (#[trigger] batch[i]).1 == xxh3(batch[i].0@),
                    start.syms.len() + batch.len() < NONE,
                    done == by_shard(names, s as int).len(),
                    done + names_of_shard(names, s as int).len() <= names.len(),
                    self.table_step(
                        start,
                        by_shard(names, s as int) + names_of_shard(names.take(i as int), s as int),
                    ),
                    forall|j: int|
                        0 <= j < batch.len() && (home_shard(batch[j].0@) < s || (j < i
                            && home_shard(batch[j].0@) == s)) ==> self.ids().contains_key(
                            #[trigger] batch[j].0@,
                        ) && ids[j] == self.ids()[batch[j].0@],
                decreases batch.len() - i,
            {
                let hash: u64 = batch[i].1;
                let ghost before = *self;
                let ghost prefix = by_shard(names, s as int) + names_of_shard(
                    names.take(i as int),
                    s as int,
                );
                proof {
                    assert(names.take(i + 1).drop_last() =~= names.take(i as int));
                    assert(names.take(i + 1).last() == batch[i as int].0@);
                    lemma_shard_prefix_len(names, i as int, s as int);
                    lemma_new_names_len(start.ids().dom(), prefix);
                }
                if shard_of(hash) == s {
                    proof {
                        lemma_shard_prefix_len(names, i + 1, s as int);
                        assert(self.syms.len() + 1 <= start.syms.len() + names.len()) by {
                            assert(sym_names(self.syms@).len() == self.syms.len());
                            assert(sym_names(start.syms@).len() == start.syms.len());
                        }
                    }
                    let id: u32 = self.intern_hashed(batch[i].0.as_slice(), hash);
                    ids.set(i, id);
                    proof {
                        let name = batch[i as int].0@;
                        lemma_table_step(start, before, *self, prefix, name);
                        assert(prefix.push(name) =~= by_shard(names, s as int) + names_of_shard(
                            names.take(i + 1),
                            s as int,
                        ));
                    }
                }
                i += 1;
            }
            proof {
                assert(names.take(names.len() as int) =~= names);
                lemma_pending(names, s as int);
                done = by_shard(names, s + 1).len();
            }
            s += 1;
        }
        proof {
            lemma_by_shard_covers(names);
            assert forall|i: int| 0 <= i < names.len() implies self.ids().contains_key(
                #[trigger] names[i],
            ) && ids[i] == self.ids()[names[i]] by {
                assert(names[i] == batch[i].0@);
            }
        }
        ids
    }

    /// The table reached from `start` by interning `seen`, in order.
    pub open spec fn table_step(self, start: SymbolTable, seen: Seq<Seq<u8>>) -> bool {
        &&& self.wf()
        &&& sym_names(self.syms@) == sym_names(start.syms@) + new_names(start.ids().dom(), seen)
        &&& start.syms.len() <= self.syms.len()
        &&& self.syms@.take(start.syms.len() as int) == start.syms@
        &&& self.fresh_from(start.syms.len() as int)
        &&& start.ids().submap_of(self.ids())
        &&& self.ids().dom() == start.ids().dom().union(seen.to_set())
        &&& self.numbers_from(start.syms.len() as int, new_names(start.ids().dom(), seen))
    }
}

impl TableState {
    /// A name's symbol once it was interned: the one that it had, or a new
    /// one behind all others.
    pub open spec fn id_of(self, name: Seq<u8>) -> u32 {
        if self.ids.contains_key(name) {
            self.ids[name]
        } else {
            self.syms.len() as u32
        }
    }
}

/// Interning gives a name its symbol: the one that it had, or a new
/// undefined one behind all others, which bears the name. It changes no
/// other symbol, and interning the name again changes nothing.
pub proof fn lemma_intern(t: TableState, name: Seq<u8>, u: TableState)
    requires
        t.with_symbol(name) == Some(u),
        forall|n: Seq<u8>| #[trigger]
            t.ids.contains_key(n) ==> t.ids[n] < t.syms.len() && t.syms[t.ids[n] as int].name == n,
    ensures
        u.ids.contains_key(name),
        u.ids[name] == t.id_of(name),
        u.syms[u.ids[name] as int].name == name,
        t.ids.contains_key(name) ==> u == t,
        !t.ids.contains_key(name) ==> u.syms == t.syms.push(fresh_view(name)),
        forall|n: Seq<u8>| n != name ==> (#[trigger] u.ids.contains_key(n)) == t.ids.contains_key(n),
        forall|n: Seq<u8>| n != name && #[trigger] u.ids.contains_key(n) ==> u.ids[n] == t.ids[n],
        u.with_symbol(name) == Some(u),
{
}

/// The slot of a file-local symbol is never that of a global name, though
/// the symbol bear it: not of those that were interned before, and not of
/// those that are interned later.
pub proof fn lemma_local_slots_stay_anonymous(
    t: TableState,
    local: Seq<u8>,
    name: Seq<u8>,
    u: TableState,
)
    requires
        forall|n: Seq<u8>| #[trigger] t.ids.contains_key(n) ==> t.ids[n] < t.syms.len(),
        t.with_local(local).with_symbol(name) == Some(u),
    ensures
        u.ids.contains_key(name),
        u.ids[name] != t.syms.len(),
{
}

/// The symbols of names depend on what the table held and on the names
/// alone: equal tables and batches give equal symbols. Of two names of a
/// batch, those that are equal share a symbol and others do not, and no new
/// name shares an older symbol.
pub proof fn lemma_gather_unique(
    a: (SymbolTable, SymbolTable),
    b: (SymbolTable, SymbolTable),
    names: Seq<Seq<u8>>,
    ids: Seq<SymbolId>,
    others: Seq<SymbolId>,
)
    requires
        a.1.wf(),
        a.1.gathered(a.0, names, ids),
        b.1.gathered(b.0, names, others),
        a.0.ids() == b.0.ids(),
        a.0.syms.len() == b.0.syms.len(),
    ensures
        ids == others,
        a.1.ids() == b.1.ids(),
        forall|i: int, j: int|
            0 <= i < ids.len() && 0 <= j < ids.len() ==> ((#[trigger] ids[i]) == (#[trigger] ids[j]))
                == (names[i] == names[j]),
        forall|i: int|
            0 <= i < ids.len() && !a.0.ids().contains_key(#[trigger] names[i]) ==> ids[i]
                >= a.0.syms.len(),
{
    let known = a.0.ids().dom();
    let listed = by_shard(names, 64);
    let added = new_names(known, listed);
    assert forall|i: int| 0 <= i < names.len() implies ids[i] == others[i] && (!known.contains(
        #[trigger] names[i],
    ) ==> ids[i] >= a.0.syms.len()) && a.1.ids()[names[i]] == b.1.ids()[names[i]] by {
        let name = names[i];
        if known.contains(name) {
            assert(a.1.ids()[name] == a.0.ids()[name]);
            assert(b.1.ids()[name] == b.0.ids()[name]);
        } else {
            assert(names.contains(name));
            lemma_by_shard_contains(names, 64, name);
            lemma_new_names_content(known, listed, name);
            let k = choose|k: int| 0 <= k < added.len() && added[k] == name;
            assert(a.1.ids()[added[k]] == a.0.syms.len() + k);
            assert(b.1.ids()[added[k]] == b.0.syms.len() + k);
        }
    }
    assert forall|i: int| 0 <= i < ids.len() implies ids[i] == others[i] by {
        assert(a.1.ids().contains_key(names[i]));
    }
    assert(ids =~= others);
    assert(a.1.ids().dom() =~= b.1.ids().dom());
    assert forall|n: Seq<u8>| #[trigger] a.1.ids().contains_key(n) implies a.1.ids()[n]
        == b.1.ids()[n] by {
        if known.contains(n) {
            assert(a.1.ids()[n] == a.0.ids()[n]);
            assert(b.1.ids()[n] == b.0.ids()[n]);
        } else {
            assert(names.to_set().contains(n));
            let i = choose|i: int| 0 <= i < names.len() && names[i] == n;
            assert(a.1.ids()[names[i]] == b.1.ids()[names[i]]);
        }
    }
    assert(a.1.ids() =~= b.1.ids());
    assert forall|i: int, j: int| 0 <= i < ids.len() && 0 <= j < ids.len() implies ((
    #[trigger] ids[i]) == (#[trigger] ids[j])) == (names[i] == names[j]) by {
        assert(a.1.ids().contains_key(names[i]));
        assert(a.1.ids().contains_key(names[j]));
    }
}

/// How many names belong to the shards from `s` on.
pub open spec fn pending(names: Seq<Seq<u8>>, s: int) -> nat
    decreases names.len(),
{
    if names.len() == 0 {
        0
    } else {
        pending(names.drop_last(), s) + (if home_shard(names.last()) >= s {
            1nat
        } else {
            0
        })
    }
}

proof fn lemma_pending(names: Seq<Seq<u8>>, s: int)
    ensures
        pending(names, s) == pending(names, s + 1) + names_of_shard(names, s).len(),
        pending(names, 0) == names.len(),
    decreases names.len(),
{
    if names.len() > 0 {
        lemma_pending(names.drop_last(), s);
    }
}

proof fn lemma_shard_prefix_len(names: Seq<Seq<u8>>, i: int, s: int)
    requires
        0 <= i <= names.len(),
    ensures
        names_of_shard(names.take(i), s).len() <= names_of_shard(names, s).len(),
    decreases names.len() - i,
{
    if i < names.len() {
        lemma_shard_prefix_len(names, i + 1, s);
        assert(names.take(i + 1).drop_last() =~= names.take(i));
    } else {
        assert(names.take(i) =~= names);
    }
}

proof fn lemma_new_names_len(known: Set<Seq<u8>>, names: Seq<Seq<u8>>)
    ensures
        new_names(known, names).len() <= names.len(),
    decreases names.len(),
{
    if names.len() > 0 {
        lemma_new_names_len(known, names.drop_last());
    }
}

/// The new names are exactly those of the list that were not known.
pub proof fn lemma_new_names_content(known: Set<Seq<u8>>, names: Seq<Seq<u8>>, x: Seq<u8>)
    ensures
        new_names(known, names).contains(x) <==> names.contains(x) && !known.contains(x),
    decreases names.len(),
{
    if names.len() > 0 {
        let head = names.drop_last();
        lemma_new_names_content(known, head, x);
        assert(names =~= head.push(names.last()));
        assert(names.contains(x) <==> head.contains(x) || x == names.last()) by {
            if head.contains(x) {
                let k = choose|k: int| 0 <= k < head.len() && head[k] == x;
                assert(names[k] == x);
            }
            if x == names.last() {
                assert(names[names.len() - 1] == x);
            }
        }
        let r = new_names(known, head);
        assert(r.push(names.last()).contains(x) <==> r.contains(x) || x == names.last()) by {
            if r.contains(x) {
                let k = choose|k: int| 0 <= k < r.len() && r[k] == x;
                assert(r.push(names.last())[k] == x);
            }
            assert(r.push(names.last())[r.len() as int] == names.last());
        }
        lemma_new_names_content(known, head, names.last());
    }
}

/// Interning one more name takes the table one step further.
proof fn lemma_table_step(
    start: SymbolTable,
    before: SymbolTable,
    after: SymbolTable,
    seen: Seq<Seq<u8>>,
    name: Seq<u8>,
)
    requires
        before.table_step(start, seen),
        after.wf(),
        after.ids() == (if before.ids().contains_key(name) {
            before.ids()
        } else {
            before.ids().insert(name, before.syms.len() as u32)
        }),
        sym_names(after.syms@) == sym_names(before.syms@) + new_names(
            before.ids().dom(),
            seq![name],
        ),
        after.syms@.take(before.syms.len() as int) == before.syms@,
        after.fresh_from(before.syms.len() as int),
    ensures
        after.table_step(start, seen.push(name)),
        before.ids().submap_of(after.ids()),
{
    reveal_with_fuel(new_names, 2);
    assert(seq![name].drop_last() =~= Seq::<Seq<u8>>::empty());
    assert(seen.push(name).drop_last() =~= seen);
    lemma_new_names_content(start.ids().dom(), seen, name);
    assert(before.ids().dom().contains(name) <==> start.ids().dom().contains(name)
        || new_names(start.ids().dom(), seen).contains(name));
    assert(sym_names(after.syms@) =~= sym_names(start.syms@) + new_names(
        start.ids().dom(),
        seen.push(name),
    ));
    assert(before.syms.len() <= after.syms.len()) by {
        assert(sym_names(after.syms@).len() >= sym_names(before.syms@).len());
    }
    assert(after.syms@.take(start.syms.len() as int) =~= before.syms@.take(
        start.syms.len() as int,
    ));
    assert forall|i: int| start.syms.len() <= i < after.syms.len() implies (
    #[trigger] after.syms[i]) == Symbol::fresh(after.syms[i].name) by {
        if i < before.syms.len() {
            assert(after.syms@.take(before.syms.len() as int)[i] == after.syms[i]);
            assert(before.syms[i] == Symbol::fresh(before.syms[i].name));
        }
    }
    assert(seen.push(name).to_set() =~= seen.to_set().insert(name)) by {
        assert forall|x: Seq<u8>| seen.push(name).contains(x) <==> seen.contains(x) || x
            == name by {
            if seen.contains(x) {
                let k = choose|k: int| 0 <= k < seen.len() && seen[k] == x;
                assert(seen.push(name)[k] == x);
            }
            assert(seen.push(name)[seen.len() as int] == name);
        }
    }
    assert(after.ids().dom() =~= start.ids().dom().union(seen.push(name).to_set()));
    let olds = new_names(start.ids().dom(), seen);
    let news = new_names(start.ids().dom(), seen.push(name));
    assert(before.syms.len() == start.syms.len() + olds.len()) by {
        assert(sym_names(before.syms@).len() == before.syms.len());
        assert(sym_names(start.syms@).len() == start.syms.len());
    }
    assert forall|k: int| 0 <= k < news.len() implies after.ids().contains_key(#[trigger] news[k])
        && after.ids()[news[k]] == start.syms.len() + k by {
        if k < olds.len() {
            assert(news[k] == olds[k]);
            assert(before.ids().contains_key(olds[k]));
        } else {
            assert(news[k] == name);
            assert(!before.ids().contains_key(name));
        }
    }
}

/// Every name belongs to one of the shards.
proof fn lemma_by_shard_covers(names: Seq<Seq<u8>>)
    ensures
        by_shard(names, 64).to_set() == names.to_set(),
{
    assert forall|x: Seq<u8>| by_shard(names, 64).contains(x) <==> names.contains(x) by {
        lemma_by_shard_contains(names, 64, x);
    }
    assert(by_shard(names, 64).to_set() =~= names.to_set());
}

proof fn lemma_by_shard_contains(names: Seq<Seq<u8>>, n: int, x: Seq<u8>)
    requires
        0 <= n,
    ensures
        by_shard(names, n).contains(x) <==> names.contains(x) && home_shard(x) < n,
    decreases n,
{
    if n > 0 {
        lemma_by_shard_contains(names, n - 1, x);
        lemma_names_of_shard_contains(names, n - 1, x);
        let (a, b) = (by_shard(names, n - 1), names_of_shard(names, n - 1));
        assert((a + b).contains(x) <==> a.contains(x) || b.contains(x)) by {
            if a.contains(x) {
                let k = choose|k: int| 0 <= k < a.len() && a[k] == x;
                assert((a + b)[k] == x);
            }
            if b.contains(x) {
                let k = choose|k: int| 0 <= k < b.len() && b[k] == x;
                assert((a + b)[a.len() + k] == x);
            }
        }
    }
}

proof fn lemma_names_of_shard_contains(names: Seq<Seq<u8>>, s: int, x: Seq<u8>)
    ensures
        names_of_shard(names, s).contains(x) <==> names.contains(x) && home_shard(x) == s,
    decreases names.len(),
{
    if names.len() > 0 {
        let head = names.drop_last();
        lemma_names_of_shard_contains(head, s, x);
        let r = names_of_shard(head, s);
        assert(names =~= head.push(names.last()));
        if head.contains(x) {
            let k = choose|k: int| 0 <= k < head.len() && head[k] == x;
            assert(names[k] == x);
        }
        assert(names[names.len() - 1] == names.last());
        if r.contains(x) {
            let k = choose|k: int| 0 <= k < r.len() && r[k] == x;
            assert(r.push(names.last())[k] == x);
        }
        assert(r.push(names.last())[r.len() as int] == names.last());
    }
}

/// A table stays well-formed when its symbols keep their names.
pub proof fn lemma_names_kept(a: SymbolTable, b: SymbolTable)
    requires
        a.wf(),
        b.shards == a.shards,
        b.syms.len() == a.syms.len(),
        forall|i: int| 0 <= i < a.syms.len() ==> (#[trigger] b.syms[i]).name@ == a.syms[i].name@,
    ensures
        b.wf(),
        b.ids() == a.ids(),
{
    assert(b.ids() =~= a.ids());
    assert forall|name: Seq<u8>| #[trigger] b.ids().contains_key(name) implies b.ids()[name]
        < b.syms.len() && b.syms[b.ids()[name] as int].name@ == name by {
        assert(a.ids().contains_key(name));
    }
}

} // verus!
