//! Link-time optimization: how bitcode modules take part in resolution, and
//! what the code generator is told.
use crate::args::Args;
use crate::input_files::{ObjectFile, StagedObject};
use crate::inputs::Inputs;
use crate::macho::consts::{MH_EXECUTE, N_ABS, N_EXT, N_PEXT, N_UNDF, N_WEAK_DEF};
use crate::macho::NList;
use crate::symbol::{hash_key, Origin, SymFlags, Symbol, SymbolTable};
use crate::util::{bytes, glob, text};
use vstd::prelude::*;

verus! {

/// A symbol of a bitcode module.
#[derive(Debug)]
pub struct BitcodeSymbol {
    pub name: Vec<u8>,
    pub is_extern: bool,
    pub is_defined: bool,
    pub is_private_extern: bool,
    pub is_weak_def: bool,
}

/// The bits of a symbol's attributes that say how it is defined.
pub const DEFINITION_MASK: u32 = 0x700;
pub const DEFINITION_WEAK: u32 = 0x300;
pub const DEFINITION_UNDEFINED: u32 = 0x400;
pub const DEFINITION_WEAKUNDEF: u32 = 0x500;

/// The bits of a symbol's attributes that say who can see it.
pub const SCOPE_MASK: u32 = 0x3800;
pub const SCOPE_INTERNAL: u32 = 0x800;
pub const SCOPE_HIDDEN: u32 = 0x1000;

/// Describes a symbol of a module by the attributes that libLTO gives it.
pub fn describe_symbol(name: Vec<u8>, attributes: u32) -> (r: BitcodeSymbol)
    ensures
        ({
            let definition = attributes & DEFINITION_MASK;
            let scope = attributes & SCOPE_MASK;
            r == (BitcodeSymbol {
                name,
                is_extern: scope != SCOPE_INTERNAL,
                is_defined: definition != DEFINITION_UNDEFINED && definition
                    != DEFINITION_WEAKUNDEF,
                is_private_extern: scope == SCOPE_HIDDEN,
                is_weak_def: definition == DEFINITION_WEAK,
            })
        }),
{
    let definition: u32 = attributes & DEFINITION_MASK;
    let scope: u32 = attributes & SCOPE_MASK;
    BitcodeSymbol {
        name,
        is_extern: scope != SCOPE_INTERNAL,
        is_defined: definition != DEFINITION_UNDEFINED && definition != DEFINITION_WEAKUNDEF,
        is_private_extern: scope == SCOPE_HIDDEN,
        is_weak_def: definition == DEFINITION_WEAK,
    }
}

/// The entry that stands for a symbol. The module has no sections yet, so
/// that a definition is an absolute one.
pub open spec fn bitcode_entry(s: BitcodeSymbol) -> NList {
    NList {
        n_strx: 0,
        n_type: if s.is_defined {
            N_ABS | N_EXT | (if s.is_private_extern {
                N_PEXT
            } else {
                0
            })
        } else {
            N_UNDF | N_EXT
        },
        n_sect: 0,
        n_desc: if s.is_defined && s.is_weak_def {
            N_WEAK_DEF
        } else {
            0
        },
        n_value: 0,
    }
}

/// The names and entries of the first `n` symbols, without the definitions
/// that are local to the module.
pub open spec fn bitcode_entries(syms: Seq<BitcodeSymbol>, n: int) -> Seq<(Seq<u8>, NList)>
    decreases n,
{
    if n <= 0 {
        Seq::empty()
    } else {
        let before = bitcode_entries(syms, n - 1);
        let s = syms[n - 1];
        if s.is_defined && !s.is_extern {
            before
        } else {
            before.push((s.name@, bitcode_entry(s)))
        }
    }
}

/// Makes an object of a bitcode module, which resolution treats like any
/// other until the module is compiled.
pub fn parse_bitcode(
    name: Vec<u8>,
    parent: Option<Vec<u8>>,
    syms: &Vec<BitcodeSymbol>,
    alive: bool,
    priority: u32,
) -> (r: StagedObject)
    ensures
        r.name == name,
        r.parent == parent,
        r.alive == alive,
        !r.hidden,
        r.priority == priority,
        ({
            let entries = bitcode_entries(syms@, syms.len() as int);
            &&& bytes::views(r.sym_names@) == entries.map_values(|e: (Seq<u8>, NList)| e.0)
            &&& r.nlists@ == entries.map_values(|e: (Seq<u8>, NList)| e.1)
            &&& r.sym_hashes@ == entries.map_values(
                |e: (Seq<u8>, NList)| crate::symbol::xxh3(e.0),
            )
        }),
        crate::input_files::hashes_match(r),
        r.sect_hdrs.len() == 0,
        r.linker_options.len() == 0,
        r.isecs.len() == 0,
        r.subsecs.len() == 0,
        r.unwind.len() == 0,
        r.cies.len() == 0,
        r.fdes.len() == 0,
        r.objc_image_info is None,
        !r.has_debug_info,
        r.dice.len() == 0,
        r.loh.len() == 0,
{
    let mut names: Vec<Vec<u8>> = Vec::new();
    let mut nlists: Vec<NList> = Vec::new();
    let mut hashes: Vec<u64> = Vec::new();
    let mut i: usize = 0;
    assert(bytes::views(names@) =~= Seq::<Seq<u8>>::empty());
    while i < syms.len()
        invariant
            i <= syms.len(),
            ({
                let entries = bitcode_entries(syms@, i as int);
                &&& bytes::views(names@) =~= entries.map_values(|e: (Seq<u8>, NList)| e.0)
                &&& nlists@ =~= entries.map_values(|e: (Seq<u8>, NList)| e.1)
                &&& hashes@ =~= entries.map_values(
                    |e: (Seq<u8>, NList)| crate::symbol::xxh3(e.0),
                )
            }),
        decreases syms.len() - i,
    {
        let s: &BitcodeSymbol = &syms[i];
        if s.is_extern || !s.is_defined {
            let mut n_type: u8 = N_UNDF | N_EXT;
            let mut n_desc: u16 = 0;
            if s.is_defined {
                let private: u8 = if s.is_private_extern {
                    N_PEXT
                } else {
                    0
                };
                n_type = N_ABS | N_EXT | private;
                if s.is_weak_def {
                    n_desc = N_WEAK_DEF;
                }
            }
            let entry: NList = NList { n_strx: 0, n_type, n_sect: 0, n_desc, n_value: 0 };
            assert(entry == bitcode_entry(syms[i as int]));
            hashes.push(hash_key(s.name.as_slice()));
            nlists.push(entry);
            text::push_name(&mut names, bytes::to_vec(s.name.as_slice()));
        }
        i += 1;
    }
    proof {
        let entries = bitcode_entries(syms@, syms.len() as int);
        assert(bytes::views(names@).len() == names.len());
        assert forall|k: int| 0 <= k < nlists.len() implies #[trigger] hashes[k]
            == crate::symbol::xxh3(names[k]@) by {
            assert(bytes::views(names@)[k] == entries[k].0);
        }
    }
    StagedObject {
        name,
        parent,
        alive,
        hidden: false,
        priority,
        sect_hdrs: Vec::new(),
        linker_options: Vec::new(),
        isecs: Vec::new(),
        subsecs: Vec::new(),
        nlists,
        sym_names: names,
        sym_hashes: hashes,
        unwind: Vec::new(),
        cies: Vec::new(),
        fdes: Vec::new(),
        objc_image_info: None,
        has_debug_info: false,
        dice: Vec::new(),
        loh: Vec::new(),
    }
}

/// True when a bitcode module defines a symbol that others can see.
pub open spec fn is_bitcode_global(objs: Seq<ObjectFile>, s: Symbol) -> bool {
    &&& s.flags.is_extern
    &&& s.defined_by() matches Origin::Obj(o)
    &&& o < objs.len()
    &&& objs[o as int].lto_module is Some
}

/// True when the rest of the link can see a symbol. All that a dylib's
/// modules define are exports. Of a program's, only those matter that other
/// code or the command line refers to, unless they are kept for dlsym.
pub open spec fn is_seen(args: Args, s: Symbol) -> bool {
    ||| args.sw.output_type != MH_EXECUTE
    ||| args.sw.export_dynamic
    ||| s.flags.is_used
    ||| s.name@ == args.entry@
    ||| bytes::views(args.forced_undefined@).contains(s.name@)
    ||| (args.exported_symbols matches Some(l) && glob::any_matches(bytes::views(l@), s.name@))
}

/// The names among the first `n` symbols that the code generator must keep.
pub open spec fn preserved_to(x: Inputs, args: Args, n: int) -> Seq<Seq<u8>>
    decreases n,
{
    if n <= 0 {
        Seq::empty()
    } else {
        let before = preserved_to(x, args, n - 1);
        let s = x.symtab.syms[n - 1];
        if is_bitcode_global(x.objs@, s) && is_seen(args, s) && !s.name@.contains(0u8) {
            before.push(s.name@)
        } else {
            before
        }
    }
}

fn check_global(objs: &Vec<ObjectFile>, s: &Symbol) -> (r: bool)
    ensures
        r == is_bitcode_global(objs@, *s),
{
    match s.origin() {
        Origin::Obj(o) => s.flags.is_extern && (o as usize) < objs.len()
            && objs[o as usize].lto_module.is_some(),
        _ => false,
    }
}

fn check_seen(args: &Args, s: &Symbol) -> (r: bool)
    ensures
        r == is_seen(*args, *s),
{
    let name: &[u8] = s.name.as_slice();
    if args.sw.output_type != MH_EXECUTE || args.sw.export_dynamic || s.flags.is_used
        || bytes::same(name, args.entry.as_slice()) || text::holds(&args.forced_undefined, name) {
        return true;
    }
    match &args.exported_symbols {
        Some(l) => glob::match_any(l, name),
        None => false,
    }
}

fn check_name(name: &[u8]) -> (r: bool)
    ensures
        r == !name@.contains(0u8),
{
    let i: usize = bytes::find_byte(name, 0, 0);
    i >= name.len()
}

/// Lists the names that the code generator must keep: those that the rest of
/// the link can see, and the entry point. A name with a NUL has no C string.
pub fn list_preserved(x: &Inputs, args: &Args) -> (r: Vec<Vec<u8>>)
    ensures
        bytes::views(r@) == preserved_to(*x, *args, x.symtab.syms.len() as int) + (
        if args.entry@.contains(0u8) {
            Seq::empty()
        } else {
            seq![args.entry@]
        }),
{
    let mut r: Vec<Vec<u8>> = Vec::new();
    let mut i: usize = 0;
    assert(bytes::views(r@) =~= Seq::<Seq<u8>>::empty());
    while i < x.symtab.syms.len()
        invariant
            i <= x.symtab.syms.len(),
            bytes::views(r@) == preserved_to(*x, *args, i as int),
        decreases x.symtab.syms.len() - i,
    {
        let s: &Symbol = &x.symtab.syms[i];
        if check_global(&x.objs, s) && check_seen(args, s) && check_name(s.name.as_slice()) {
            text::push_name(&mut r, bytes::to_vec(s.name.as_slice()));
        }
        i += 1;
    }
    let ghost kept = bytes::views(r@);
    if check_name(args.entry.as_slice()) {
        text::push_name(&mut r, bytes::to_vec(args.entry.as_slice()));
        assert(bytes::views(r@) =~= kept + seq![args.entry@]);
    } else {
        assert(kept + Seq::<Seq<u8>>::empty() =~= kept);
    }
    r
}

/// A symbol whose module was compiled: the compiled object defines it.
pub open spec fn released(s: Symbol) -> Symbol {
    let t = s.with_origin(Origin::Undef).with_isec(None);
    Symbol { value: 0, flags: SymFlags { is_weak_def: false, ..t.flags }, ..t }
}

/// True when one of the first `n` modules defines the symbol.
pub open spec fn is_claimed(objs: Seq<ObjectFile>, modules: Seq<usize>, s: Symbol, id: int, n: int) -> bool {
    exists|m: int| #![trigger modules[m]]
        0 <= m < n && s.defined_by() == Origin::Obj(modules[m] as u32) && objs[modules[m] as int].syms@.contains(
            id as u32,
        )
}

/// The symbol once the first `n` modules were compiled.
pub open spec fn after_modules(
    objs: Seq<ObjectFile>,
    modules: Seq<usize>,
    s: Symbol,
    id: int,
    n: int,
) -> Symbol {
    if is_claimed(objs, modules, s, id, n) {
        released(s)
    } else {
        s
    }
}

/// An object whose module was compiled: it neither claims nor refers to
/// anything.
pub open spec fn is_retired(a: ObjectFile, b: ObjectFile) -> bool {
    &&& b == (ObjectFile { is_alive: false, nlists: b.nlists, syms: b.syms, ..a })
    &&& b.nlists.len() == 0
    &&& b.syms.len() == 0
}

fn release(s: &mut Symbol)
    ensures
        *final(s) == released(*old(s)),
{
    s.set_origin(Origin::Undef);
    s.set_isec(None);
    s.value = 0;
    s.flags.is_weak_def = false;
}

fn retire(f: &mut ObjectFile)
    ensures
        is_retired(*old(f), *final(f)),
{
    f.is_alive = false;
    f.nlists = Vec::new();
    f.syms = Vec::new();
}

fn release_symbols(syms: &mut Vec<Symbol>, ids: &Vec<u32>, obj: u32)
    requires
        forall|k: int| 0 <= k < ids.len() ==> (#[trigger] ids[k]) < old(syms).len(),
        old(syms).len() <= u32::MAX,
    ensures
        final(syms).len() == old(syms).len(),
        forall|i: int|
            0 <= i < final(syms).len() ==> #[trigger] final(syms)[i] == (if old(
                syms,
            )[i].defined_by() == Origin::Obj(obj) && ids@.contains(i as u32) {
                released(old(syms)[i])
            } else {
                old(syms)[i]
            }),
{
    let ghost start = syms@;
    let mut k: usize = 0;
    while k < ids.len()
        invariant
            k <= ids.len(),
            start == old(syms)@,
            start.len() <= u32::MAX,
            syms.len() == start.len(),
            forall|j: int| 0 <= j < ids.len() ==> (#[trigger] ids[j]) < start.len(),
            forall|i: int|
                0 <= i < start.len() ==> #[trigger] syms@[i] == (if start[i].defined_by()
                    == Origin::Obj(obj) && ids@.take(k as int).contains(i as u32) {
                    released(start[i])
                } else {
                    start[i]
                }),
        decreases ids.len() - k,
    {
        let id: usize = ids[k] as usize;
        let ghost before = syms@;
        if syms[id].origin() == Origin::Obj(obj) {
            release(&mut syms[id]);
        }
        proof {
            let taken = ids@.take(k as int);
            let more = ids@.take(k + 1);
            assert(more =~= taken.push(ids@[k as int]));
            assert forall|i: int| 0 <= i < start.len() implies #[trigger] syms@[i] == (
            if start[i].defined_by() == Origin::Obj(obj) && more.contains(i as u32) {
                released(start[i])
            } else {
                start[i]
            }) by {
                if i == id {
                    assert(more[k as int] == i as u32);
                } else {
                    assert(syms@[i] == before[i]);
                    if more.contains(i as u32) {
                        let j = choose|j: int| 0 <= j < more.len() && more[j] == i as u32;
                        assert(j < k);
                        assert(taken[j] == i as u32);
                    }
                    if taken.contains(i as u32) {
                        let j = choose|j: int| 0 <= j < taken.len() && taken[j] == i as u32;
                        assert(more[j] == i as u32);
                    }
                }
            }
        }
        k += 1;
    }
    assert(ids@.take(ids.len() as int) =~= ids@);
}

fn retire_object(objs: &mut Vec<ObjectFile>, o: usize)
    requires
        o < old(objs).len(),
    ensures
        final(objs).len() == old(objs).len(),
        is_retired(old(objs)[o as int], final(objs)[o as int]),
        forall|i: int| 0 <= i < old(objs).len() && i != o ==> final(objs)[i] == old(objs)[i],
{
    retire(&mut objs[o]);
}

/// Retires the objects that stood for bitcode modules: what they defined is
/// undefined again, until the compiled object is added.
pub fn retire_modules(x: &mut Inputs, modules: &Vec<usize>)
    requires
        old(x).wf(),
        old(x).symtab.wf(),
        forall|m: int| 0 <= m < modules.len() ==> (#[trigger] modules[m]) < old(x).objs.len(),
    ensures
        final(x).symtab.wf(),
        final(x).symtab.syms.len() == old(x).symtab.syms.len(),
        forall|i: int|
            0 <= i < old(x).symtab.syms.len() ==> #[trigger] final(x).symtab.syms[i]
                == after_modules(
                old(x).objs@,
                modules@,
                old(x).symtab.syms[i],
                i,
                modules.len() as int,
            ),
        final(x).objs.len() == old(x).objs.len(),
        forall|o: int|
            0 <= o < old(x).objs.len() ==> if modules@.contains(o as usize) {
                is_retired(old(x).objs[o], #[trigger] final(x).objs[o])
            } else {
                final(x).objs[o] == old(x).objs[o]
            },
        *final(x) == (Inputs {
            objs: final(x).objs,
            symtab: (SymbolTable { syms: final(x).symtab.syms, ..old(x).symtab }),
            ..*old(x)
        }),
{
    let ghost a = *x;
    let ghost syms0 = x.symtab.syms@;
    let mut m: usize = 0;
    while m < modules.len()
        invariant
            m <= modules.len(),
            a == *old(x),
            a.wf(),
            syms0 == a.symtab.syms@,
            syms0.len() <= u32::MAX,
            forall|j: int| 0 <= j < modules.len() ==> (#[trigger] modules[j]) < a.objs.len(),
            x.symtab.syms.len() == syms0.len(),
            forall|i: int|
                0 <= i < syms0.len() ==> #[trigger] x.symtab.syms@[i] == after_modules(
                    a.objs@,
                    modules@,
                    syms0[i],
                    i,
                    m as int,
                ),
            *x == (Inputs {
                symtab: (SymbolTable { syms: x.symtab.syms, ..a.symtab }),
                ..a
            }),
        decreases modules.len() - m,
    {
        let o: usize = modules[m];
        let ghost before = x.symtab.syms@;
        proof {
            assert(a.obj_ok(a.objs[o as int]));
        }
        release_symbols(&mut x.symtab.syms, &x.objs[o].syms, o as u32);
        proof {
            assert forall|i: int| 0 <= i < syms0.len() implies #[trigger] x.symtab.syms@[i]
                == after_modules(a.objs@, modules@, syms0[i], i, m + 1) by {
                let s = syms0[i];
                assert(before[i] == after_modules(a.objs@, modules@, s, i, m as int));
                if is_claimed(a.objs@, modules@, s, i, m as int) {
                    let j = choose|j: int| #![trigger modules@[j]]
                        0 <= j < m && s.defined_by() == Origin::Obj(modules@[j] as u32)
                            && a.objs@[modules@[j] as int].syms@.contains(i as u32);
                    assert(is_claimed(a.objs@, modules@, s, i, m + 1)) by {
                        assert(modules@[j] == modules@[j]);
                    }
                    assert(before[i] == released(s));
                } else {
                    let here = s.defined_by() == Origin::Obj(o as u32) && a.objs@[o as int].syms@.contains(
                        i as u32,
                    );
                    if here {
                        assert(modules@[m as int] == o);
                        assert(is_claimed(a.objs@, modules@, s, i, m + 1));
                    } else if is_claimed(a.objs@, modules@, s, i, m + 1) {
                        let j = choose|j: int| #![trigger modules@[j]]
                            0 <= j < m + 1 && s.defined_by() == Origin::Obj(modules@[j] as u32)
                                && a.objs@[modules@[j] as int].syms@.contains(i as u32);
                        assert(j == m);
                    }
                }
            }
        }
        m += 1;
    }
    proof {
        crate::symbol::lemma_names_kept(a.symtab, x.symtab);
    }
    let ghost objs0 = a.objs@;
    let ghost mid = *x;
    let mut n: usize = 0;
    while n < modules.len()
        invariant
            n <= modules.len(),
            objs0 == a.objs@,
            forall|j: int| 0 <= j < modules.len() ==> (#[trigger] modules[j]) < objs0.len(),
            x.objs.len() == objs0.len(),
            forall|o: int|
                0 <= o < objs0.len() ==> if modules@.take(n as int).contains(o as usize) {
                    is_retired(objs0[o], #[trigger] x.objs@[o])
                } else {
                    x.objs@[o] == objs0[o]
                },
            *x == (Inputs { objs: x.objs, ..mid }),
        decreases modules.len() - n,
    {
        let ghost before = x.objs@;
        let ghost taken = modules@.take(n as int);
        let ghost more = modules@.take(n + 1);
        let o: usize = modules[n];
        retire_object(&mut x.objs, o);
        proof {
            assert(more =~= taken.push(o));
            assert forall|i: int| 0 <= i < objs0.len() implies (if more.contains(i as usize) {
                is_retired(objs0[i], #[trigger] x.objs@[i])
            } else {
                x.objs@[i] == objs0[i]
            }) by {
                if i == o {
                    assert(more[n as int] == i as usize);
                    if taken.contains(i as usize) {
                        assert(is_retired(objs0[i], before[i]));
                    }
                } else {
                    assert(x.objs@[i] == before[i]);
                    if more.contains(i as usize) {
                        let j = choose|j: int| 0 <= j < more.len() && more[j] == i as usize;
                        assert(j < n);
                        assert(taken[j] == i as usize);
                    }
                    if taken.contains(i as usize) {
                        let j = choose|j: int| 0 <= j < taken.len() && taken[j] == i as usize;
                        assert(more[j] == i as usize);
                    }
                }
            }
        }
        n += 1;
    }
    assert(modules@.take(modules.len() as int) =~= modules@);
}

} // verus!
