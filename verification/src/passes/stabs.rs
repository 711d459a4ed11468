//! Debug-note stabs.
//!
//! A Mach-O image carries no DWARF. For each object with debug info its
//! symbol table tells the debugger where the object file is and where the
//! object's functions and globals ended up.
use crate::inputs::{resolve_isec, Inputs};
use crate::macho::consts::{
    N_FUN, N_GSYM, N_OSO, N_SO, N_STSYM, S_ATTR_PURE_INSTRUCTIONS, S_ATTR_SOME_INSTRUCTIONS,
};
use crate::macho::{NList, SectionView};
use crate::output_chunks::string_table::{Named, NamedView};
use crate::symbol::{Origin, Symbol};
use crate::util::bytes;
use vstd::prelude::*;
use vstd::string::*;

verus! {

/// True for a local symbol that the output keeps: assembler temporaries,
/// which begin with 'l' or 'L', are dropped.
pub open spec fn keep_local(name: Seq<u8>) -> bool {
    name.len() > 0 && name[0] != 0x6c && name[0] != 0x4c
}

/// True for a local symbol that the output keeps.
pub fn keep_local_symbol(name: &[u8]) -> (r: bool)
    ensures
        r == keep_local(name@),
{
    name.len() > 0 && name[0] != 0x6c && name[0] != 0x4c
}

/// The live subsection that holds a symbol's definition, if one does.
pub open spec fn home(x: Inputs, s: Symbol) -> Option<int> {
    match s.section() {
        None => None,
        Some(i) => {
            let v = crate::inputs::survivor(x.isecs@, i as int);
            if x.isecs[v].is_alive {
                Some(v)
            } else {
                None
            }
        },
    }
}

/// The live subsection that holds a symbol's definition, if one does.
pub fn find_home(x: &Inputs, id: usize) -> (r: Option<usize>)
    requires
        x.wf(),
        id < x.symtab.syms.len(),
    ensures
        match r {
            Some(v) => home(*x, x.symtab.syms[id as int]) == Some(v as int) && v < x.isecs.len(),
            None => home(*x, x.symtab.syms[id as int]) is None,
        },
{
    proof {
        crate::inputs::lemma_wf_redirects(*x);
        assert(x.sym_ok(x.symtab.syms[id as int]));
    }
    match x.symtab.syms[id].isec() {
        None => None,
        Some(i) => {
            let v: usize = resolve_isec(&x.isecs, i as usize);
            if x.isecs[v].is_alive {
                Some(v)
            } else {
                None
            }
        },
    }
}

/// The ordinal of an output section: 0, which stands for no section, for one
/// that has none.
pub open spec fn ordinal(ords: Seq<u8>, osec: u32) -> u8 {
    if osec < ords.len() {
        ords[osec as int]
    } else {
        0
    }
}

pub fn find_ordinal(ords: &Vec<u8>, osec: u32) -> (r: u8)
    ensures
        r == ordinal(ords@, osec),
{
    if (osec as usize) < ords.len() {
        ords[osec as usize]
    } else {
        0
    }
}

/// An entry whose fields are all zero but for its type.
pub open spec fn blank(n_type: u8) -> NList {
    NList { n_strx: 0, n_type, n_sect: 0, n_desc: 0, n_value: 0 }
}

pub fn blank_entry(n_type: u8) -> (r: NList)
    ensures
        r == blank(n_type),
{
    NList { n_strx: 0, n_type, n_sect: 0, n_desc: 0, n_value: 0 }
}

/// An entry without a name of its own.
pub open spec fn unnamed(ent: NList) -> NamedView {
    NamedView { name: Seq::empty(), ent, sym: None }
}

/// Appends an entry.
pub fn push_named(list: &mut Vec<Named>, name: &[u8], ent: NList, sym: Option<u32>)
    ensures
        crate::output_chunks::string_table::named_views(final(list)@)
            == crate::output_chunks::string_table::named_views(old(list)@).push(
            NamedView { name: name@, ent, sym },
        ),
{
    list.push(Named { name: bytes::to_vec(name), ent, sym });
    assert(crate::output_chunks::string_table::named_views(list@)
        =~= crate::output_chunks::string_table::named_views(old(list)@).push(
        NamedView { name: name@, ent, sym },
    ));
}

/// Appends an entry without a name of its own.
fn push_unnamed(list: &mut Vec<Named>, ent: NList)
    ensures
        crate::output_chunks::string_table::named_views(final(list)@)
            == crate::output_chunks::string_table::named_views(old(list)@).push(unnamed(ent)),
{
    list.push(Named { name: Vec::new(), ent, sym: None });
    assert(crate::output_chunks::string_table::named_views(list@)
        =~= crate::output_chunks::string_table::named_views(old(list)@).push(unnamed(ent)));
}

/// True for code.
pub open spec fn is_code(hdr: SectionView) -> bool {
    hdr.segname == "__TEXT".spec_bytes() && hdr.flags & (S_ATTR_PURE_INSTRUCTIONS
        | S_ATTR_SOME_INSTRUCTIONS) != 0
}

/// The stabs of an object's `k`th symbol: for a function a pair, its address
/// and its size, for other data one entry.
pub open spec fn symbol_stabs(x: Inputs, ords: Seq<u8>, o: int, k: int) -> Seq<NamedView> {
    let n = x.objs[o].nlists[k];
    let id = x.objs[o].syms[k];
    let s = x.symtab.syms[id as int];
    if n.stab() || s.defined_by() != Origin::Obj(o as u32) || (!n.external() && !keep_local(
        s.name@,
    )) {
        Seq::empty()
    } else {
        match home(x, s) {
            None => Seq::empty(),
            Some(v) => {
                let isec = x.isecs[v];
                let sect = ordinal(ords, isec.osec);
                if is_code(x.header(isec)) {
                    seq![
                        NamedView {
                            name: s.name@,
                            ent: NList { n_sect: sect, ..blank(N_FUN) },
                            sym: Some(id),
                        },
                        unnamed(NList { n_strx: 1, n_value: isec.size, ..blank(N_FUN) }),
                    ]
                } else {
                    seq![
                        NamedView {
                            name: s.name@,
                            ent: NList {
                                n_sect: sect,
                                ..blank(
                                    if n.external() {
                                        N_GSYM
                                    } else {
                                        N_STSYM
                                    },
                                )
                            },
                            sym: Some(id),
                        },
                    ]
                }
            },
        }
    }
}

/// The stabs of an object's first `k` symbols.
pub open spec fn symbols_stabs(x: Inputs, ords: Seq<u8>, o: int, k: int) -> Seq<NamedView>
    decreases k,
{
    if k <= 0 {
        Seq::empty()
    } else {
        symbols_stabs(x, ords, o, k - 1) + symbol_stabs(x, ords, o, k - 1)
    }
}

/// True for an absolute path.
pub open spec fn is_absolute(path: Seq<u8>) -> bool {
    path.len() > 0 && path[0] == 0x2f
}

fn starts_at_root(path: &[u8]) -> (r: bool)
    ensures
        r == is_absolute(path@),
{
    path.len() > 0 && path[0] == 0x2f
}

/// The path that an object is recorded under: absolute, less the leading
/// path that -oso_prefix names, where "." is the current directory.
pub open spec fn oso_name(
    name: Seq<u8>,
    parent: Option<Seq<u8>>,
    cwd: Seq<u8>,
    prefix: Option<Seq<u8>>,
) -> Seq<u8> {
    let full = if is_absolute(name) || (parent is Some && is_absolute(parent->0)) {
        name
    } else {
        cwd.push(0x2f) + name
    };
    match prefix {
        None => full,
        Some(p) => {
            let lead = if p == ".".spec_bytes() {
                cwd.push(0x2f)
            } else {
                p
            };
            if bytes::has_prefix(full, lead) {
                full.skip(lead.len() as int)
            } else {
                full
            }
        },
    }
}

fn find_oso_name(
    name: &Vec<u8>,
    parent: &Option<Vec<u8>>,
    cwd: &[u8],
    prefix: &Option<Vec<u8>>,
) -> (r: Vec<u8>)
    ensures
        r@ == oso_name(
            name@,
            crate::args::opt_view(*parent),
            cwd@,
            crate::args::opt_view(*prefix),
        ),
{
    let from_root: bool = starts_at_root(name.as_slice()) || match parent {
        Some(p) => starts_at_root(p.as_slice()),
        None => false,
    };
    let mut dir: Vec<u8> = bytes::to_vec(cwd);
    dir.push(0x2f);
    let full: Vec<u8> = if from_root {
        bytes::to_vec(name.as_slice())
    } else {
        let mut f: Vec<u8> = bytes::to_vec(dir.as_slice());
        bytes::append(&mut f, name.as_slice());
        f
    };
    match prefix {
        None => full,
        Some(p) => {
            let lead: &[u8] = if bytes::same(p.as_slice(), ".".as_bytes()) {
                dir.as_slice()
            } else {
                p.as_slice()
            };
            if bytes::starts_with(full.as_slice(), lead) {
                let r: Vec<u8> = bytes::copy_range(full.as_slice(), lead.len(), full.len());
                assert(r@ =~= full@.skip(lead@.len() as int));
                r
            } else {
                full
            }
        },
    }
}

/// The stabs of an object: its start, its path, its symbols and its end.
pub open spec fn object_stabs(
    x: Inputs,
    ords: Seq<u8>,
    o: int,
    cpusubtype: u32,
    cwd: Seq<u8>,
    prefix: Option<Seq<u8>>,
) -> Seq<NamedView> {
    let obj = x.objs[o];
    if !obj.has_debug_info || !obj.is_alive {
        Seq::empty()
    } else {
        seq![
            unnamed(NList { n_strx: 2, ..blank(N_SO) }),
            NamedView {
                name: oso_name(obj.name@, crate::args::opt_view(obj.parent), cwd, prefix),
                ent: NList { n_sect: (cpusubtype % 256) as u8, n_desc: 1, ..blank(N_OSO) },
                sym: None,
            },
        ] + symbols_stabs(x, ords, o, obj.nlists.len() as int) + seq![
            unnamed(NList { n_strx: 1, n_sect: 1, ..blank(N_SO) }),
        ]
    }
}

/// Appends the stabs of one symbol.
fn plan_symbol_stabs(x: &Inputs, ords: &Vec<u8>, o: usize, k: usize, out: &mut Vec<Named>)
    requires
        x.wf(),
        o < x.objs.len(),
        k < x.objs[o as int].nlists.len(),
    ensures
        crate::output_chunks::string_table::named_views(final(out)@)
            == crate::output_chunks::string_table::named_views(old(out)@) + symbol_stabs(
            *x,
            ords@,
            o as int,
            k as int,
        ),
{
    proof {
        assert(x.obj_ok(x.objs[o as int]));
    }
    let ghost before = crate::output_chunks::string_table::named_views(out@);
    assert(before + Seq::<NamedView>::empty() =~= before);
    let n: &NList = &x.objs[o].nlists[k];
    let id: u32 = x.objs[o].syms[k];
    let s: &Symbol = &x.symtab.syms[id as usize];
    let own: bool = match s.origin() {
        Origin::Obj(i) => i as usize == o,
        _ => false,
    };
    if n.is_stab() || !own || (!n.is_extern() && !keep_local_symbol(s.name())) {
        return ;
    }
    match find_home(x, id as usize) {
        None => {},
        Some(v) => {
            let hdr = x.hdr_of(v);
            let sect: u8 = find_ordinal(ords, x.isecs[v].osec);
            let code: bool = bytes::same(hdr.segname.as_slice(), "__TEXT".as_bytes()) && hdr.flags & (
            S_ATTR_PURE_INSTRUCTIONS | S_ATTR_SOME_INSTRUCTIONS) != 0;
            if code {
                let mut ent: NList = blank_entry(N_FUN);
                ent.n_sect = sect;
                push_named(out, s.name(), ent, Some(id));
                let mut size: NList = blank_entry(N_FUN);
                size.n_strx = 1;
                size.n_value = x.isecs[v].size;
                push_unnamed(out, size);
            } else {
                let mut ent: NList = blank_entry(
                    if n.is_extern() {
                        N_GSYM
                    } else {
                        N_STSYM
                    },
                );
                ent.n_sect = sect;
                push_named(out, s.name(), ent, Some(id));
            }
            assert(crate::output_chunks::string_table::named_views(out@) =~= before + symbol_stabs(
                *x,
                ords@,
                o as int,
                k as int,
            ));
        },
    }
}

/// Appends the stabs of one object.
pub fn plan_object_stabs(
    x: &Inputs,
    ords: &Vec<u8>,
    o: usize,
    cpusubtype: u32,
    cwd: &[u8],
    prefix: &Option<Vec<u8>>,
    out: &mut Vec<Named>,
)
    requires
        x.wf(),
        o < x.objs.len(),
    ensures
        crate::output_chunks::string_table::named_views(final(out)@)
            == crate::output_chunks::string_table::named_views(old(out)@) + object_stabs(
            *x,
            ords@,
            o as int,
            cpusubtype,
            cwd@,
            crate::args::opt_view(*prefix),
        ),
{
    let ghost before = crate::output_chunks::string_table::named_views(out@);
    assert(before + Seq::<NamedView>::empty() =~= before);
    proof {
        assert(x.obj_ok(x.objs[o as int]));
    }
    if !x.objs[o].has_debug_info || !x.objs[o].is_alive {
        return ;
    }
    let mut so: NList = blank_entry(N_SO);
    so.n_strx = 2;
    push_unnamed(out, so);
    let path: Vec<u8> = find_oso_name(&x.objs[o].name, &x.objs[o].parent, cwd, prefix);
    let mut oso: NList = blank_entry(N_OSO);
    oso.n_sect = (cpusubtype % 256) as u8;
    oso.n_desc = 1;
    push_named(out, path.as_slice(), oso, None);
    let ghost head = seq![
        unnamed(so),
        NamedView { name: path@, ent: oso, sym: None },
    ];
    let ghost start = crate::output_chunks::string_table::named_views(out@);
    assert(start =~= before + head);
    let mut k: usize = 0;
    assert(start + Seq::<NamedView>::empty() =~= start);
    while k < x.objs[o].nlists.len()
        invariant
            x.wf(),
            o < x.objs.len(),
            k <= x.objs[o as int].nlists.len(),
            crate::output_chunks::string_table::named_views(out@) == start + symbols_stabs(
                *x,
                ords@,
                o as int,
                k as int,
            ),
        decreases x.objs[o as int].nlists.len() - k,
    {
        plan_symbol_stabs(x, ords, o, k, out);
        assert(start + symbols_stabs(*x, ords@, o as int, k as int) + symbol_stabs(
            *x,
            ords@,
            o as int,
            k as int,
        ) =~= start + (symbols_stabs(*x, ords@, o as int, k as int) + symbol_stabs(
            *x,
            ords@,
            o as int,
            k as int,
        )));
        k += 1;
    }
    let mut end: NList = blank_entry(N_SO);
    end.n_strx = 1;
    end.n_sect = 1;
    let ghost mid = symbols_stabs(*x, ords@, o as int, k as int);
    push_unnamed(out, end);
    assert(crate::output_chunks::string_table::named_views(out@) =~= before + (head + mid + seq![
        unnamed(end),
    ]));
}

} // verus!
