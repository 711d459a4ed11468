//! The output symbol table.
use super::stabs::{
    blank_entry, find_home, find_ordinal, keep_local_symbol, plan_object_stabs, push_named,
};
use crate::arch::Arch;
use crate::args::Args;
use crate::context::Context;
use crate::inputs::Inputs;
use crate::macho::consts::{
    N_ABS, N_AST, N_EXT, N_PEXT, N_SECT, N_UNDF, N_WEAK_DEF, N_WEAK_REF, REFERENCED_DYNAMICALLY,
};
use crate::macho::NList;
use crate::output_chunks::header::{Chunk, ChunkView, OutputSegment, SegmentView};
use crate::output_chunks::string_table::{place_names, Named, NamedView, Strings};
use crate::output_chunks::SymtabSection;
use crate::symbol::{Origin, Symbol};
use crate::util::{self, bytes, glob, order};
use vstd::prelude::*;

verus! {

/// The chunks of the first `n` segments, in file order.
pub open spec fn file_order(segs: Seq<SegmentView>, n: int) -> Seq<usize>
    decreases n,
{
    if n <= 0 {
        Seq::empty()
    } else {
        file_order(segs, n - 1) + segs[n - 1].chunks
    }
}

/// The number of sections among the first `n` listed chunks.
pub open spec fn sections_in(chunks: Seq<ChunkView>, list: Seq<usize>, n: int) -> int
    decreases n,
{
    if n <= 0 {
        0
    } else {
        sections_in(chunks, list, n - 1) + (if chunks[list[n - 1] as int].hdr.is_sect {
            1int
        } else {
            0
        })
    }
}

/// The ordinals that the first `n` listed chunks get: sections count from
/// one on, and other chunks have none.
pub open spec fn ordinals_to(chunks: Seq<ChunkView>, list: Seq<usize>, n: int) -> Seq<u8>
    decreases n,
{
    if n <= 0 {
        Seq::new(chunks.len(), |i: int| 0u8)
    } else {
        let before = ordinals_to(chunks, list, n - 1);
        if chunks[list[n - 1] as int].hdr.is_sect {
            before.update(list[n - 1] as int, sections_in(chunks, list, n) as u8)
        } else {
            before
        }
    }
}

/// The section ordinals of all chunks. `None` when there are more sections
/// than an entry can tell apart.
pub open spec fn ordinals_of(chunks: Seq<ChunkView>, segs: Seq<SegmentView>) -> Option<Seq<u8>> {
    let list = file_order(segs, segs.len() as int);
    if sections_in(chunks, list, list.len() as int) > 255 {
        None
    } else {
        Some(ordinals_to(chunks, list, list.len() as int))
    }
}

proof fn lemma_sections_grow(chunks: Seq<ChunkView>, list: Seq<usize>, a: int, b: int)
    requires
        a <= b,
    ensures
        sections_in(chunks, list, a) <= sections_in(chunks, list, b),
    decreases b - a,
{
    if a < b && b > 0 {
        lemma_sections_grow(chunks, list, a, b - 1);
    }
}

/// The section ordinals of all chunks.
pub fn section_ordinals(chunks: &Vec<Chunk>, segments: &Vec<OutputSegment>) -> (r: Option<Vec<u8>>)
    requires
        super::chunk_list::segs_ok(segments@, chunks.len() as int),
    ensures
        match r {
            Some(v) => ordinals_of(
                crate::output_chunks::header::chunk_views(chunks@),
                crate::output_chunks::header::segment_views(segments@),
            ) == Some(v@) && v.len() == chunks.len(),
            None => ordinals_of(
                crate::output_chunks::header::chunk_views(chunks@),
                crate::output_chunks::header::segment_views(segments@),
            ) is None,
        },
{
    let ghost cv = crate::output_chunks::header::chunk_views(chunks@);
    let ghost sv = crate::output_chunks::header::segment_views(segments@);
    let mut list: Vec<usize> = Vec::new();
    let mut s: usize = 0;
    while s < segments.len()
        invariant
            s <= segments.len(),
            sv == crate::output_chunks::header::segment_views(segments@),
            super::chunk_list::segs_ok(segments@, chunks.len() as int),
            list@ == file_order(sv, s as int),
            forall|i: int| 0 <= i < list.len() ==> (#[trigger] list[i]) < chunks.len(),
        decreases segments.len() - s,
    {
        let ghost before = list@;
        assert(sv[s as int].chunks == segments[s as int].chunks@);
        let mut k: usize = 0;
        while k < segments[s].chunks.len()
            invariant
                s < segments.len(),
                k <= segments[s as int].chunks.len(),
                super::chunk_list::segs_ok(segments@, chunks.len() as int),
                list@ == before + segments[s as int].chunks@.take(k as int),
                forall|i: int| 0 <= i < list.len() ==> (#[trigger] list[i]) < chunks.len(),
            decreases segments[s as int].chunks.len() - k,
        {
            let c: usize = segments[s].chunks[k];
            list.push(c);
            k += 1;
            assert(before + segments[s as int].chunks@.take(k as int) =~= (before
                + segments[s as int].chunks@.take(k - 1)).push(c));
        }
        assert(segments[s as int].chunks@.take(k as int) =~= segments[s as int].chunks@);
        s += 1;
    }
    let mut r: Vec<u8> = Vec::new();
    while r.len() < chunks.len()
        invariant
            r.len() <= chunks.len(),
            forall|i: int| 0 <= i < r.len() ==> #[trigger] r[i] == 0,
        decreases chunks.len() - r.len(),
    {
        r.push(0);
    }
    assert(r@ =~= ordinals_to(cv, list@, 0));
    let mut count: u8 = 0;
    let mut n: usize = 0;
    while n < list.len()
        invariant
            n <= list.len(),
            cv == crate::output_chunks::header::chunk_views(chunks@),
            sv == crate::output_chunks::header::segment_views(segments@),
            list@ == file_order(sv, sv.len() as int),
            forall|i: int| 0 <= i < list.len() ==> (#[trigger] list[i]) < chunks.len(),
            r.len() == chunks.len(),
            count == sections_in(cv, list@, n as int),
            r@ == ordinals_to(cv, list@, n as int),
        decreases list.len() - n,
    {
        let c: usize = list[n];
        assert(cv[c as int] == chunks[c as int]@);
        if chunks[c].hdr.is_sect {
            if count == 255 {
                proof {
                    lemma_sections_grow(cv, list@, n + 1, list.len() as int);
                }
                return None;
            }
            count = count + 1;
            r.set(c, count);
        }
        n += 1;
    }
    Some(r)
}

/// An N_AST entry for each Swift AST path.
pub open spec fn ast_entries(paths: Seq<Seq<u8>>) -> Seq<NamedView> {
    paths.map_values(
        |p: Seq<u8>| NamedView { name: p, ent: super::stabs::blank(N_AST), sym: None },
    )
}

/// The stabs of the first `n` objects.
pub open spec fn stabs_to(
    x: Inputs,
    ords: Seq<u8>,
    cpusubtype: u32,
    cwd: Seq<u8>,
    prefix: Option<Seq<u8>>,
    n: int,
) -> Seq<NamedView>
    decreases n,
{
    if n <= 0 {
        Seq::empty()
    } else {
        stabs_to(x, ords, cpusubtype, cwd, prefix, n - 1) + super::stabs::object_stabs(
            x,
            ords,
            n - 1,
            cpusubtype,
            cwd,
            prefix,
        )
    }
}

/// True for a local entry whose name the options keep.
pub open spec fn wanted_local(args: Args, n: NList, name: Seq<u8>) -> bool {
    &&& !n.stab() && !n.external() && super::stabs::keep_local(name)
    &&& args@.local_keep_list matches Some(keep) ==> glob::any_matches(keep, name)
    &&& !glob::any_matches(args@.local_strip_list, name)
}

/// The entries of the first `k` symbols of an object that are local and
/// live.
pub open spec fn obj_locals(x: Inputs, args: Args, ords: Seq<u8>, o: int, k: int) -> Seq<NamedView>
    decreases k,
{
    if k <= 0 {
        Seq::empty()
    } else {
        let before = obj_locals(x, args, ords, o, k - 1);
        let id = x.objs[o].syms[k - 1];
        let s = x.symtab.syms[id as int];
        match super::stabs::home(x, s) {
            Some(v) if wanted_local(args, x.objs[o].nlists[k - 1], s.name@) && s.defined_by()
                is Obj => before.push(
                NamedView {
                    name: s.name@,
                    ent: NList {
                        n_sect: super::stabs::ordinal(ords, x.isecs[v].osec),
                        ..super::stabs::blank(N_SECT)
                    },
                    sym: Some(id),
                },
            ),
            _ => before,
        }
    }
}

/// The local entries of the first `n` objects.
pub open spec fn locals_to(x: Inputs, args: Args, ords: Seq<u8>, n: int) -> Seq<NamedView>
    decreases n,
{
    if n <= 0 {
        Seq::empty()
    } else {
        let before = locals_to(x, args, ords, n - 1);
        if x.objs[n - 1].is_alive {
            before + obj_locals(x, args, ords, n - 1, x.objs[n - 1].nlists.len() as int)
        } else {
            before
        }
    }
}

/// The private externals among the first `n` symbols: they resolve globally
/// and appear among the locals.
pub open spec fn pexts_to(x: Inputs, ords: Seq<u8>, n: int) -> Seq<NamedView>
    decreases n,
{
    if n <= 0 {
        Seq::empty()
    } else {
        let before = pexts_to(x, ords, n - 1);
        let s = x.symtab.syms[n - 1];
        match super::stabs::home(x, s) {
            Some(v) if s.flags.is_extern && s.flags.is_private_extern && s.defined_by()
                is Obj => before.push(
                NamedView {
                    name: s.name@,
                    ent: NList {
                        n_sect: super::stabs::ordinal(ords, x.isecs[v].osec),
                        ..super::stabs::blank(N_SECT | N_PEXT)
                    },
                    sym: Some((n - 1) as u32),
                },
            ),
            _ => before,
        }
    }
}

/// True for a symbol that the output defines for others.
pub open spec fn is_exported(x: Inputs, s: Symbol) -> bool {
    &&& s.flags.is_extern
    &&& !s.flags.is_private_extern
    &&& (s.defined_by() is Obj || s.defined_by() is Synthetic)
    &&& s.section() is Some ==> super::stabs::home(x, s) is Some
}

/// The exported symbols among the first `n`.
pub open spec fn exported_to(x: Inputs, n: int) -> Seq<u32>
    decreases n,
{
    if n <= 0 {
        Seq::empty()
    } else if is_exported(x, x.symtab.syms[n - 1]) {
        exported_to(x, n - 1).push((n - 1) as u32)
    } else {
        exported_to(x, n - 1)
    }
}

/// The imported symbols among the first `n`.
pub open spec fn imported_to(x: Inputs, n: int) -> Seq<u32>
    decreases n,
{
    if n <= 0 {
        Seq::empty()
    } else if x.symtab.syms[n - 1].defined_by() is Dylib {
        imported_to(x, n - 1).push((n - 1) as u32)
    } else {
        imported_to(x, n - 1)
    }
}

/// Symbols in the order of their names.
pub open spec fn by_name(syms: Seq<Symbol>, ids: Seq<u32>) -> Seq<u32> {
    order::stable_order_of(ids.map_values(|id: u32| &syms[id as int].name)).map_values(
        |k: usize| ids[k as int],
    )
}

/// Sorts symbols by name.
pub fn sort_by_name(syms: &Vec<Symbol>, ids: &Vec<u32>) -> (r: Vec<u32>)
    requires
        forall|i: int| 0 <= i < ids.len() ==> (#[trigger] ids[i]) < syms.len(),
    ensures
        r@ == by_name(syms@, ids@),
        forall|i: int| 0 <= i < r.len() ==> (#[trigger] r[i]) < syms.len(),
{
    let mut keys: Vec<&Vec<u8>> = Vec::new();
    while keys.len() < ids.len()
        invariant
            keys.len() <= ids.len(),
            forall|i: int| 0 <= i < ids.len() ==> (#[trigger] ids[i]) < syms.len(),
            forall|i: int|
                0 <= i < keys.len() ==> #[trigger] keys[i] == &syms[ids[i] as int].name,
        decreases ids.len() - keys.len(),
    {
        let i: usize = keys.len();
        keys.push(&syms[ids[i] as usize].name);
    }
    assert(keys@ =~= ids@.map_values(|id: u32| &syms[id as int].name));
    let at: Vec<usize> = order::stable_order(keys.as_slice());
    let mut r: Vec<u32> = Vec::new();
    while r.len() < at.len()
        invariant
            r.len() <= at.len(),
            forall|i: int| 0 <= i < ids.len() ==> (#[trigger] ids[i]) < syms.len(),
            forall|i: int| 0 <= i < at.len() ==> (#[trigger] at[i]) < ids.len(),
            forall|i: int| 0 <= i < r.len() ==> #[trigger] r[i] == ids[at[i] as int],
        decreases at.len() - r.len(),
    {
        let k: usize = at[r.len()];
        r.push(ids[k]);
    }
    assert(r@ =~= by_name(syms@, ids@));
    r
}

/// The exported symbols, in the order of their names.
pub open spec fn globals_of(x: Inputs) -> Seq<u32> {
    by_name(x.symtab.syms@, exported_to(x, x.symtab.syms.len() as int))
}

/// Lists the exported symbols in the order of their names.
pub fn sorted_globals(x: &Inputs) -> (r: Vec<u32>)
    requires
        x.wf(),
    ensures
        r@ == globals_of(*x),
        forall|i: int| 0 <= i < r.len() ==> (#[trigger] r[i]) < x.symtab.syms.len(),
{
    let mut ids: Vec<u32> = Vec::new();
    let mut n: usize = 0;
    while n < x.symtab.syms.len()
        invariant
            x.wf(),
            n <= x.symtab.syms.len(),
            ids@ == exported_to(*x, n as int),
            forall|i: int| 0 <= i < ids.len() ==> (#[trigger] ids[i]) < x.symtab.syms.len(),
        decreases x.symtab.syms.len() - n,
    {
        let s: &Symbol = &x.symtab.syms[n];
        let here: bool = match s.origin() {
            Origin::Obj(_) => true,
            Origin::Synthetic => true,
            _ => false,
        };
        if s.flags.is_extern && !s.flags.is_private_extern && here {
            let dead: bool = s.isec().is_some() && find_home(x, n).is_none();
            if !dead {
                ids.push(n as u32);
            }
        }
        n += 1;
    }
    sort_by_name(&x.symtab.syms, &ids)
}

/// The entry of an exported symbol.
pub open spec fn global_entry(x: Inputs, ords: Seq<u8>, id: u32) -> NamedView {
    let s = x.symtab.syms[id as int];
    let weak: u16 = if s.flags.is_weak_def {
        N_WEAK_DEF
    } else {
        0
    };
    let ent = match s.section() {
        Some(i) => NList {
            n_sect: super::stabs::ordinal(
                ords,
                x.isecs[crate::inputs::survivor(x.isecs@, i as int)].osec,
            ),
            n_desc: 0u16 | weak,
            ..super::stabs::blank(N_SECT | N_EXT)
        },
        None => if s.defined_by() is Synthetic {
            NList {
                n_sect: 1,
                n_desc: REFERENCED_DYNAMICALLY | weak,
                ..super::stabs::blank(N_SECT | N_EXT)
            }
        } else {
            NList { n_desc: 0u16 | weak, ..super::stabs::blank(N_ABS | N_EXT) }
        },
    };
    NamedView { name: s.name@, ent, sym: Some(id) }
}

/// The entries of exported symbols.
pub open spec fn global_entries(x: Inputs, ords: Seq<u8>, ids: Seq<u32>) -> Seq<NamedView> {
    ids.map_values(|id: u32| global_entry(x, ords, id))
}

/// The entry of an imported symbol: its library's ordinal stands in the high
/// byte of its description.
pub open spec fn import_entry(ctx: Context, id: u32) -> NamedView {
    let s = ctx.inputs.symtab.syms[id as int];
    let ord = (ctx.ordinal_of(s.file) as int % 256) * 256;
    NamedView {
        name: s.name@,
        ent: NList {
            n_desc: (ord + (if s.flags.is_weak_ref {
                N_WEAK_REF as int
            } else {
                0
            })) as u16,
            ..super::stabs::blank(N_UNDF | N_EXT)
        },
        sym: None,
    }
}

/// The imported symbols, in the order of their names.
pub open spec fn imports_of(x: Inputs) -> Seq<u32> {
    by_name(x.symtab.syms@, imported_to(x, x.symtab.syms.len() as int))
}

/// The local part of the table.
pub open spec fn local_part<E: Arch>(ctx: Context, ords: Seq<u8>, cwd: Seq<u8>) -> Seq<NamedView> {
    let x = ctx.inputs;
    let n = x.objs.len() as int;
    let stabs = if ctx.args.sw.strip_debug {
        Seq::empty()
    } else {
        stabs_to(x, ords, E::info().cpusubtype, cwd, ctx.args@.oso_prefix, n)
    };
    let locals = if ctx.args.sw.strip_locals {
        Seq::empty()
    } else {
        locals_to(x, ctx.args, ords, n)
    };
    ast_entries(ctx.args@.add_ast_paths) + stabs + locals + pexts_to(
        x,
        ords,
        x.symtab.syms.len() as int,
    )
}

/// The whole table before names are placed.
pub open spec fn all_entries<E: Arch>(
    ctx: Context,
    ords: Seq<u8>,
    cwd: Seq<u8>,
    globals: Seq<u32>,
) -> Seq<NamedView> {
    local_part::<E>(ctx, ords, cwd) + global_entries(ctx.inputs, ords, globals) + imports_of(
        ctx.inputs,
    ).map_values(|id: u32| import_entry(ctx, id))
}

/// The index of each external symbol's last entry among the first `n`,
/// `u32::MAX` for symbols without one.
pub open spec fn indices_to(x: Inputs, es: Seq<NamedView>, n: int) -> Seq<u32>
    decreases n,
{
    if n <= 0 {
        Seq::new(x.symtab.syms@.len(), |i: int| u32::MAX)
    } else {
        let before = indices_to(x, es, n - 1);
        match es[n - 1].sym {
            Some(id) if x.symtab.syms[id as int].flags.is_extern => before.update(
                id as int,
                (n - 1) as u32,
            ),
            _ => before,
        }
    }
}

/// The indices of all symbols: imported ones stand behind all others.
pub open spec fn all_indices(
    before: Seq<u32>,
    imports: Seq<u32>,
    base: int,
    n: int,
) -> Seq<u32>
    decreases n,
{
    if n <= 0 {
        before
    } else {
        all_indices(before, imports, base, n - 1).update(
            imports[n - 1] as int,
            (base + n - 1) as u32,
        )
    }
}

/// True for entries of existing symbols.
spec fn syms_exist(es: Seq<NamedView>, n: int) -> bool {
    forall|i: int| 0 <= i < es.len() ==> ((#[trigger] es[i]).sym matches Some(id) ==> id < n)
}

proof fn lemma_stabs_exist(x: Inputs, ords: Seq<u8>, o: int, k: int)
    requires
        x.wf(),
        0 <= o < x.objs.len(),
        k <= x.objs[o].nlists.len(),
    ensures
        syms_exist(super::stabs::symbols_stabs(x, ords, o, k), x.symtab.syms.len() as int),
    decreases k,
{
    if k > 0 {
        lemma_stabs_exist(x, ords, o, k - 1);
        assert(x.obj_ok(x.objs[o]));
        assert(x.objs[o].syms[k - 1] < x.symtab.syms.len());
    }
}

proof fn lemma_all_stabs_exist(
    x: Inputs,
    ords: Seq<u8>,
    sub: u32,
    cwd: Seq<u8>,
    prefix: Option<Seq<u8>>,
    n: int,
)
    requires
        x.wf(),
        n <= x.objs.len(),
    ensures
        syms_exist(stabs_to(x, ords, sub, cwd, prefix, n), x.symtab.syms.len() as int),
    decreases n,
{
    if n > 0 {
        lemma_all_stabs_exist(x, ords, sub, cwd, prefix, n - 1);
        lemma_stabs_exist(x, ords, n - 1, x.objs[n - 1].nlists.len() as int);
    }
}

proof fn lemma_obj_locals_exist(x: Inputs, args: Args, ords: Seq<u8>, o: int, k: int)
    requires
        x.wf(),
        0 <= o < x.objs.len(),
        k <= x.objs[o].nlists.len(),
    ensures
        syms_exist(obj_locals(x, args, ords, o, k), x.symtab.syms.len() as int),
    decreases k,
{
    if k > 0 {
        lemma_obj_locals_exist(x, args, ords, o, k - 1);
        assert(x.obj_ok(x.objs[o]));
        assert(x.objs[o].syms[k - 1] < x.symtab.syms.len());
    }
}

proof fn lemma_locals_exist(x: Inputs, args: Args, ords: Seq<u8>, n: int)
    requires
        x.wf(),
        n <= x.objs.len(),
    ensures
        syms_exist(locals_to(x, args, ords, n), x.symtab.syms.len() as int),
    decreases n,
{
    if n > 0 {
        lemma_locals_exist(x, args, ords, n - 1);
        lemma_obj_locals_exist(x, args, ords, n - 1, x.objs[n - 1].nlists.len() as int);
    }
}

proof fn lemma_pexts_exist(x: Inputs, ords: Seq<u8>, n: int)
    requires
        n <= x.symtab.syms.len(),
        x.symtab.syms.len() < u32::MAX,
    ensures
        syms_exist(pexts_to(x, ords, n), x.symtab.syms.len() as int),
    decreases n,
{
    if n > 0 {
        lemma_pexts_exist(x, ords, n - 1);
    }
}

proof fn lemma_all_exist<E: Arch>(ctx: Context, ords: Seq<u8>, cwd: Seq<u8>, globals: Seq<u32>)
    requires
        ctx.inputs.wf(),
        forall|i: int|
            0 <= i < globals.len() ==> (#[trigger] globals[i]) < ctx.inputs.symtab.syms.len(),
    ensures
        syms_exist(
            all_entries::<E>(ctx, ords, cwd, globals),
            ctx.inputs.symtab.syms.len() as int,
        ),
{
    let x = ctx.inputs;
    let n = x.objs.len() as int;
    lemma_all_stabs_exist(x, ords, E::info().cpusubtype, cwd, ctx.args@.oso_prefix, n);
    lemma_locals_exist(x, ctx.args, ords, n);
    lemma_pexts_exist(x, ords, x.symtab.syms.len() as int);
    let l = local_part::<E>(ctx, ords, cwd);
    assert(syms_exist(l, x.symtab.syms.len() as int));
}

/// Appends the N_AST entries.
fn push_asts(paths: &Vec<Vec<u8>>, out: &mut Vec<Named>)
    ensures
        crate::output_chunks::string_table::named_views(final(out)@)
            == crate::output_chunks::string_table::named_views(old(out)@) + ast_entries(
            bytes::views(paths@),
        ),
{
    let ghost start = crate::output_chunks::string_table::named_views(out@);
    let ghost v = ast_entries(bytes::views(paths@));
    let mut i: usize = 0;
    assert(start + v.take(0) =~= start);
    while i < paths.len()
        invariant
            i <= paths.len(),
            v == ast_entries(bytes::views(paths@)),
            crate::output_chunks::string_table::named_views(out@) == start + v.take(i as int),
        decreases paths.len() - i,
    {
        push_named(out, paths[i].as_slice(), blank_entry(N_AST), None);
        assert(v[i as int].name == bytes::views(paths@)[i as int]);
        assert(start + v.take(i + 1) =~= (start + v.take(i as int)).push(v[i as int]));
        i += 1;
    }
    assert(v.take(i as int) =~= v);
}

/// Appends the stabs of all objects.
fn push_stabs(
    x: &Inputs,
    ords: &Vec<u8>,
    cpusubtype: u32,
    cwd: &[u8],
    prefix: &Option<Vec<u8>>,
    out: &mut Vec<Named>,
)
    requires
        x.wf(),
    ensures
        crate::output_chunks::string_table::named_views(final(out)@)
            == crate::output_chunks::string_table::named_views(old(out)@) + stabs_to(
            *x,
            ords@,
            cpusubtype,
            cwd@,
            crate::args::opt_view(*prefix),
            x.objs.len() as int,
        ),
{
    let ghost start = crate::output_chunks::string_table::named_views(out@);
    let ghost p = crate::args::opt_view(*prefix);
    let mut o: usize = 0;
    assert(start + Seq::<NamedView>::empty() =~= start);
    while o < x.objs.len()
        invariant
            x.wf(),
            o <= x.objs.len(),
            p == crate::args::opt_view(*prefix),
            crate::output_chunks::string_table::named_views(out@) == start + stabs_to(
                *x,
                ords@,
                cpusubtype,
                cwd@,
                p,
                o as int,
            ),
        decreases x.objs.len() - o,
    {
        let ghost a = stabs_to(*x, ords@, cpusubtype, cwd@, p, o as int);
        let ghost b = super::stabs::object_stabs(*x, ords@, o as int, cpusubtype, cwd@, p);
        plan_object_stabs(x, ords, o, cpusubtype, cwd, prefix, out);
        assert((start + a) + b =~= start + (a + b));
        o += 1;
    }
}

/// Tests whether the options keep a local entry.
fn wants_local(args: &Args, n: &NList, name: &[u8]) -> (r: bool)
    ensures
        r == wanted_local(*args, *n, name@),
{
    if n.is_stab() || n.is_extern() || !keep_local_symbol(name) {
        return false;
    }
    if let Some(keep) = &args.local_keep_list {
        if !glob::match_any(keep, name) {
            return false;
        }
    }
    !glob::match_any(&args.local_strip_list, name)
}

/// Appends the local entries of one object.
fn push_obj_locals(x: &Inputs, args: &Args, ords: &Vec<u8>, o: usize, out: &mut Vec<Named>)
    requires
        x.wf(),
        o < x.objs.len(),
    ensures
        crate::output_chunks::string_table::named_views(final(out)@)
            == crate::output_chunks::string_table::named_views(old(out)@) + obj_locals(
            *x,
            *args,
            ords@,
            o as int,
            x.objs[o as int].nlists.len() as int,
        ),
{
    let ghost start = crate::output_chunks::string_table::named_views(out@);
    let mut k: usize = 0;
    assert(start + Seq::<NamedView>::empty() =~= start);
    while k < x.objs[o].nlists.len()
        invariant
            x.wf(),
            o < x.objs.len(),
            k <= x.objs[o as int].nlists.len(),
            crate::output_chunks::string_table::named_views(out@) == start + obj_locals(
                *x,
                *args,
                ords@,
                o as int,
                k as int,
            ),
        decreases x.objs[o as int].nlists.len() - k,
    {
        proof {
            assert(x.obj_ok(x.objs[o as int]));
        }
        let id: u32 = x.objs[o].syms[k];
        let s: &Symbol = &x.symtab.syms[id as usize];
        let from_obj: bool = match s.origin() {
            Origin::Obj(_) => true,
            _ => false,
        };
        let ghost a = obj_locals(*x, *args, ords@, o as int, k as int);
        if from_obj && wants_local(args, &x.objs[o].nlists[k], s.name()) {
            if let Some(v) = find_home(x, id as usize) {
                let mut ent: NList = blank_entry(N_SECT);
                ent.n_sect = find_ordinal(ords, x.isecs[v].osec);
                push_named(out, s.name(), ent, Some(id));
                let ghost e = NamedView { name: s.name@, ent, sym: Some(id) };
                assert((start + a).push(e) =~= start + a.push(e));
            }
        }
        k += 1;
    }
}

/// Appends the local entries of all live objects.
fn push_locals(x: &Inputs, args: &Args, ords: &Vec<u8>, out: &mut Vec<Named>)
    requires
        x.wf(),
    ensures
        crate::output_chunks::string_table::named_views(final(out)@)
            == crate::output_chunks::string_table::named_views(old(out)@) + locals_to(
            *x,
            *args,
            ords@,
            x.objs.len() as int,
        ),
{
    let ghost start = crate::output_chunks::string_table::named_views(out@);
    let mut o: usize = 0;
    assert(start + Seq::<NamedView>::empty() =~= start);
    while o < x.objs.len()
        invariant
            x.wf(),
            o <= x.objs.len(),
            crate::output_chunks::string_table::named_views(out@) == start + locals_to(
                *x,
                *args,
                ords@,
                o as int,
            ),
        decreases x.objs.len() - o,
    {
        let ghost a = locals_to(*x, *args, ords@, o as int);
        if x.objs[o].is_alive {
            let ghost b = obj_locals(
                *x,
                *args,
                ords@,
                o as int,
                x.objs[o as int].nlists.len() as int,
            );
            push_obj_locals(x, args, ords, o, out);
            assert((start + a) + b =~= start + (a + b));
        }
        o += 1;
    }
}

/// Appends the entries of private externals.
fn push_pexts(x: &Inputs, ords: &Vec<u8>, out: &mut Vec<Named>)
    requires
        x.wf(),
    ensures
        crate::output_chunks::string_table::named_views(final(out)@)
            == crate::output_chunks::string_table::named_views(old(out)@) + pexts_to(
            *x,
            ords@,
            x.symtab.syms.len() as int,
        ),
{
    let ghost start = crate::output_chunks::string_table::named_views(out@);
    let mut n: usize = 0;
    assert(start + Seq::<NamedView>::empty() =~= start);
    while n < x.symtab.syms.len()
        invariant
            x.wf(),
            n <= x.symtab.syms.len(),
            crate::output_chunks::string_table::named_views(out@) == start + pexts_to(
                *x,
                ords@,
                n as int,
            ),
        decreases x.symtab.syms.len() - n,
    {
        let s: &Symbol = &x.symtab.syms[n];
        let from_obj: bool = match s.origin() {
            Origin::Obj(_) => true,
            _ => false,
        };
        let ghost a = pexts_to(*x, ords@, n as int);
        if from_obj && s.flags.is_extern && s.flags.is_private_extern {
            if let Some(v) = find_home(x, n) {
                let mut ent: NList = blank_entry(N_SECT | N_PEXT);
                ent.n_sect = find_ordinal(ords, x.isecs[v].osec);
                push_named(out, s.name(), ent, Some(n as u32));
                let ghost e = NamedView { name: s.name@, ent, sym: Some(n as u32) };
                assert((start + a).push(e) =~= start + a.push(e));
            }
        }
        n += 1;
    }
}

/// Appends the entries of exported symbols.
fn push_globals(x: &Inputs, ords: &Vec<u8>, ids: &Vec<u32>, out: &mut Vec<Named>)
    requires
        x.wf(),
        forall|i: int| 0 <= i < ids.len() ==> (#[trigger] ids[i]) < x.symtab.syms.len(),
    ensures
        crate::output_chunks::string_table::named_views(final(out)@)
            == crate::output_chunks::string_table::named_views(old(out)@) + global_entries(
            *x,
            ords@,
            ids@,
        ),
{
    let ghost start = crate::output_chunks::string_table::named_views(out@);
    let ghost v = global_entries(*x, ords@, ids@);
    let mut i: usize = 0;
    assert(start + v.take(0) =~= start);
    while i < ids.len()
        invariant
            x.wf(),
            i <= ids.len(),
            forall|i: int| 0 <= i < ids.len() ==> (#[trigger] ids[i]) < x.symtab.syms.len(),
            v == global_entries(*x, ords@, ids@),
            crate::output_chunks::string_table::named_views(out@) == start + v.take(i as int),
        decreases ids.len() - i,
    {
        let id: u32 = ids[i];
        let s: &Symbol = &x.symtab.syms[id as usize];
        proof {
            crate::inputs::lemma_wf_redirects(*x);
            assert(x.sym_ok(x.symtab.syms[id as int]));
        }
        let weak: u16 = if s.flags.is_weak_def {
            N_WEAK_DEF
        } else {
            0
        };
        let mut ent: NList = blank_entry(N_SECT | N_EXT);
        match s.isec() {
            Some(k) => {
                let home: usize = crate::inputs::resolve_isec(&x.isecs, k as usize);
                ent.n_sect = find_ordinal(ords, x.isecs[home].osec);
                ent.n_desc = 0u16 | weak;
            },
            None => {
                if s.origin() == Origin::Synthetic {
                    ent.n_sect = 1;
                    ent.n_desc = REFERENCED_DYNAMICALLY | weak;
                } else {
                    ent = blank_entry(N_ABS | N_EXT);
                    ent.n_desc = 0u16 | weak;
                }
            },
        }
        push_named(out, s.name(), ent, Some(id));
        assert(v[i as int] == global_entry(*x, ords@, id));
        assert(start + v.take(i + 1) =~= (start + v.take(i as int)).push(v[i as int]));
        i += 1;
    }
    assert(v.take(i as int) =~= v);
}

/// Lists the imported symbols in the order of their names.
fn sorted_imports(x: &Inputs) -> (r: Vec<u32>)
    requires
        x.wf(),
    ensures
        r@ == imports_of(*x),
        forall|i: int| 0 <= i < r.len() ==> (#[trigger] r[i]) < x.symtab.syms.len(),
{
    let mut ids: Vec<u32> = Vec::new();
    let mut n: usize = 0;
    while n < x.symtab.syms.len()
        invariant
            x.wf(),
            n <= x.symtab.syms.len(),
            ids@ == imported_to(*x, n as int),
            forall|i: int| 0 <= i < ids.len() ==> (#[trigger] ids[i]) < x.symtab.syms.len(),
        decreases x.symtab.syms.len() - n,
    {
        if let Origin::Dylib(_) = x.symtab.syms[n].origin() {
            ids.push(n as u32);
        }
        n += 1;
    }
    sort_by_name(&x.symtab.syms, &ids)
}

/// The low byte of a library's ordinal.
fn low_byte(v: i32) -> (r: u16)
    ensures
        r == v as int % 256,
        r < 256,
{
    let wide: i64 = v as i64 + 0x1_0000_0000;
    (wide as u64 % 256) as u16
}

proof fn lemma_import_is_dylib(x: Inputs, n: int)
    requires
        n <= x.symtab.syms.len(),
        x.symtab.syms.len() < u32::MAX,
    ensures
        n >= 0 ==> imported_to(x, n).len() <= n,
        forall|i: int|
            0 <= i < imported_to(x, n).len() ==> (#[trigger] imported_to(x, n)[i]) < n
                && x.symtab.syms[imported_to(x, n)[i] as int].defined_by() is Dylib,
    decreases n,
{
    if n > 0 {
        lemma_import_is_dylib(x, n - 1);
    }
}

proof fn lemma_sorted_imports(x: Inputs)
    requires
        x.symtab.syms.len() < u32::MAX,
    ensures
        forall|i: int|
            0 <= i < imports_of(x).len() ==> (#[trigger] imports_of(x)[i]) < x.symtab.syms.len()
                && x.symtab.syms[imports_of(x)[i] as int].defined_by() is Dylib,
{
    let ids = imported_to(x, x.symtab.syms.len() as int);
    let keys = ids.map_values(|id: u32| &x.symtab.syms[id as int].name);
    lemma_import_is_dylib(x, x.symtab.syms.len() as int);
    order::lemma_stable_order_exists(keys);
    assert forall|i: int| 0 <= i < imports_of(x).len() implies (#[trigger] imports_of(x)[i])
        < x.symtab.syms.len() && x.symtab.syms[imports_of(x)[i] as int].defined_by() is Dylib by {
        let k = order::stable_order_of(keys)[i];
        assert(imports_of(x)[i] == ids[k as int]);
    }
}

/// Appends the entries of imported symbols.
fn push_imports(ctx: &Context, ids: &Vec<u32>, out: &mut Vec<Named>)
    requires
        ctx.wf(),
        ids@ == imports_of(ctx.inputs),
    ensures
        crate::output_chunks::string_table::named_views(final(out)@)
            == crate::output_chunks::string_table::named_views(old(out)@) + ids@.map_values(
            |id: u32| import_entry(*ctx, id),
        ),
{
    let ghost start = crate::output_chunks::string_table::named_views(out@);
    let ghost v = ids@.map_values(|id: u32| import_entry(*ctx, id));
    let mut i: usize = 0;
    assert(start + v.take(0) =~= start);
    proof {
        lemma_sorted_imports(ctx.inputs);
    }
    while i < ids.len()
        invariant
            ctx.wf(),
            i <= ids.len(),
            ids@ == imports_of(ctx.inputs),
            forall|i: int|
                0 <= i < ids@.len() ==> (#[trigger] ids@[i]) < ctx.inputs.symtab.syms.len()
                    && ctx.inputs.symtab.syms[ids@[i] as int].defined_by() is Dylib,
            v == ids@.map_values(|id: u32| import_entry(*ctx, id)),
            crate::output_chunks::string_table::named_views(out@) == start + v.take(i as int),
        decreases ids.len() - i,
    {
        let id: u32 = ids[i];
        proof {
            assert(ids@[i as int] < ctx.inputs.symtab.syms.len());
            assert(ctx.sym_ok(ctx.inputs.symtab.syms[id as int]));
        }
        let s: &Symbol = &ctx.inputs.symtab.syms[id as usize];
        let ord: u16 = low_byte(ctx.bind_ordinal(s.file)) * 256;
        let mut ent: NList = blank_entry(N_UNDF | N_EXT);
        ent.n_desc = if s.flags.is_weak_ref {
            ord + N_WEAK_REF
        } else {
            ord
        };
        push_named(out, s.name(), ent, None);
        assert(v[i as int] == import_entry(*ctx, id));
        assert(start + v.take(i + 1) =~= (start + v.take(i as int)).push(v[i as int]));
        i += 1;
    }
    assert(v.take(i as int) =~= v);
}

/// Finds the index of each symbol.
fn find_indices(x: &Inputs, es: &Vec<Named>, imports: &Vec<u32>, base: u32) -> (r: Vec<u32>)
    requires
        es.len() <= u32::MAX,
        base + imports.len() <= u32::MAX,
        syms_exist(
            crate::output_chunks::string_table::named_views(es@),
            x.symtab.syms.len() as int,
        ),
        forall|i: int| 0 <= i < imports.len() ==> (#[trigger] imports[i]) < x.symtab.syms.len(),
    ensures
        r@ == all_indices(
            indices_to(
                *x,
                crate::output_chunks::string_table::named_views(es@),
                es.len() as int,
            ),
            imports@,
            base as int,
            imports.len() as int,
        ),
{
    let ghost v = crate::output_chunks::string_table::named_views(es@);
    let n: usize = x.symtab.syms.len();
    let mut r: Vec<u32> = Vec::new();
    while r.len() < n
        invariant
            r.len() <= n,
            forall|i: int| 0 <= i < r.len() ==> #[trigger] r[i] == u32::MAX,
        decreases n - r.len(),
    {
        r.push(u32::MAX);
    }
    assert(r@ =~= indices_to(*x, v, 0));
    let mut i: usize = 0;
    while i < es.len()
        invariant
            i <= es.len(),
            es.len() <= u32::MAX,
            n == x.symtab.syms.len(),
            r.len() == n,
            v == crate::output_chunks::string_table::named_views(es@),
            syms_exist(v, n as int),
            r@ == indices_to(*x, v, i as int),
        decreases es.len() - i,
    {
        assert(v[i as int] == es[i as int]@);
        if let Some(id) = es[i].sym {
            if x.symtab.syms[id as usize].flags.is_extern {
                r.set(id as usize, i as u32);
            }
        }
        i += 1;
    }
    let ghost before = r@;
    let mut k: usize = 0;
    while k < imports.len()
        invariant
            k <= imports.len(),
            base + imports.len() <= u32::MAX,
            n == x.symtab.syms.len(),
            r.len() == n,
            forall|i: int|
                0 <= i < imports.len() ==> (#[trigger] imports[i]) < x.symtab.syms.len(),
            r@ == all_indices(before, imports@, base as int, k as int),
        decreases imports.len() - k,
    {
        r.set(imports[k] as usize, base + k as u32);
        k += 1;
    }
    r
}

/// Builds the output symbol table: local symbols in input order, then
/// defined globals and imported symbols, each sorted by name. Values are
/// filled in when the table is copied out, once addresses are known. `cwd`
/// is the current directory. `None` when the table does not fit in its
/// 32-bit fields.
pub fn create_output_symtab<E: Arch>(
    ctx: &Context,
    ords: &Vec<u8>,
    cwd: &[u8],
    globals: &Vec<u32>,
) -> (r: Option<SymtabSection>)
    requires
        ctx.wf(),
        forall|i: int|
            0 <= i < globals.len() ==> (#[trigger] globals[i]) < ctx.inputs.symtab.syms.len(),
    ensures
        ({
            let es = all_entries::<E>(*ctx, ords@, cwd@, globals@);
            let nlocal = local_part::<E>(*ctx, ords@, cwd@).len();
            let imports = imports_of(ctx.inputs);
            let placed = crate::output_chunks::string_table::placed_names(es);
            match r {
                Some(t) => {
                    &&& es.len() <= u32::MAX
                    &&& placed is Some
                    &&& t.hdr@ == crate::output_chunks::header::linkedit_header()
                    &&& t.entries@ == crate::output_chunks::string_table::stamped(
                        es,
                        placed->0.strx,
                    )
                    &&& crate::output_chunks::string_table::unique_views(t.strtab_uniques@)
                        == placed->0.uniques
                    &&& t.strtab_size == util::aligned(placed->0.end, 8)
                    &&& t.nlocal == nlocal
                    &&& t.nextdef == globals.len()
                    &&& t.nundef == imports.len()
                    &&& t.output_sym_indices@ == all_indices(
                        indices_to(ctx.inputs, es, es.len() as int),
                        imports,
                        nlocal + globals.len(),
                        imports.len() as int,
                    )
                },
                None => es.len() > u32::MAX || placed is None,
            }
        }),
{
    let x: &Inputs = &ctx.inputs;
    let mut es: Vec<Named> = Vec::new();
    assert(crate::output_chunks::string_table::named_views(es@) =~= Seq::empty());
    push_asts(&ctx.args.add_ast_paths, &mut es);
    let ghost p0 = Seq::<NamedView>::empty() + ast_entries(ctx.args@.add_ast_paths);
    assert(p0 =~= ast_entries(ctx.args@.add_ast_paths));
    assert(p0 + Seq::<NamedView>::empty() =~= p0);
    if !ctx.args.sw.strip_debug {
        push_stabs(x, ords, E::get_info().cpusubtype, cwd, &ctx.args.oso_prefix, &mut es);
    }
    let ghost p1 = crate::output_chunks::string_table::named_views(es@);
    assert(p1 + Seq::<NamedView>::empty() =~= p1);
    if !ctx.args.sw.strip_locals {
        push_locals(x, &ctx.args, ords, &mut es);
    }
    push_pexts(x, ords, &mut es);
    assert(crate::output_chunks::string_table::named_views(es@) == local_part::<E>(
        *ctx,
        ords@,
        cwd@,
    ));
    let nlocal: usize = es.len();
    push_globals(x, ords, globals, &mut es);
    let imports: Vec<u32> = sorted_imports(x);
    push_imports(ctx, &imports, &mut es);
    let ghost all = all_entries::<E>(*ctx, ords@, cwd@, globals@);
    assert(crate::output_chunks::string_table::named_views(es@) == all);
    assert(es@.len() == all.len());
    proof {
        lemma_all_exist::<E>(*ctx, ords@, cwd@, globals@);
    }
    if es.len() > u32::MAX as usize {
        return None;
    }
    assert forall|i: int| 0 <= i < es.len() implies ((#[trigger] es[i]).sym matches Some(id)
        ==> id < x.symtab.syms.len()) by {
        assert(all[i] == es[i]@);
    }
    let strings: Strings = match place_names(&es, x.symtab.syms.len()) {
        Some(s) => s,
        None => {
            return None;
        },
    };
    let indices: Vec<u32> = find_indices(x, &es, &imports, (nlocal + globals.len()) as u32);
    let mut t: SymtabSection = SymtabSection::new();
    t.strtab_size = util::align_to(strings.end as u64, 8);
    t.entries = strings.entries;
    t.strtab_uniques = strings.uniques;
    t.nlocal = nlocal as u32;
    t.nextdef = globals.len() as u32;
    t.nundef = imports.len() as u32;
    t.output_sym_indices = indices;
    Some(t)
}

} // verus!
