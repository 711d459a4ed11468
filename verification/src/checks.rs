//! Decides whether what passes rely on holds, for callers that put a link
//! together from parts.
use crate::context::Context;
use crate::input_files::{Cie, Fde, ObjectFile, UnwindRecord};
use crate::input_sections::{InputSection, Reloc, RelocTarget, NO_REPLACEMENT, UNSET};
use crate::inputs::Inputs;
use crate::output_chunks::header::{Chunk, OutputSegment, Thunk};
use crate::passes::contents::Tables;
use crate::passes::slots::SlotKind;
use crate::symbol::{Origin, SymAux, Symbol, NONE, NO_IDX};
use vstd::prelude::*;

verus! {

fn below(v: &Vec<u32>, n: usize) -> (r: bool)
    ensures
        r == forall|k: int| 0 <= k < v.len() ==> (#[trigger] v[k]) < n,
{
    let mut i: usize = 0;
    while i < v.len()
        invariant
            i <= v.len(),
            forall|k: int| 0 <= k < i ==> (#[trigger] v[k]) < n,
        decreases v.len() - i,
    {
        if v[i] as usize >= n {
            assert(!(v[i as int] < n));
            return false;
        }
        i += 1;
    }
    true
}

fn all_below(v: &Vec<usize>, n: usize) -> (r: bool)
    ensures
        r == forall|k: int| 0 <= k < v.len() ==> (#[trigger] v[k]) < n,
{
    let mut i: usize = 0;
    while i < v.len()
        invariant
            i <= v.len(),
            forall|k: int| 0 <= k < i ==> (#[trigger] v[k]) < n,
        decreases v.len() - i,
    {
        if v[i] >= n {
            assert(!(v[i as int] < n));
            return false;
        }
        i += 1;
    }
    true
}

fn obj_ok(x: &Inputs, o: &ObjectFile) -> (r: bool)
    ensures
        r == x.obj_ok(*o),
{
    o.nlists.len() == o.syms.len() && below(&o.syms, x.symtab.syms.len()) && all_below(
        &o.subsecs,
        x.isecs.len(),
    )
}

fn relocs_ok(x: &Inputs, s: &InputSection) -> (r: bool)
    requires
        s.relocs.len() > 0 ==> s.obj < x.objs.len(),
    ensures
        r == forall|k: int|
            0 <= k < s.relocs.len() ==> x.reloc_ok(s.obj, #[trigger] s.relocs[k]),
{
    let mut i: usize = 0;
    while i < s.relocs.len()
        invariant
            i <= s.relocs.len(),
            s.relocs.len() > 0 ==> s.obj < x.objs.len(),
            forall|k: int| 0 <= k < i ==> x.reloc_ok(s.obj, #[trigger] s.relocs[k]),
        decreases s.relocs.len() - i,
    {
        let rel: &Reloc = &s.relocs[i];
        let ok: bool = match rel.target() {
            RelocTarget::Sym(t) => (t as usize) < x.objs[s.obj as usize].syms.len(),
            RelocTarget::Section(t) => (t as usize) < x.isecs.len(),
        };
        if !ok {
            assert(!x.reloc_ok(s.obj, s.relocs[i as int]));
            return false;
        }
        i += 1;
    }
    true
}

fn isec_ok(x: &Inputs, s: &InputSection) -> (r: bool)
    ensures
        r == x.isec_ok(*s),
{
    if s.obj == UNSET {
        if s.shndx as usize >= x.synthetic_hdrs.len() || s.relocs.len() != 0 {
            return false;
        }
    } else {
        if s.obj as usize >= x.objs.len() || s.shndx as usize >= x.objs[s.obj as usize].sect_hdrs.len() {
            return false;
        }
    }
    relocs_ok(x, s) && (s.replacement == NO_REPLACEMENT || (s.replacement as usize)
        < x.isecs.len())
}

fn range_ok(x: &Inputs, i: usize) -> (r: bool)
    requires
        i < x.isecs.len(),
    ensures
        r == x.range_ok(i as int),
{
    let s: &InputSection = &x.isecs[i];
    if !s.is_alive || s.nunwind == 0 {
        return true;
    }
    let end: u64 = s.unwind_offset as u64 + s.nunwind as u64;
    if end > x.unwind_records.len() as u64 {
        return false;
    }
    let mut k: usize = s.unwind_offset as usize;
    while (k as u64) < end
        invariant
            s.unwind_offset <= k <= end,
            i < x.isecs.len(),
            *s == x.isecs[i as int],
            s.is_alive,
            s.nunwind > 0,
            end == s.unwind_offset + s.nunwind,
            end <= x.unwind_records.len(),
            forall|j: int| s.unwind_offset <= j < k ==> (#[trigger] x.unwind_records[j]).isec == i,
        decreases end - k,
    {
        if x.unwind_records[k].isec != i {
            assert(x.unwind_records[k as int].isec != i);
            return false;
        }
        k += 1;
    }
    true
}

fn record_ok(x: &Inputs, r: &UnwindRecord) -> (ok: bool)
    ensures
        ok == x.record_ok(*r),
{
    let lsda: bool = match r.lsda {
        Some(l) => l.0 < x.isecs.len(),
        None => true,
    };
    let personality: bool = match r.personality {
        Some(p) => (p as usize) < x.symtab.syms.len(),
        None => true,
    };
    r.isec < x.isecs.len() && lsda && personality
}

fn fde_ok(x: &Inputs, f: &Fde) -> (ok: bool)
    ensures
        ok == x.fde_ok(*f),
{
    let lsda: bool = match f.lsda {
        Some(l) => l.0 < x.isecs.len(),
        None => true,
    };
    f.isec < x.isecs.len() && f.cie < x.cies.len() && lsda
}

fn cie_ok(x: &Inputs, c: &Cie) -> (ok: bool)
    ensures
        ok == x.cie_ok(*c),
{
    match c.personality {
        Some(p) => (p as usize) < x.symtab.syms.len(),
        None => true,
    }
}

fn section_exists(x: &Inputs, s: &Symbol) -> (ok: bool)
    ensures
        ok == x.sym_ok(*s),
{
    match s.isec() {
        Some(i) => (i as usize) < x.isecs.len(),
        None => true,
    }
}

fn objects_ok(x: &Inputs) -> (r: bool)
    ensures
        r == forall|i: int| 0 <= i < x.objs.len() ==> x.obj_ok(#[trigger] x.objs[i]),
{
    let mut i: usize = 0;
    while i < x.objs.len()
        invariant
            i <= x.objs.len(),
            forall|k: int| 0 <= k < i ==> x.obj_ok(#[trigger] x.objs[k]),
        decreases x.objs.len() - i,
    {
        if !obj_ok(x, &x.objs[i]) {
            assert(!x.obj_ok(x.objs[i as int]));
            return false;
        }
        i += 1;
    }
    true
}

fn subsections_ok(x: &Inputs) -> (r: bool)
    ensures
        r == ((forall|i: int| 0 <= i < x.isecs.len() ==> x.isec_ok(#[trigger] x.isecs[i])) && (
        forall|i: int| 0 <= i < x.isecs.len() ==> #[trigger] x.range_ok(i))),
{
    let mut i: usize = 0;
    while i < x.isecs.len()
        invariant
            i <= x.isecs.len(),
            forall|k: int| 0 <= k < i ==> x.isec_ok(#[trigger] x.isecs[k]),
            forall|k: int| 0 <= k < i ==> #[trigger] x.range_ok(k),
        decreases x.isecs.len() - i,
    {
        if !isec_ok(x, &x.isecs[i]) {
            assert(!x.isec_ok(x.isecs[i as int]));
            return false;
        }
        if !range_ok(x, i) {
            assert(!x.range_ok(i as int));
            return false;
        }
        i += 1;
    }
    true
}

fn records_ok(x: &Inputs) -> (r: bool)
    ensures
        r == forall|i: int|
            0 <= i < x.unwind_records.len() ==> x.record_ok(#[trigger] x.unwind_records[i]),
{
    let mut i: usize = 0;
    while i < x.unwind_records.len()
        invariant
            i <= x.unwind_records.len(),
            forall|k: int| 0 <= k < i ==> x.record_ok(#[trigger] x.unwind_records[k]),
        decreases x.unwind_records.len() - i,
    {
        if !record_ok(x, &x.unwind_records[i]) {
            assert(!x.record_ok(x.unwind_records[i as int]));
            return false;
        }
        i += 1;
    }
    true
}

fn frames_ok(x: &Inputs) -> (r: bool)
    ensures
        r == ((forall|i: int| 0 <= i < x.fdes.len() ==> x.fde_ok(#[trigger] x.fdes[i])) && (forall|
            i: int,
        |
            0 <= i < x.cies.len() ==> x.cie_ok(#[trigger] x.cies[i]))),
{
    let mut i: usize = 0;
    while i < x.fdes.len()
        invariant
            i <= x.fdes.len(),
            forall|k: int| 0 <= k < i ==> x.fde_ok(#[trigger] x.fdes[k]),
        decreases x.fdes.len() - i,
    {
        if !fde_ok(x, &x.fdes[i]) {
            assert(!x.fde_ok(x.fdes[i as int]));
            return false;
        }
        i += 1;
    }
    let mut c: usize = 0;
    while c < x.cies.len()
        invariant
            c <= x.cies.len(),
            forall|k: int| 0 <= k < c ==> x.cie_ok(#[trigger] x.cies[k]),
        decreases x.cies.len() - c,
    {
        if !cie_ok(x, &x.cies[c]) {
            assert(!x.cie_ok(x.cies[c as int]));
            return false;
        }
        c += 1;
    }
    true
}

fn symbols_ok(x: &Inputs) -> (r: bool)
    ensures
        r == forall|i: int| 0 <= i < x.symtab.syms.len() ==> x.sym_ok(#[trigger] x.symtab.syms[i]),
{
    let mut i: usize = 0;
    while i < x.symtab.syms.len()
        invariant
            i <= x.symtab.syms.len(),
            forall|k: int| 0 <= k < i ==> x.sym_ok(#[trigger] x.symtab.syms[k]),
        decreases x.symtab.syms.len() - i,
    {
        if !section_exists(x, &x.symtab.syms[i]) {
            assert(!x.sym_ok(x.symtab.syms[i as int]));
            return false;
        }
        i += 1;
    }
    true
}

/// Decides whether inputs are well-formed.
pub fn check_inputs(x: &Inputs) -> (r: bool)
    ensures
        r == x.wf(),
{
    let counts: bool = (x.isecs.len() as u64) < NO_REPLACEMENT as u64 && (x.objs.len() as u64)
        < 0xffff_ffff && (x.symtab.syms.len() as u64) < 0xffff_ffff && (x.unwind_records.len()
        as u64) < 0xffff_ffff && (x.fdes.len() as u64) < 0xffff_ffff;
    counts && objects_ok(x) && subsections_ok(x) && records_ok(x) && frames_ok(x) && symbols_ok(x)
}

/// Decides whether the FDEs of unwind records exist.
pub fn check_fdes(x: &Inputs) -> (r: bool)
    ensures
        r == x.fdes_exist(),
{
    let mut i: usize = 0;
    while i < x.unwind_records.len()
        invariant
            i <= x.unwind_records.len(),
            forall|k: int|
                0 <= k < i ==> ((#[trigger] x.unwind_records[k]).fde matches Some(f) ==> f
                    < x.fdes.len()),
        decreases x.unwind_records.len() - i,
    {
        if let Some(f) = x.unwind_records[i].fde {
            if f >= x.fdes.len() {
                assert(x.unwind_records[i as int].fde == Some(f));
                return false;
            }
        }
        i += 1;
    }
    true
}

/// Decides whether a list of subsections is in address order.
pub fn check_order(isecs: &Vec<InputSection>, subsecs: &Vec<usize>) -> (r: bool)
    requires
        crate::input_files::subsecs_exist(isecs@, subsecs@),
    ensures
        r == crate::input_files::in_address_order(
            crate::input_files::extents(isecs@, subsecs@),
        ),
{
    let ghost ext = crate::input_files::extents(isecs@, subsecs@);
    let mut i: usize = 1;
    while i < subsecs.len()
        invariant
            1 <= i,
            crate::input_files::subsecs_exist(isecs@, subsecs@),
            ext == crate::input_files::extents(isecs@, subsecs@),
            forall|a: int, b: int|
                0 <= a <= b < i && b < ext.len() ==> (#[trigger] ext[a]).0 <= (
                #[trigger] ext[b]).0,
        decreases subsecs.len() - i,
    {
        assert(ext[i as int].0 == isecs[subsecs[i as int] as int].input_addr);
        assert(ext[i - 1].0 == isecs[subsecs[i - 1] as int].input_addr);
        assert(subsecs[i - 1] < isecs.len());
        if isecs[subsecs[i - 1]].input_addr > isecs[subsecs[i]].input_addr {
            assert(ext[i - 1].0 > ext[i as int].0);
            return false;
        }
        proof {
            assert forall|a: int, b: int| 0 <= a <= b < i + 1 && b < ext.len() implies (
            #[trigger] ext[a]).0 <= (#[trigger] ext[b]).0 by {
                if b == i && a < i {
                    assert(ext[a].0 <= ext[i - 1].0);
                }
            }
        }
        i += 1;
    }
    true
}

/// Decides whether each object's list of subsections is sorted by address.
pub fn check_sorted(x: &Inputs) -> (r: bool)
    requires
        x.wf(),
    ensures
        r == crate::passes::fixups::subsecs_sorted(*x),
        r ==> crate::passes::resolve::objs_ok(x.objs@, x.isecs@, x.symtab.syms.len() as int),
{
    let mut o: usize = 0;
    while o < x.objs.len()
        invariant
            o <= x.objs.len(),
            x.wf(),
            forall|k: int|
                0 <= k < o ==> crate::input_files::in_address_order(
                    crate::input_files::extents(x.isecs@, (#[trigger] x.objs[k]).subsecs@),
                ),
        decreases x.objs.len() - o,
    {
        proof {
            assert(x.obj_ok(x.objs[o as int]));
        }
        if !check_order(&x.isecs, &x.objs[o].subsecs) {
            assert(!crate::input_files::in_address_order(
                crate::input_files::extents(x.isecs@, x.objs[o as int].subsecs@),
            ));
            return false;
        }
        o += 1;
    }
    proof {
        assert forall|o: int| 0 <= o < x.objs.len() implies x.obj_ok(#[trigger] x.objs[o]) by {}
        assert forall|o: int| 0 <= o < x.objs.len() implies {
            &&& (#[trigger] x.objs@[o]).nlists.len() == x.objs@[o].syms.len()
            &&& forall|k: int|
                0 <= k < x.objs@[o].syms.len() ==> (#[trigger] x.objs@[o].syms[k])
                    < x.symtab.syms.len()
            &&& crate::input_files::subsecs_exist(x.isecs@, x.objs@[o].subsecs@)
            &&& crate::input_files::in_address_order(
                crate::input_files::extents(x.isecs@, x.objs@[o].subsecs@),
            )
        } by {
            assert(x.obj_ok(x.objs[o]));
        }
    }
    true
}

fn binding_ok(ctx: &Context, s: &Symbol) -> (r: bool)
    ensures
        r == ctx.sym_ok(*s),
{
    let bound: bool = match s.origin() {
        Origin::Dylib(d) => d == UNSET || (d as usize) < ctx.dylibs.len(),
        _ => true,
    };
    bound && (s.aux_idx == NONE || (s.aux_idx as usize) < ctx.sym_aux.len())
}

/// Decides whether the libraries and slot entries of all symbols exist.
pub fn check_bindings(ctx: &Context) -> (r: bool)
    ensures
        r == crate::passes::dylibs::bindings_exist(*ctx),
{
    let mut i: usize = 0;
    while i < ctx.inputs.symtab.syms.len()
        invariant
            i <= ctx.inputs.symtab.syms.len(),
            forall|k: int|
                0 <= k < i ==> ctx.sym_ok(#[trigger] ctx.inputs.symtab.syms[k]),
        decreases ctx.inputs.symtab.syms.len() - i,
    {
        if !binding_ok(ctx, &ctx.inputs.symtab.syms[i]) {
            assert(!ctx.sym_ok(ctx.inputs.symtab.syms[i as int]));
            return false;
        }
        i += 1;
    }
    true
}

fn aux_ok(ctx: &Context, a: &SymAux) -> (r: bool)
    ensures
        r == ctx.aux_ok(*a),
{
    let n: usize = ctx.layout.chunks.len();
    (a.stub_idx == NO_IDX || ctx.layout.stubs_chunk < n) && (a.got_idx == NO_IDX
        || ctx.layout.got_chunk < n) && (a.tlv_idx == NO_IDX || ctx.layout.thread_ptrs_chunk < n)
        && (a.objc_stub_idx == NO_IDX || ctx.layout.objc_stubs_chunk < n)
}

/// Decides whether a context is well-formed.
pub fn check_context(ctx: &Context) -> (r: bool)
    ensures
        r == ctx.wf(),
{
    if !check_inputs(&ctx.inputs) || !check_bindings(ctx) {
        return false;
    }
    let mut i: usize = 0;
    while i < ctx.sym_aux.len()
        invariant
            i <= ctx.sym_aux.len(),
            forall|k: int| 0 <= k < i ==> ctx.aux_ok(#[trigger] ctx.sym_aux[k]),
        decreases ctx.sym_aux.len() - i,
    {
        if !aux_ok(ctx, &ctx.sym_aux[i]) {
            assert(!ctx.aux_ok(ctx.sym_aux[i as int]));
            return false;
        }
        i += 1;
    }
    let mut s: usize = 0;
    while s < ctx.inputs.isecs.len()
        invariant
            s <= ctx.inputs.isecs.len(),
            forall|k: int|
                0 <= k < s ==> (#[trigger] ctx.inputs.isecs[k]).osec == UNSET
                    || ctx.inputs.isecs[k].osec < ctx.layout.chunks.len(),
        decreases ctx.inputs.isecs.len() - s,
    {
        let osec: u32 = ctx.inputs.isecs[s].osec;
        if osec != UNSET && osec as usize >= ctx.layout.chunks.len() {
            assert(ctx.inputs.isecs[s as int].osec == osec);
            return false;
        }
        s += 1;
    }
    true
}

/// Decides whether segments list existing chunks.
pub fn check_segments(segs: &Vec<OutputSegment>, n: usize) -> (r: bool)
    ensures
        r == crate::passes::chunk_list::segs_ok(segs@, n as int),
{
    let mut s: usize = 0;
    while s < segs.len()
        invariant
            s <= segs.len(),
            forall|a: int, k: int|
                0 <= a < s && 0 <= k < segs[a].chunks.len() ==> (#[trigger] segs[a].chunks[k]) < n,
        decreases segs.len() - s,
    {
        if !all_below(&segs[s].chunks, n) {
            proof {
                let k = choose|k: int|
                    0 <= k < segs[s as int].chunks.len() && !((
                    #[trigger] segs[s as int].chunks[k]) < n);
                assert(!(segs[s as int].chunks[k] < n));
            }
            return false;
        }
        s += 1;
    }
    true
}

/// Decides whether chunks list existing subsections.
pub fn check_lists(chunks: &Vec<Chunk>, n: usize) -> (r: bool)
    ensures
        r == crate::passes::sections::lists_ok(chunks@, n as int),
{
    let mut c: usize = 0;
    while c < chunks.len()
        invariant
            c <= chunks.len(),
            forall|a: int, k: int|
                0 <= a < c && 0 <= k < chunks[a].isecs.len() ==> (#[trigger] chunks[a].isecs[k])
                    < n,
        decreases chunks.len() - c,
    {
        if !below(&chunks[c].isecs, n) {
            proof {
                let k = choose|k: int|
                    0 <= k < chunks[c as int].isecs.len() && !((
                    #[trigger] chunks[c as int].isecs[k]) < n);
                assert(!(chunks[c as int].isecs[k] < n));
            }
            return false;
        }
        c += 1;
    }
    true
}

/// Decides whether the symbols of all slots exist, and the chunks that hold
/// the slots.
pub fn check_slots(ctx: &Context) -> (r: bool)
    ensures
        r == crate::passes::fixups::slots_exist(*ctx),
{
    let n: usize = ctx.inputs.symtab.syms.len();
    let m: usize = ctx.layout.chunks.len();
    let s = &ctx.slots;
    below(&s.got_syms, n) && below(&s.thread_ptr_syms, n) && below(&s.stub_syms, n) && (
    s.got_syms.len() == 0 || ctx.layout.got_chunk < m) && (s.thread_ptr_syms.len() == 0
        || ctx.layout.thread_ptrs_chunk < m) && (s.objc_stubs.len() == 0
        || ctx.layout.objc_selrefs_chunk < m) && s.got_syms.len() as u64 <= 0xffff_ffff
        && s.thread_ptr_syms.len() as u64 <= 0xffff_ffff && s.objc_stubs.len() as u64 <= 0xffff_ffff
}

fn thunks_ok(ctx: &Context, thunks: &Vec<Thunk>) -> (r: bool)
    ensures
        r == forall|k: int|
            0 <= k < thunks.len() ==> crate::passes::contents::thunk_ok(
                *ctx,
                #[trigger] thunks[k],
            ),
{
    let mut i: usize = 0;
    while i < thunks.len()
        invariant
            i <= thunks.len(),
            forall|k: int|
                0 <= k < i ==> crate::passes::contents::thunk_ok(*ctx, #[trigger] thunks[k]),
        decreases thunks.len() - i,
    {
        if thunks[i].syms.len() as u64 > 0xffff_ffff || !below(
            &thunks[i].syms,
            ctx.inputs.symtab.syms.len(),
        ) {
            assert(!crate::passes::contents::thunk_ok(*ctx, thunks[i as int]));
            return false;
        }
        i += 1;
    }
    true
}

fn chunks_ok(ctx: &Context) -> (r: bool)
    ensures
        r == forall|i: int|
            0 <= i < ctx.layout.chunks.len() ==> crate::passes::contents::chunk_ok(
                *ctx,
                #[trigger] ctx.layout.chunks[i],
            ),
{
    let mut i: usize = 0;
    while i < ctx.layout.chunks.len()
        invariant
            i <= ctx.layout.chunks.len(),
            forall|k: int|
                0 <= k < i ==> crate::passes::contents::chunk_ok(
                    *ctx,
                    #[trigger] ctx.layout.chunks[k],
                ),
        decreases ctx.layout.chunks.len() - i,
    {
        let c: &Chunk = &ctx.layout.chunks[i];
        if !below(&c.isecs, ctx.inputs.isecs.len()) || !thunks_ok(ctx, &c.thunks) {
            assert(!crate::passes::contents::chunk_ok(*ctx, ctx.layout.chunks[i as int]));
            return false;
        }
        i += 1;
    }
    true
}

fn entries_ok(entries: &Vec<(crate::macho::NList, Option<u32>)>, n: usize) -> (r: bool)
    ensures
        r == forall|i: int|
            0 <= i < entries.len() ==> ((#[trigger] entries[i]).1 matches Some(id) ==> id < n),
{
    let mut i: usize = 0;
    while i < entries.len()
        invariant
            i <= entries.len(),
            forall|k: int|
                0 <= k < i ==> ((#[trigger] entries[k]).1 matches Some(id) ==> id < n),
        decreases entries.len() - i,
    {
        if let Some(id) = entries[i].1 {
            if id as usize >= n {
                assert(entries[i as int].1 == Some(id));
                return false;
            }
        }
        i += 1;
    }
    true
}

/// Decides whether everything that the output is made of exists.
pub fn check_parts(ctx: &Context, t: &Tables) -> (r: bool)
    ensures
        r == crate::passes::contents::parts_exist(*ctx, *t),
{
    if !check_context(ctx) || !check_slots(ctx) || ctx.slots.stub_syms.len() as u64 > 0xffff_ffff {
        return false;
    }
    let n: usize = ctx.inputs.symtab.syms.len();
    if t.symtab.output_sym_indices.len() != n || !below(&t.personalities, n) || !entries_ok(
        &t.symtab.entries,
        n,
    ) {
        return false;
    }
    check_inits(ctx) && chunks_ok(ctx)
}

/// Decides whether the subsections of initializers exist.
pub fn check_inits(ctx: &Context) -> (r: bool)
    ensures
        r == forall|i: int|
            0 <= i < ctx.init_funcs.len() ==> (#[trigger] ctx.init_funcs[i]).0
                < ctx.inputs.isecs.len(),
{
    let mut i: usize = 0;
    while i < ctx.init_funcs.len()
        invariant
            i <= ctx.init_funcs.len(),
            forall|k: int|
                0 <= k < i ==> (#[trigger] ctx.init_funcs[k]).0 < ctx.inputs.isecs.len(),
        decreases ctx.init_funcs.len() - i,
    {
        if ctx.init_funcs[i].0 >= ctx.inputs.isecs.len() {
            assert(!(ctx.init_funcs[i as int].0 < ctx.inputs.isecs.len()));
            return false;
        }
        i += 1;
    }
    true
}

fn slot_of(ctx: &Context, kind: SlotKind, id: usize) -> (r: u32)
    requires
        id < ctx.inputs.symtab.syms.len(),
        ctx.sym_ok(ctx.inputs.symtab.syms[id as int]),
    ensures
        r == crate::passes::slots::slot_idx(*ctx, kind, id as int),
{
    let a: u32 = ctx.inputs.symtab.syms[id].aux_idx;
    if a == NONE {
        return NO_IDX;
    }
    let x: &SymAux = &ctx.sym_aux[a as usize];
    match kind {
        SlotKind::Stub => x.stub_idx,
        SlotKind::Got => x.got_idx,
        SlotKind::ThreadPtr => x.tlv_idx,
    }
}

fn numbered(ctx: &Context, kind: SlotKind, list: &Vec<u32>) -> (r: bool)
    requires
        crate::passes::dylibs::bindings_exist(*ctx),
        list@ == crate::passes::slots::slot_list(*ctx, kind),
        ctx.inputs.symtab.syms.len() < UNSET,
    ensures
        r == crate::passes::slots::numbered(*ctx, kind),
{
    let n: usize = ctx.inputs.symtab.syms.len();
    let mut id: usize = 0;
    while id < n
        invariant
            id <= n,
            n == ctx.inputs.symtab.syms.len(),
            n < UNSET,
            crate::passes::dylibs::bindings_exist(*ctx),
            list@ == crate::passes::slots::slot_list(*ctx, kind),
            forall|k: int|
                0 <= k < id && #[trigger] crate::passes::slots::slot_idx(*ctx, kind, k) != NO_IDX
                    ==> crate::passes::slots::slot_idx(*ctx, kind, k) < list.len()
                    && list[crate::passes::slots::slot_idx(*ctx, kind, k) as int] == k,
        decreases n - id,
    {
        let at: u32 = slot_of(ctx, kind, id);
        if at != NO_IDX && (at as usize >= list.len() || list[at as usize] != id as u32) {
            assert(crate::passes::slots::slot_idx(*ctx, kind, id as int) == at);
            return false;
        }
        id += 1;
    }
    let mut k: usize = 0;
    while k < list.len()
        invariant
            k <= list.len(),
            n == ctx.inputs.symtab.syms.len(),
            crate::passes::dylibs::bindings_exist(*ctx),
            list@ == crate::passes::slots::slot_list(*ctx, kind),
            forall|j: int|
                0 <= j < k ==> (#[trigger] list@[j]) < n && crate::passes::slots::slot_idx(
                    *ctx,
                    kind,
                    list@[j] as int,
                ) == j,
        decreases list.len() - k,
    {
        let id: u32 = list[k];
        assert(list@[k as int] == id);
        if id as usize >= n || slot_of(ctx, kind, id as usize) as usize != k {
            return false;
        }
        k += 1;
    }
    true
}

fn objc_numbered(ctx: &Context) -> (r: bool)
    requires
        crate::passes::dylibs::bindings_exist(*ctx),
        ctx.inputs.symtab.syms.len() < UNSET,
    ensures
        r == crate::passes::slots::objc_numbered(*ctx),
{
    let n: usize = ctx.inputs.symtab.syms.len();
    let list: &Vec<(u32, Vec<u8>)> = &ctx.slots.objc_stubs;
    let mut id: usize = 0;
    while id < n
        invariant
            id <= n,
            n == ctx.inputs.symtab.syms.len(),
            n < UNSET,
            crate::passes::dylibs::bindings_exist(*ctx),
            *list == ctx.slots.objc_stubs,
            forall|k: int|
                0 <= k < id && (#[trigger] ctx.slots_of(k)).objc_stub != NO_IDX ==> ctx.slots_of(
                    k,
                ).objc_stub < list.len() && list[ctx.slots_of(k).objc_stub as int].0 == k,
        decreases n - id,
    {
        let at: u32 = objc_slot_of(ctx, id);
        if at != NO_IDX && (at as usize >= list.len() || list[at as usize].0 != id as u32) {
            assert(ctx.slots_of(id as int).objc_stub == at);
            return false;
        }
        id += 1;
    }
    let mut k: usize = 0;
    while k < list.len()
        invariant
            k <= list.len(),
            n == ctx.inputs.symtab.syms.len(),
            crate::passes::dylibs::bindings_exist(*ctx),
            *list == ctx.slots.objc_stubs,
            forall|j: int|
                0 <= j < k ==> (#[trigger] list[j]).0 < n && ctx.slots_of(
                    list[j].0 as int,
                ).objc_stub == j,
        decreases list.len() - k,
    {
        let id: u32 = list[k].0;
        assert(list[k as int].0 == id);
        if id as usize >= n || objc_slot_of(ctx, id as usize) as usize != k {
            return false;
        }
        k += 1;
    }
    true
}

fn objc_slot_of(ctx: &Context, id: usize) -> (r: u32)
    requires
        id < ctx.inputs.symtab.syms.len(),
        ctx.sym_ok(ctx.inputs.symtab.syms[id as int]),
    ensures
        r == ctx.slots_of(id as int).objc_stub,
{
    let a: u32 = ctx.inputs.symtab.syms[id].aux_idx;
    if a == NONE {
        NO_IDX
    } else {
        ctx.sym_aux[a as usize].objc_stub_idx
    }
}

/// Decides whether each slot entry belongs to one symbol.
fn entries_owned(ctx: &Context) -> (r: bool)
    requires
        crate::passes::dylibs::bindings_exist(*ctx),
        ctx.inputs.symtab.syms.len() < UNSET,
    ensures
        r == ({
            let syms = ctx.inputs.symtab.syms;
            &&& forall|a: int, b: int|
                0 <= a < b < syms.len() && (#[trigger] syms[a]).aux_idx != NONE ==> syms[a].aux_idx
                    != (#[trigger] syms[b]).aux_idx
            &&& ctx.sym_aux.len() == crate::passes::slots::aux_count(
                syms@,
                syms.len() as int,
            )
        }),
{
    let ghost syms = ctx.inputs.symtab.syms@;
    let mut owner: Vec<u32> = Vec::new();
    while owner.len() < ctx.sym_aux.len()
        invariant
            owner.len() <= ctx.sym_aux.len(),
            forall|k: int| 0 <= k < owner.len() ==> #[trigger] owner[k] == UNSET,
        decreases ctx.sym_aux.len() - owner.len(),
    {
        owner.push(UNSET);
    }
    let mut count: usize = 0;
    let mut n: usize = 0;
    while n < ctx.inputs.symtab.syms.len()
        invariant
            n <= ctx.inputs.symtab.syms.len(),
            syms == ctx.inputs.symtab.syms@,
            syms.len() < UNSET,
            crate::passes::dylibs::bindings_exist(*ctx),
            owner.len() == ctx.sym_aux.len(),
            count == crate::passes::slots::aux_count(syms, n as int),
            count <= n,
            forall|k: int|
                0 <= k < owner.len() && #[trigger] owner[k] != UNSET ==> owner[k] < n
                    && syms[owner[k] as int].aux_idx == k,
            forall|a: int|
                0 <= a < n && (#[trigger] syms[a]).aux_idx != NONE
                    ==> owner[syms[a].aux_idx as int] == a,
            forall|a: int, b: int|
                0 <= a < b < n && (#[trigger] syms[a]).aux_idx != NONE ==> syms[a].aux_idx != (
                #[trigger] syms[b]).aux_idx,
        decreases ctx.inputs.symtab.syms.len() - n,
    {
        let a: u32 = ctx.inputs.symtab.syms[n].aux_idx;
        assert(ctx.sym_ok(ctx.inputs.symtab.syms[n as int]));
        if a != NONE {
            if owner[a as usize] != UNSET {
                proof {
                    let first = owner[a as int] as int;
                    assert(syms[first].aux_idx == a);
                    assert(syms[n as int].aux_idx == a);
                    assert(first < n);
                }
                return false;
            }
            owner.set(a as usize, n as u32);
            count += 1;
        }
        n += 1;
    }
    ctx.sym_aux.len() == count
}

/// Decides whether slots can be assigned: everything that symbols refer to
/// exists, and the slots that there are agree with their symbols.
pub fn check_ready(ctx: &Context) -> (r: bool)
    ensures
        r == crate::passes::slots::ready(*ctx),
{
    check_inputs(&ctx.inputs) && check_bindings(ctx) && entries_owned(ctx) && numbered(
        ctx,
        SlotKind::Stub,
        &ctx.slots.stub_syms,
    ) && numbered(ctx, SlotKind::Got, &ctx.slots.got_syms) && numbered(
        ctx,
        SlotKind::ThreadPtr,
        &ctx.slots.thread_ptr_syms,
    ) && objc_numbered(ctx)
}

} // verus!
