//! The places in the output that dyld must fix up.
use crate::arch::{Arch, RelocClass};
use crate::chunks::bind_info::{encode_bind_info, Bind, BindView};
use crate::chunks::function_starts::encode_function_starts;
use crate::chunks::rebase_info::encode_rebase_info;
use crate::context::Context;
use crate::input_sections::{InputSection, Reloc};
use crate::inputs::Inputs;
use crate::symbol::{Origin, Symbol};
use crate::util::{bytes, order};
use vstd::prelude::*;
use vstd::string::*;

verus! {

/// A pointer that dyld fixes up: it slides an address that the linker wrote,
/// or it writes an import's address.
#[derive(Clone, Copy, Debug, PartialEq, Eq, Structural)]
pub struct Fixup {
    pub addr: u64,
    /// The import, if there is one.
    pub sym: Option<u32>,
    pub addend: i64,
}

/// True when the symbols of all slots exist, and so do the chunks of slots.
pub open spec fn slots_exist(ctx: Context) -> bool {
    let n = ctx.inputs.symtab.syms.len();
    let m = ctx.layout.chunks.len();
    &&& forall|i: int| 0 <= i < ctx.slots.got_syms.len() ==> (#[trigger] ctx.slots.got_syms[i]) < n
    &&& forall|i: int|
        0 <= i < ctx.slots.thread_ptr_syms.len() ==> (#[trigger] ctx.slots.thread_ptr_syms[i]) < n
    &&& forall|i: int|
        0 <= i < ctx.slots.stub_syms.len() ==> (#[trigger] ctx.slots.stub_syms[i]) < n
    &&& ctx.slots.got_syms.len() > 0 ==> ctx.layout.got_chunk < m
    &&& ctx.slots.thread_ptr_syms.len() > 0 ==> ctx.layout.thread_ptrs_chunk < m
    &&& ctx.slots.objc_stubs.len() > 0 ==> ctx.layout.objc_selrefs_chunk < m
    &&& ctx.slots.got_syms.len() <= u32::MAX
    &&& ctx.slots.thread_ptr_syms.len() <= u32::MAX
    &&& ctx.slots.objc_stubs.len() <= u32::MAX
}

/// True for a relocation that writes a whole pointer: neither half of a
/// subtraction does.
pub open spec fn is_pointer<E: Arch>(rel: Reloc) -> bool {
    E::class_of(rel.r_type) == RelocClass::Plain && rel.size == 8 && !rel.is_pcrel
        && !rel.is_subtracted && rel.r_type != E::info().reloc_subtractor
}

fn writes_pointer<E: Arch>(rel: &Reloc) -> (r: bool)
    ensures
        r == is_pointer::<E>(*rel),
{
    E::classify_reloc(rel.r_type) == RelocClass::Plain && rel.size == 8 && !rel.is_pcrel
        && !rel.is_subtracted && rel.r_type != E::get_info().reloc_subtractor
}

/// The fixup of a relocation of subsection `id`, if it has one. Pointers to
/// thread-local data are offsets from the thread pointer, not addresses, so
/// they need none.
pub open spec fn fixup_of<E: Arch>(ctx: Context, id: int, rel: Reloc) -> Option<Fixup> {
    let s = ctx.inputs.isecs[id];
    let addr = bytes::word64(ctx.addr_of_isec(id) + rel.offset);
    let sym = ctx.inputs.target_sym(s.obj, rel);
    if !is_pointer::<E>(rel) {
        None
    } else if sym is Some && ctx.inputs.symtab.syms[sym->0 as int].flags.is_imported {
        Some(Fixup { addr, sym, addend: rel.addend })
    } else if ctx.target_is_tls(s.obj, rel) {
        None
    } else {
        Some(Fixup { addr, sym: None, addend: 0 })
    }
}

/// The fixups of the first `k` relocations of a subsection.
pub open spec fn isec_fixups<E: Arch>(ctx: Context, id: int, k: int) -> Seq<Fixup>
    decreases k,
{
    if k <= 0 {
        Seq::empty()
    } else {
        match fixup_of::<E>(ctx, id, ctx.inputs.isecs[id].relocs[k - 1]) {
            Some(f) => isec_fixups::<E>(ctx, id, k - 1).push(f),
            None => isec_fixups::<E>(ctx, id, k - 1),
        }
    }
}

/// The fixups of the first `n` subsections, as far as these are kept.
pub open spec fn data_fixups<E: Arch>(ctx: Context, n: int) -> Seq<Fixup>
    decreases n,
{
    if n <= 0 {
        Seq::empty()
    } else if super::sections::is_kept(ctx.inputs.isecs[n - 1]) {
        data_fixups::<E>(ctx, n - 1) + isec_fixups::<E>(
            ctx,
            n - 1,
            ctx.inputs.isecs[n - 1].relocs.len() as int,
        )
    } else {
        data_fixups::<E>(ctx, n - 1)
    }
}

/// The fixup of a slot that holds a symbol's address.
pub open spec fn slot_fixup(ctx: Context, chunk: usize, i: int, id: u32) -> Fixup {
    Fixup {
        addr: ctx.slot_addr(chunk, i as u32, 8),
        sym: if ctx.inputs.symtab.syms[id as int].flags.is_imported {
            Some(id)
        } else {
            None
        },
        addend: 0,
    }
}

/// The fixups of a list of slots.
pub open spec fn slot_fixups(ctx: Context, chunk: usize, syms: Seq<u32>) -> Seq<Fixup> {
    Seq::new(syms.len(), |i: int| slot_fixup(ctx, chunk, i, syms[i]))
}

/// The fixups of the selector references that stubs load.
pub open spec fn selref_fixups(ctx: Context) -> Seq<Fixup> {
    Seq::new(
        ctx.slots.objc_stubs@.len(),
        |i: int|
            Fixup {
                addr: ctx.slot_addr(ctx.layout.objc_selrefs_chunk, i as u32, 8),
                sym: None,
                addend: 0,
            },
    )
}

/// All fixups of the output: those of pointers in data, of __got and
/// __thread_ptrs slots, and of selector references.
pub open spec fn all_fixups<E: Arch>(ctx: Context) -> Seq<Fixup> {
    data_fixups::<E>(ctx, ctx.inputs.isecs.len() as int) + slot_fixups(
        ctx,
        ctx.layout.got_chunk,
        ctx.slots.got_syms@,
    ) + slot_fixups(ctx, ctx.layout.thread_ptrs_chunk, ctx.slots.thread_ptr_syms@) + selref_fixups(
        ctx,
    )
}

/// The addresses of fixups.
pub open spec fn fixup_addrs(fixups: Seq<Fixup>) -> Seq<u64> {
    fixups.map_values(|f: Fixup| f.addr)
}

/// Fixups in the order of their addresses.
pub open spec fn by_addr(fixups: Seq<Fixup>) -> Seq<Fixup> {
    order::stable_order_of(fixup_addrs(fixups)).map_values(|i: usize| fixups[i as int])
}

/// Appends the fixups of one subsection.
fn push_isec_fixups<E: Arch>(ctx: &Context, id: usize, out: &mut Vec<Fixup>)
    requires
        ctx.wf(),
        id < ctx.inputs.isecs.len(),
    ensures
        final(out)@ == old(out)@ + isec_fixups::<E>(
            *ctx,
            id as int,
            ctx.inputs.isecs[id as int].relocs.len() as int,
        ),
{
    let x: &Inputs = &ctx.inputs;
    let ghost start = out@;
    assert(start + Seq::<Fixup>::empty() =~= start);
    let base: u64 = ctx.isec_addr(id);
    let s: &InputSection = &x.isecs[id];
    let mut k: usize = 0;
    while k < s.relocs.len()
        invariant
            ctx.wf(),
            *x == ctx.inputs,
            id < x.isecs.len(),
            *s == x.isecs[id as int],
            base == ctx.addr_of_isec(id as int),
            k <= s.relocs.len(),
            out@ == start + isec_fixups::<E>(*ctx, id as int, k as int),
        decreases s.relocs.len() - k,
    {
        proof {
            assert(x.isec_ok(*s));
            assert(x.reloc_ok(s.obj, s.relocs[k as int]));
        }
        let rel: &Reloc = &s.relocs[k];
        let ghost a = isec_fixups::<E>(*ctx, id as int, k as int);
        if writes_pointer::<E>(rel) {
            let addr: u64 = bytes::sum64(base, rel.offset as u64);
            let import: Option<u32> = match x.reloc_target_sym(s.obj, rel) {
                Some(sym) => if x.symtab.syms[sym as usize].flags.is_imported {
                    Some(sym)
                } else {
                    None
                },
                None => None,
            };
            if import.is_some() {
                let f = Fixup { addr, sym: import, addend: rel.addend };
                out.push(f);
                assert((start + a).push(f) =~= start + a.push(f));
            } else if !ctx.reloc_target_is_tls(s.obj, rel) {
                let f = Fixup { addr, sym: None, addend: 0 };
                out.push(f);
                assert((start + a).push(f) =~= start + a.push(f));
            }
        }
        k += 1;
    }
}

/// Appends the fixups of a list of slots.
fn push_slot_fixups(ctx: &Context, chunk: usize, syms: &Vec<u32>, out: &mut Vec<Fixup>)
    requires
        syms.len() > 0 ==> chunk < ctx.layout.chunks.len(),
        syms.len() <= u32::MAX,
        forall|i: int| 0 <= i < syms.len() ==> (#[trigger] syms[i]) < ctx.inputs.symtab.syms.len(),
    ensures
        final(out)@ == old(out)@ + slot_fixups(*ctx, chunk, syms@),
{
    let ghost start = out@;
    let ghost v = slot_fixups(*ctx, chunk, syms@);
    assert(start + v.take(0) =~= start);
    let mut i: usize = 0;
    while i < syms.len()
        invariant
            i <= syms.len(),
            syms.len() > 0 ==> chunk < ctx.layout.chunks.len(),
            syms.len() <= u32::MAX,
            forall|i: int|
                0 <= i < syms.len() ==> (#[trigger] syms[i]) < ctx.inputs.symtab.syms.len(),
            v == slot_fixups(*ctx, chunk, syms@),
            out@ == start + v.take(i as int),
        decreases syms.len() - i,
    {
        let id: u32 = syms[i];
        let f = Fixup {
            addr: ctx.find_slot(chunk, i as u32, 8),
            sym: if ctx.inputs.symtab.syms[id as usize].flags.is_imported {
                Some(id)
            } else {
                None
            },
            addend: 0,
        };
        out.push(f);
        assert(v[i as int] == f);
        assert(start + v.take(i + 1) =~= (start + v.take(i as int)).push(f));
        i += 1;
    }
    assert(v.take(i as int) =~= v);
}

/// Appends the fixups of selector references.
fn push_selref_fixups(ctx: &Context, out: &mut Vec<Fixup>)
    requires
        slots_exist(*ctx),
    ensures
        final(out)@ == old(out)@ + selref_fixups(*ctx),
{
    let ghost start = out@;
    let ghost v = selref_fixups(*ctx);
    assert(start + v.take(0) =~= start);
    let mut i: usize = 0;
    while i < ctx.slots.objc_stubs.len()
        invariant
            i <= ctx.slots.objc_stubs.len(),
            slots_exist(*ctx),
            v == selref_fixups(*ctx),
            out@ == start + v.take(i as int),
        decreases ctx.slots.objc_stubs.len() - i,
    {
        let f = Fixup {
            addr: ctx.find_slot(ctx.layout.objc_selrefs_chunk, i as u32, 8),
            sym: None,
            addend: 0,
        };
        out.push(f);
        assert(v[i as int] == f);
        assert(start + v.take(i + 1) =~= (start + v.take(i as int)).push(f));
        i += 1;
    }
    assert(v.take(i as int) =~= v);
}

/// True when fixups are in the order of their addresses.
pub open spec fn in_order(fixups: Seq<Fixup>) -> bool {
    forall|a: int, b: int|
        0 <= a <= b < fixups.len() ==> (#[trigger] fixups[a]).addr <= (#[trigger] fixups[b]).addr
}

/// Sorts fixups by address.
fn sort_by_addr(fixups: &Vec<Fixup>) -> (r: Vec<Fixup>)
    ensures
        r@ == by_addr(fixups@),
        in_order(r@),
{
    let mut keys: Vec<u64> = Vec::new();
    while keys.len() < fixups.len()
        invariant
            keys.len() <= fixups.len(),
            forall|i: int| 0 <= i < keys.len() ==> #[trigger] keys[i] == fixups[i].addr,
        decreases fixups.len() - keys.len(),
    {
        let i: usize = keys.len();
        keys.push(fixups[i].addr);
    }
    assert(keys@ =~= fixup_addrs(fixups@));
    let at: Vec<usize> = order::stable_order(keys.as_slice());
    let mut r: Vec<Fixup> = Vec::new();
    while r.len() < at.len()
        invariant
            r.len() <= at.len(),
            forall|i: int| 0 <= i < at.len() ==> (#[trigger] at[i]) < fixups.len(),
            forall|i: int| 0 <= i < r.len() ==> #[trigger] r[i] == fixups[at[i] as int],
        decreases at.len() - r.len(),
    {
        let k: usize = at[r.len()];
        r.push(fixups[k]);
    }
    assert(r@ =~= by_addr(fixups@));
    assert forall|a: int, b: int| 0 <= a <= b < r@.len() implies (#[trigger] r@[a]).addr <= (
    #[trigger] r@[b]).addr by {
        if a < b {
            assert(order::item_before(keys@, at[a] as int, at[b] as int));
        }
    }
    r
}

/// Collects every place that dyld must fix up, in the order of addresses.
pub fn collect_fixups<E: Arch>(ctx: &Context) -> (r: Vec<Fixup>)
    requires
        ctx.wf(),
        slots_exist(*ctx),
    ensures
        r@ == by_addr(all_fixups::<E>(*ctx)),
        in_order(r@),
        all_fixups::<E>(*ctx).len() <= usize::MAX,
{
    let mut out: Vec<Fixup> = Vec::new();
    assert(out@ =~= Seq::empty());
    let mut n: usize = 0;
    while n < ctx.inputs.isecs.len()
        invariant
            ctx.wf(),
            n <= ctx.inputs.isecs.len(),
            out@ == data_fixups::<E>(*ctx, n as int),
        decreases ctx.inputs.isecs.len() - n,
    {
        let s: &InputSection = &ctx.inputs.isecs[n];
        if s.is_alive && s.replacement == crate::input_sections::NO_REPLACEMENT {
            push_isec_fixups::<E>(ctx, n, &mut out);
        }
        n += 1;
    }
    push_slot_fixups(ctx, ctx.layout.got_chunk, &ctx.slots.got_syms, &mut out);
    push_slot_fixups(ctx, ctx.layout.thread_ptrs_chunk, &ctx.slots.thread_ptr_syms, &mut out);
    push_selref_fixups(ctx, &mut out);
    assert(out.len() <= usize::MAX);
    sort_by_addr(&out)
}

/// The addresses of the first `n` fixups that slide.
pub open spec fn slides_to(fixups: Seq<Fixup>, n: int) -> Seq<u64>
    decreases n,
{
    if n <= 0 {
        Seq::empty()
    } else if fixups[n - 1].sym is None {
        slides_to(fixups, n - 1).push(fixups[n - 1].addr)
    } else {
        slides_to(fixups, n - 1)
    }
}

/// The rebase opcode stream of the output.
pub open spec fn rebase_info_of<E: Arch>(ctx: Context) -> Option<Seq<u8>> {
    let f = by_addr(all_fixups::<E>(ctx));
    crate::chunks::rebase_info::rebase_info(
        slides_to(f, f.len() as int),
        crate::output_chunks::header::segment_views(ctx.layout.segments@),
    )
}

/// Builds the rebase opcode stream, which tells dyld which pointers it must
/// slide. `None` when a pointer is in no segment.
pub fn build_rebase_info<E: Arch>(ctx: &Context) -> (r: Option<Vec<u8>>)
    requires
        ctx.wf(),
        slots_exist(*ctx),
    ensures
        match r {
            Some(b) => rebase_info_of::<E>(*ctx) == Some(b@),
            None => rebase_info_of::<E>(*ctx) is None,
        },
{
    let fixups: Vec<Fixup> = collect_fixups::<E>(ctx);
    let mut locs: Vec<u64> = Vec::new();
    assert(locs@ =~= Seq::empty());
    let mut n: usize = 0;
    while n < fixups.len()
        invariant
            n <= fixups.len(),
            locs@ == slides_to(fixups@, n as int),
        decreases fixups.len() - n,
    {
        if fixups[n].sym.is_none() {
            locs.push(fixups[n].addr);
        }
        n += 1;
    }
    encode_rebase_info(&locs, &ctx.layout.segments)
}

/// The bind of a fixup that an import fills.
pub open spec fn bind_of(ctx: Context, f: Fixup) -> BindView {
    let s = ctx.inputs.symtab.syms[f.sym->0 as int];
    BindView {
        addr: f.addr,
        ordinal: ctx.ordinal_of(s.file),
        weak: s.flags.is_weak_ref,
        name: s.name@,
        addend: f.addend,
    }
}

/// True when the import of a fixup comes from a library.
pub open spec fn comes_from_library(ctx: Context, f: Fixup) -> bool {
    f.sym matches Some(id) ==> ctx.inputs.symtab.syms[id as int].defined_by() is Dylib
}

/// The binds of the first `n` fixups. `None` when an import comes from no
/// library.
pub open spec fn binds_to(ctx: Context, fixups: Seq<Fixup>, n: int) -> Option<Seq<BindView>>
    decreases n,
{
    if n <= 0 {
        Some(Seq::empty())
    } else {
        match binds_to(ctx, fixups, n - 1) {
            None => None,
            Some(b) => if fixups[n - 1].sym is None {
                Some(b)
            } else if !comes_from_library(ctx, fixups[n - 1]) {
                None
            } else {
                Some(b.push(bind_of(ctx, fixups[n - 1])))
            },
        }
    }
}

/// The bind opcode stream of the output.
pub open spec fn bind_info_of<E: Arch>(ctx: Context) -> Option<Seq<u8>> {
    let f = by_addr(all_fixups::<E>(ctx));
    match binds_to(ctx, f, f.len() as int) {
        None => None,
        Some(b) => crate::chunks::bind_info::bind_info(
            b,
            crate::output_chunks::header::segment_views(ctx.layout.segments@),
        ),
    }
}

proof fn lemma_binds_none(ctx: Context, fixups: Seq<Fixup>, a: int, b: int)
    requires
        a <= b,
        binds_to(ctx, fixups, a) is None,
    ensures
        binds_to(ctx, fixups, b) is None,
    decreases b - a,
{
    if a < b && b > 0 {
        lemma_binds_none(ctx, fixups, a, b - 1);
    }
}

/// The symbols of fixups exist.
pub open spec fn imports_exist(ctx: Context, fixups: Seq<Fixup>) -> bool {
    forall|i: int|
        0 <= i < fixups.len() ==> ((#[trigger] fixups[i]).sym matches Some(id) ==> id
            < ctx.inputs.symtab.syms.len())
}

proof fn lemma_isec_imports<E: Arch>(ctx: Context, id: int, k: int)
    requires
        ctx.wf(),
        0 <= id < ctx.inputs.isecs.len(),
        k <= ctx.inputs.isecs[id].relocs.len(),
    ensures
        imports_exist(ctx, isec_fixups::<E>(ctx, id, k)),
    decreases k,
{
    if k > 0 {
        lemma_isec_imports::<E>(ctx, id, k - 1);
        let x = ctx.inputs;
        let s = x.isecs[id];
        assert(x.isec_ok(s));
        assert(x.reloc_ok(s.obj, s.relocs[k - 1]));
        assert(x.obj_ok(x.objs[s.obj as int]));
    }
}

proof fn lemma_data_imports<E: Arch>(ctx: Context, n: int)
    requires
        ctx.wf(),
        n <= ctx.inputs.isecs.len(),
    ensures
        imports_exist(ctx, data_fixups::<E>(ctx, n)),
    decreases n,
{
    if n > 0 {
        lemma_data_imports::<E>(ctx, n - 1);
        lemma_isec_imports::<E>(ctx, n - 1, ctx.inputs.isecs[n - 1].relocs.len() as int);
    }
}

/// The symbols of all fixups exist.
pub proof fn lemma_imports_exist<E: Arch>(ctx: Context)
    requires
        ctx.wf(),
        slots_exist(ctx),
        all_fixups::<E>(ctx).len() <= usize::MAX,
    ensures
        imports_exist(ctx, by_addr(all_fixups::<E>(ctx))),
{
    lemma_data_imports::<E>(ctx, ctx.inputs.isecs.len() as int);
    let a = data_fixups::<E>(ctx, ctx.inputs.isecs.len() as int);
    let b = slot_fixups(ctx, ctx.layout.got_chunk, ctx.slots.got_syms@);
    let c = slot_fixups(ctx, ctx.layout.thread_ptrs_chunk, ctx.slots.thread_ptr_syms@);
    let d = selref_fixups(ctx);
    let all = all_fixups::<E>(ctx);
    assert(imports_exist(ctx, a));
    assert forall|i: int| 0 <= i < b.len() implies ((#[trigger] b[i]).sym matches Some(id) ==> id
        < ctx.inputs.symtab.syms.len()) by {
        assert(ctx.slots.got_syms[i] < ctx.inputs.symtab.syms.len());
    }
    assert forall|i: int| 0 <= i < c.len() implies ((#[trigger] c[i]).sym matches Some(id) ==> id
        < ctx.inputs.symtab.syms.len()) by {
        assert(ctx.slots.thread_ptr_syms[i] < ctx.inputs.symtab.syms.len());
    }
    assert(all == a + b + c + d);
    assert(imports_exist(ctx, all));
    let keys = fixup_addrs(all);
    order::lemma_stable_order_exists(keys);
    let sorted = by_addr(all);
    assert forall|i: int| 0 <= i < sorted.len() implies ((#[trigger] sorted[i]).sym matches Some(
        id,
    ) ==> id < ctx.inputs.symtab.syms.len()) by {
        let k = order::stable_order_of(keys)[i];
        assert(sorted[i] == all[k as int]);
    }
}

/// Builds the bind opcode stream, which tells dyld which import to write
/// into each slot. `None` when an import comes from no library or a slot is
/// in no segment.
pub fn build_bind_info<E: Arch>(ctx: &Context) -> (r: Option<Vec<u8>>)
    requires
        ctx.wf(),
        slots_exist(*ctx),
    ensures
        match r {
            Some(b) => bind_info_of::<E>(*ctx) == Some(b@),
            None => bind_info_of::<E>(*ctx) is None,
        },
{
    let fixups: Vec<Fixup> = collect_fixups::<E>(ctx);
    proof {
        lemma_imports_exist::<E>(*ctx);
    }
    let mut binds: Vec<Bind> = Vec::new();
    assert(crate::chunks::bind_info::bind_views(binds@) =~= Seq::empty());
    let mut n: usize = 0;
    while n < fixups.len()
        invariant
            ctx.wf(),
            n <= fixups.len(),
            fixups@ == by_addr(all_fixups::<E>(*ctx)),
            imports_exist(*ctx, fixups@),
            binds_to(*ctx, fixups@, n as int) == Some(
                crate::chunks::bind_info::bind_views(binds@),
            ),
        decreases fixups.len() - n,
    {
        let f: Fixup = fixups[n];
        if let Some(id) = f.sym {
            proof {
                assert(fixups@[n as int].sym == Some(id));
                assert(ctx.sym_ok(ctx.inputs.symtab.syms[id as int]));
            }
            let s: &Symbol = &ctx.inputs.symtab.syms[id as usize];
            let lib: bool = match s.origin() {
                Origin::Dylib(_) => true,
                _ => false,
            };
            if !lib {
                proof {
                    lemma_binds_none(*ctx, fixups@, n + 1, fixups.len() as int);
                }
                return None;
            }
            let b = Bind {
                addr: f.addr,
                ordinal: ctx.bind_ordinal(s.file),
                weak: s.flags.is_weak_ref,
                name: bytes::to_vec(s.name()),
                addend: f.addend,
            };
            let ghost before = crate::chunks::bind_info::bind_views(binds@);
            assert(b@ == bind_of(*ctx, f));
            binds.push(b);
            assert(crate::chunks::bind_info::bind_views(binds@) =~= before.push(b@));
        }
        n += 1;
    }
    encode_bind_info(&binds, &ctx.layout.segments)
}

/// The address of a symbol of code in __TEXT,__text, if it is one that is
/// live.
pub open spec fn function_addr(ctx: Context, s: Symbol) -> Option<u64> {
    match super::stabs::home(ctx.inputs, s) {
        Some(v) if s.defined_by() is Obj && crate::input_files::is_section(
            ctx.inputs.header(ctx.inputs.isecs[v]),
            "__TEXT".spec_bytes(),
            "__text".spec_bytes(),
        ) => Some(bytes::word64(ctx.addr_of_isec(s.isec as int) + s.value)),
        _ => None,
    }
}

/// The addresses of the functions among the first `n` symbols.
pub open spec fn functions_to(ctx: Context, n: int) -> Seq<u64>
    decreases n,
{
    if n <= 0 {
        Seq::empty()
    } else {
        match function_addr(ctx, ctx.inputs.symtab.syms[n - 1]) {
            Some(a) => functions_to(ctx, n - 1).push(a),
            None => functions_to(ctx, n - 1),
        }
    }
}

/// The LC_FUNCTION_STARTS table of the output. `None` when a function lies
/// below the image base.
pub open spec fn function_starts_of(ctx: Context) -> Option<Seq<u8>> {
    let addrs = functions_to(ctx, ctx.inputs.symtab.syms.len() as int);
    if !ctx.args.sw.function_starts || addrs.len() == 0 {
        Some(Seq::empty())
    } else if exists|i: int|
        0 <= i < addrs.len() && (#[trigger] addrs[i]) < ctx.args.sw.pagezero_size {
        None
    } else {
        Some(crate::chunks::function_starts::starts_table(addrs, ctx.args.sw.pagezero_size))
    }
}

/// Builds the LC_FUNCTION_STARTS table: the addresses of all functions,
/// from which debuggers attribute addresses to functions.
pub fn build_function_starts(ctx: &Context) -> (r: Option<Vec<u8>>)
    requires
        ctx.wf(),
    ensures
        match r {
            Some(b) => function_starts_of(*ctx) == Some(b@),
            None => function_starts_of(*ctx) is None,
        },
{
    let empty: Vec<u8> = Vec::new();
    assert(empty@ =~= Seq::empty());
    if !ctx.args.sw.function_starts {
        return Some(empty);
    }
    let x: &Inputs = &ctx.inputs;
    let mut addrs: Vec<u64> = Vec::new();
    assert(addrs@ =~= Seq::empty());
    let mut n: usize = 0;
    while n < x.symtab.syms.len()
        invariant
            ctx.wf(),
            *x == ctx.inputs,
            n <= x.symtab.syms.len(),
            addrs@ == functions_to(*ctx, n as int),
        decreases x.symtab.syms.len() - n,
    {
        let s: &Symbol = &x.symtab.syms[n];
        let from_obj: bool = match s.origin() {
            Origin::Obj(_) => true,
            _ => false,
        };
        if from_obj {
            if let Some(v) = super::stabs::find_home(x, n) {
                if crate::input_files::section_is(x.hdr_of(v), "__TEXT", "__text") {
                    proof {
                        assert(x.sym_ok(x.symtab.syms[n as int]));
                    }
                    addrs.push(bytes::sum64(ctx.isec_addr(s.isec as usize), s.value));
                }
            }
        }
        n += 1;
    }
    if addrs.len() == 0 {
        return Some(empty);
    }
    encode_function_starts(&addrs, ctx.args.sw.pagezero_size)
}

/// The entry of a range of data in code, if it is live: its file offset, its
/// length and its kind.
pub open spec fn dice_of(ctx: Context, o: int, d: (u32, u16, u16)) -> Option<(u64, u64, u64)> {
    let x = ctx.inputs;
    match crate::input_files::subsec_at(x.isecs@, x.objs[o].subsecs@, d.0 as u64) {
        None => None,
        Some(p) => {
            let s = x.isecs[crate::inputs::survivor(x.isecs@, p.0 as int)];
            if s.is_alive && s.osec < ctx.layout.chunks.len() {
                Some(
                    (
                        bytes::word32(
                            ctx.layout.chunks[s.osec as int].hdr.fileoff + s.output_offset + p.1,
                        ) as u64,
                        d.1 as u64,
                        d.2 as u64,
                    ),
                )
            } else {
                None
            }
        },
    }
}

/// The entries of the first `k` ranges of an object.
pub open spec fn obj_dices(ctx: Context, o: int, k: int) -> Seq<(u64, u64, u64)>
    decreases k,
{
    if k <= 0 {
        Seq::empty()
    } else {
        match dice_of(ctx, o, ctx.inputs.objs[o].dice[k - 1]) {
            Some(d) => obj_dices(ctx, o, k - 1).push(d),
            None => obj_dices(ctx, o, k - 1),
        }
    }
}

/// The entries of the first `n` objects, as far as these are live.
pub open spec fn dices_to(ctx: Context, n: int) -> Seq<(u64, u64, u64)>
    decreases n,
{
    if n <= 0 {
        Seq::empty()
    } else if ctx.inputs.objs[n - 1].is_alive {
        dices_to(ctx, n - 1) + obj_dices(ctx, n - 1, ctx.inputs.objs[n - 1].dice.len() as int)
    } else {
        dices_to(ctx, n - 1)
    }
}

/// The LC_DATA_IN_CODE entries of the output, sorted.
pub open spec fn data_in_code_of(ctx: Context) -> Seq<(u64, u64, u64)> {
    let d = dices_to(ctx, ctx.inputs.objs.len() as int);
    order::stable_order_of(d).map_values(|i: usize| d[i as int])
}

/// True when each object's list of subsections is sorted by address.
pub open spec fn subsecs_sorted(x: Inputs) -> bool {
    forall|o: int|
        0 <= o < x.objs.len() ==> crate::input_files::in_address_order(
            crate::input_files::extents(x.isecs@, (#[trigger] x.objs[o]).subsecs@),
        )
}

/// Appends the entries of one object.
fn push_dices(ctx: &Context, o: usize, out: &mut Vec<(u64, u64, u64)>)
    requires
        ctx.wf(),
        subsecs_sorted(ctx.inputs),
        o < ctx.inputs.objs.len(),
    ensures
        final(out)@ == old(out)@ + obj_dices(
            *ctx,
            o as int,
            ctx.inputs.objs[o as int].dice.len() as int,
        ),
{
    let x: &Inputs = &ctx.inputs;
    let ghost start = out@;
    assert(start + Seq::<(u64, u64, u64)>::empty() =~= start);
    proof {
        assert(x.obj_ok(x.objs[o as int]));
        crate::inputs::lemma_wf_redirects(*x);
        let obj = x.objs[o as int];
        assert forall|k: int| 0 <= k < obj.subsecs@.len() implies (#[trigger] obj.subsecs@[k])
            < x.isecs.len() by {
            assert(obj.subsecs[k] < x.isecs.len());
        }
    }
    let mut k: usize = 0;
    while k < x.objs[o].dice.len()
        invariant
            ctx.wf(),
            *x == ctx.inputs,
            o < x.objs.len(),
            subsecs_sorted(*x),
            crate::inputs::redirects_exist(x.isecs@),
            crate::input_files::subsecs_exist(x.isecs@, x.objs[o as int].subsecs@),
            k <= x.objs[o as int].dice.len(),
            out@ == start + obj_dices(*ctx, o as int, k as int),
        decreases x.objs[o as int].dice.len() - k,
    {
        let d: (u32, u16, u16) = x.objs[o].dice[k];
        let ghost a = obj_dices(*ctx, o as int, k as int);
        assert(crate::input_files::in_address_order(
            crate::input_files::extents(x.isecs@, x.objs[o as int].subsecs@),
        ));
        match crate::input_files::find_subsec(
            x.isecs.as_slice(),
            x.objs[o].subsecs.as_slice(),
            d.0 as u64,
        ) {
            None => {},
            Some(p) => {
                let at: usize = crate::inputs::resolve_isec(&x.isecs, p.0);
                let s: &InputSection = &x.isecs[at];
                if s.is_alive && (s.osec as usize) < ctx.layout.chunks.len() {
                    let off: u64 = bytes::sum64(
                        bytes::sum64(
                            ctx.layout.chunks[s.osec as usize].hdr.fileoff,
                            s.output_offset,
                        ),
                        p.1,
                    );
                    proof {
                        let sum = ctx.layout.chunks[s.osec as int].hdr.fileoff + s.output_offset;
                        bytes::lemma_word64_sum(sum, p.1 as int);
                        bytes::lemma_word32_word64(sum + p.1);
                    }
                    let e: (u64, u64, u64) = (bytes::low32(off) as u64, d.1 as u64, d.2 as u64);
                    out.push(e);
                    assert((start + a).push(e) =~= start + a.push(e));
                }
            },
        }
        k += 1;
    }
}

/// Builds the LC_DATA_IN_CODE entries.
pub fn build_data_in_code(ctx: &Context) -> (r: Vec<(u64, u64, u64)>)
    requires
        ctx.wf(),
        subsecs_sorted(ctx.inputs),
    ensures
        r@ == data_in_code_of(*ctx),
{
    let mut out: Vec<(u64, u64, u64)> = Vec::new();
    assert(out@ =~= Seq::empty());
    let mut o: usize = 0;
    while o < ctx.inputs.objs.len()
        invariant
            ctx.wf(),
            subsecs_sorted(ctx.inputs),
            o <= ctx.inputs.objs.len(),
            out@ == dices_to(*ctx, o as int),
        decreases ctx.inputs.objs.len() - o,
    {
        if ctx.inputs.objs[o].is_alive {
            push_dices(ctx, o, &mut out);
        }
        o += 1;
    }
    let at: Vec<usize> = order::stable_order(out.as_slice());
    let mut r: Vec<(u64, u64, u64)> = Vec::new();
    while r.len() < at.len()
        invariant
            r.len() <= at.len(),
            forall|i: int| 0 <= i < at.len() ==> (#[trigger] at[i]) < out.len(),
            forall|i: int| 0 <= i < r.len() ==> #[trigger] r[i] == out[at[i] as int],
        decreases at.len() - r.len(),
    {
        let k: usize = at[r.len()];
        r.push(out[k]);
    }
    assert(r@ =~= data_in_code_of(*ctx));
    r
}

} // verus!
