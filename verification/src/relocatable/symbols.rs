//! The symbol table of a relocatable output.
use crate::arch::Arch;
use crate::context::Context;
use crate::inputs::Inputs;
use crate::macho::consts::{
    N_ABS, N_ALT_ENTRY, N_EXT, N_NO_DEAD_STRIP, N_PEXT, N_SECT, N_SYMBOL_RESOLVER, N_UNDF,
    N_WEAK_DEF, N_WEAK_REF, REFERENCED_DYNAMICALLY,
};
use crate::macho::NList;
use crate::output_chunks::string_table::{Named, NamedView};
use crate::passes::stabs::{find_home, find_ordinal, plan_object_stabs, push_named};
use crate::passes::symtab::sort_by_name;
use crate::symbol::{Origin, Symbol};
use crate::util::bytes;
use vstd::prelude::*;

verus! {

/// A symbol's value in the merged address space.
pub open spec fn sym_value(ctx: Context, id: int) -> u64 {
    let s = ctx.inputs.symtab.syms[id];
    match s.section() {
        Some(i) => bytes::word64(ctx.addr_of_isec(i as int) + s.value),
        None => s.value,
    }
}

fn find_value(ctx: &Context, id: u32) -> (r: u64)
    requires
        ctx.wf(),
        id < ctx.inputs.symtab.syms.len(),
    ensures
        r == sym_value(*ctx, id as int),
{
    let s: &Symbol = &ctx.inputs.symtab.syms[id as usize];
    proof {
        assert(ctx.inputs.sym_ok(ctx.inputs.symtab.syms[id as int]));
    }
    match s.isec() {
        Some(i) => bytes::sum64(ctx.isec_addr(i as usize), s.value),
        None => s.value,
    }
}

/// A stab with the value of its symbol.
pub open spec fn with_value(ctx: Context, e: NamedView) -> NamedView {
    match e.sym {
        Some(id) => NamedView {
            ent: NList { n_value: sym_value(ctx, id as int), ..e.ent },
            ..e
        },
        None => e,
    }
}

/// The stabs of the first `n` objects.
pub open spec fn stabs_to<E: Arch>(ctx: Context, ords: Seq<u8>, cwd: Seq<u8>, n: int) -> Seq<
    NamedView,
>
    decreases n,
{
    if n <= 0 {
        Seq::empty()
    } else {
        stabs_to::<E>(ctx, ords, cwd, n - 1) + crate::passes::stabs::object_stabs(
            ctx.inputs,
            ords,
            n - 1,
            E::info().cpusubtype,
            cwd,
            ctx.args@.oso_prefix,
        )
    }
}

/// All stabs, with the values of their symbols.
pub open spec fn stab_part<E: Arch>(ctx: Context, ords: Seq<u8>, cwd: Seq<u8>) -> Seq<NamedView> {
    if ctx.args.sw.strip_debug {
        Seq::empty()
    } else {
        stabs_to::<E>(ctx, ords, cwd, ctx.inputs.objs.len() as int).map_values(
            |e: NamedView| with_value(ctx, e),
        )
    }
}

/// The entry of an object's `k`th symbol, if it is a local one that is live.
pub open spec fn local_of(ctx: Context, ords: Seq<u8>, o: int, k: int) -> Option<NamedView> {
    let x = ctx.inputs;
    let n = x.objs[o].nlists[k];
    let id = x.objs[o].syms[k];
    let s = x.symtab.syms[id as int];
    match crate::passes::stabs::home(x, s) {
        Some(v) if !n.stab() && !n.external() && s.name.len() > 0 => Some(
            NamedView {
                name: s.name@,
                ent: NList {
                    n_strx: 0,
                    n_type: n.n_type,
                    n_sect: crate::passes::stabs::ordinal(ords, x.isecs[v].osec),
                    n_desc: n.n_desc,
                    n_value: sym_value(ctx, id as int),
                },
                sym: Some(id),
            },
        ),
        _ => None,
    }
}

/// The entry of an object's `k`th symbol, if it is a private external that
/// the object defines: such a symbol becomes a plain local one.
pub open spec fn demoted_of(ctx: Context, ords: Seq<u8>, o: int, k: int) -> Option<NamedView> {
    let x = ctx.inputs;
    let n = x.objs[o].nlists[k];
    let id = x.objs[o].syms[k];
    let s = x.symtab.syms[id as int];
    match crate::passes::stabs::home(x, s) {
        Some(v) if !n.stab() && n.external() && n.private_external() && s.defined_by()
            == Origin::Obj(o as u32) => Some(
            NamedView {
                name: s.name@,
                ent: NList {
                    n_strx: 0,
                    n_type: N_SECT,
                    n_sect: crate::passes::stabs::ordinal(ords, x.isecs[v].osec),
                    n_desc: n.n_desc & (N_ALT_ENTRY | N_NO_DEAD_STRIP),
                    n_value: sym_value(ctx, id as int),
                },
                sym: Some(id),
            },
        ),
        _ => None,
    }
}

/// The chosen entry of an object's `k`th symbol.
pub open spec fn pick(ctx: Context, ords: Seq<u8>, demoted: bool, o: int, k: int) -> Option<
    NamedView,
> {
    if demoted {
        demoted_of(ctx, ords, o, k)
    } else {
        local_of(ctx, ords, o, k)
    }
}

/// The chosen entries of an object's first `k` symbols.
pub open spec fn picked(ctx: Context, ords: Seq<u8>, demoted: bool, o: int, k: int) -> Seq<
    NamedView,
>
    decreases k,
{
    if k <= 0 {
        Seq::empty()
    } else {
        match pick(ctx, ords, demoted, o, k - 1) {
            Some(e) => picked(ctx, ords, demoted, o, k - 1).push(e),
            None => picked(ctx, ords, demoted, o, k - 1),
        }
    }
}

/// The chosen entries of the first `n` objects, as far as these are live.
pub open spec fn picked_to(ctx: Context, ords: Seq<u8>, demoted: bool, n: int) -> Seq<NamedView>
    decreases n,
{
    if n <= 0 {
        Seq::empty()
    } else if ctx.inputs.objs[n - 1].is_alive {
        picked_to(ctx, ords, demoted, n - 1) + picked(
            ctx,
            ords,
            demoted,
            n - 1,
            ctx.inputs.objs[n - 1].nlists.len() as int,
        )
    } else {
        picked_to(ctx, ords, demoted, n - 1)
    }
}

/// True for an entry of object `o` that brought the definition that won.
pub open spec fn is_winner(x: Inputs, o: int, k: int) -> bool {
    let n = x.objs[o].nlists[k];
    let s = x.symtab.syms[x.objs[o].syms[k] as int];
    !n.stab() && n.external() && n.kind() != N_UNDF && s.defined_by() == Origin::Obj(o as u32)
}

/// The descriptions that symbols have in their objects, after the first `k`
/// entries of object `o`.
pub open spec fn obj_descs(x: Inputs, before: Seq<u16>, o: int, k: int) -> Seq<u16>
    decreases k,
{
    if k <= 0 {
        before
    } else {
        let d = obj_descs(x, before, o, k - 1);
        if is_winner(x, o, k - 1) {
            d.update(x.objs[o].syms[k - 1] as int, x.objs[o].nlists[k - 1].n_desc)
        } else {
            d
        }
    }
}

/// The descriptions that symbols have in the first `n` objects.
pub open spec fn descs_to(x: Inputs, n: int) -> Seq<u16>
    decreases n,
{
    if n <= 0 {
        Seq::new(x.symtab.syms@.len(), |i: int| 0u16)
    } else {
        let d = descs_to(x, n - 1);
        if x.objs[n - 1].is_alive {
            obj_descs(x, d, n - 1, x.objs[n - 1].nlists.len() as int)
        } else {
            d
        }
    }
}

/// True for a symbol that the output defines for others.
pub open spec fn is_defined_here(x: Inputs, keep_pext: bool, s: Symbol) -> bool {
    &&& s.flags.is_extern
    &&& (keep_pext || !s.flags.is_private_extern)
    &&& s.defined_by() is Obj
    &&& s.section() is Some ==> crate::passes::stabs::home(x, s) is Some
}

/// True for a symbol that the output leaves to others: undefined, or
/// tentative.
pub open spec fn is_left_open(s: Symbol) -> bool {
    s.flags.is_used && (!s.has_definition() || s.flags.is_common)
}

/// The defined symbols among the first `n`.
pub open spec fn defined_to(x: Inputs, keep_pext: bool, n: int) -> Seq<u32>
    decreases n,
{
    if n <= 0 {
        Seq::empty()
    } else if is_defined_here(x, keep_pext, x.symtab.syms[n - 1]) {
        defined_to(x, keep_pext, n - 1).push((n - 1) as u32)
    } else {
        defined_to(x, keep_pext, n - 1)
    }
}

/// The open symbols among the first `n`.
pub open spec fn open_to(x: Inputs, n: int) -> Seq<u32>
    decreases n,
{
    if n <= 0 {
        Seq::empty()
    } else if is_left_open(x.symtab.syms[n - 1]) {
        open_to(x, n - 1).push((n - 1) as u32)
    } else {
        open_to(x, n - 1)
    }
}

/// The description bits that a defined symbol carries over.
pub open spec fn kept_desc() -> u16 {
    N_WEAK_DEF | N_ALT_ENTRY | N_NO_DEAD_STRIP | N_SYMBOL_RESOLVER | REFERENCED_DYNAMICALLY
}

/// The entry of a defined symbol.
pub open spec fn defined_entry(ctx: Context, ords: Seq<u8>, descs: Seq<u16>, id: u32) -> NamedView {
    let x = ctx.inputs;
    let s = x.symtab.syms[id as int];
    let desc = descs[id as int] & kept_desc();
    NamedView {
        name: s.name@,
        ent: NList {
            n_strx: 0,
            n_type: match s.section() {
                Some(_) => (N_SECT | N_EXT) | (if s.flags.is_private_extern {
                    N_PEXT
                } else {
                    0
                }),
                None => N_ABS | N_EXT,
            },
            n_sect: match s.section() {
                Some(i) => crate::passes::stabs::ordinal(
                    ords,
                    x.isecs[crate::inputs::survivor(x.isecs@, i as int)].osec,
                ),
                None => 0,
            },
            n_desc: if s.flags.is_weak_def {
                desc | N_WEAK_DEF
            } else {
                desc
            },
            n_value: sym_value(ctx, id as int),
        },
        sym: Some(id),
    }
}

/// The entry of an open symbol: a tentative one tells its size and
/// alignment.
pub open spec fn open_entry(x: Inputs, id: u32) -> NamedView {
    let s = x.symtab.syms[id as int];
    NamedView {
        name: s.name@,
        ent: NList {
            n_strx: 0,
            n_type: N_UNDF | N_EXT,
            n_sect: 0,
            n_desc: if s.flags.is_common {
                (s.common_p2align * 256) as u16
            } else if s.flags.is_weak_ref {
                N_WEAK_REF
            } else {
                0
            },
            n_value: if s.flags.is_common {
                s.value
            } else {
                0
            },
        },
        sym: Some(id),
    }
}

/// The defined symbols in the order of their names.
pub open spec fn defined_of(ctx: Context) -> Seq<u32> {
    crate::passes::symtab::by_name(
        ctx.inputs.symtab.syms@,
        defined_to(
            ctx.inputs,
            ctx.args.sw.keep_private_externs,
            ctx.inputs.symtab.syms.len() as int,
        ),
    )
}

/// The open symbols in the order of their names.
pub open spec fn open_of(ctx: Context) -> Seq<u32> {
    crate::passes::symtab::by_name(
        ctx.inputs.symtab.syms@,
        open_to(ctx.inputs, ctx.inputs.symtab.syms.len() as int),
    )
}

/// The local part of the table: stabs, local symbols, and private externals
/// that become local.
pub open spec fn local_part<E: Arch>(ctx: Context, ords: Seq<u8>, cwd: Seq<u8>) -> Seq<NamedView> {
    let n = ctx.inputs.objs.len() as int;
    stab_part::<E>(ctx, ords, cwd) + picked_to(ctx, ords, false, n)
        + if ctx.args.sw.keep_private_externs {
        Seq::empty()
    } else {
        picked_to(ctx, ords, true, n)
    }
}

/// The whole table, before names are placed.
pub open spec fn all_entries<E: Arch>(ctx: Context, ords: Seq<u8>, cwd: Seq<u8>) -> Seq<NamedView> {
    let descs = descs_to(ctx.inputs, ctx.inputs.objs.len() as int);
    local_part::<E>(ctx, ords, cwd) + defined_of(ctx).map_values(
        |id: u32| defined_entry(ctx, ords, descs, id),
    ) + open_of(ctx).map_values(|id: u32| open_entry(ctx.inputs, id))
}

/// The index of each symbol's last entry among those from `from` up to `n`,
/// `u32::MAX` for symbols without one.
pub open spec fn indices_to(nsyms: int, es: Seq<NamedView>, from: int, n: int) -> Seq<u32>
    decreases n - from,
{
    if n <= from {
        Seq::new(nsyms as nat, |i: int| u32::MAX)
    } else {
        let before = indices_to(nsyms, es, from, n - 1);
        match es[n - 1].sym {
            Some(id) => before.update(id as int, (n - 1) as u32),
            None => before,
        }
    }
}

/// The symbol table of a relocatable output.
#[derive(Debug)]
pub struct RelocatableSymbols {
    pub entries: Vec<Named>,
    pub nlocal: usize,
    pub nextdef: usize,
    /// Each symbol's index in the table, `u32::MAX` if absent.
    pub indices: Vec<u32>,
}

/// Appends the stabs, with the values of their symbols.
fn push_stabs<E: Arch>(ctx: &Context, ords: &Vec<u8>, cwd: &[u8]) -> (out: Vec<Named>)
    requires
        ctx.wf(),
    ensures
        crate::output_chunks::string_table::named_views(out@) == stab_part::<E>(
            *ctx,
            ords@,
            cwd@,
        ),
{
    let mut out: Vec<Named> = Vec::new();
    assert(crate::output_chunks::string_table::named_views(out@) =~= Seq::empty());
    if ctx.args.sw.strip_debug {
        return out;
    }
    let x: &Inputs = &ctx.inputs;
    let sub: u32 = E::get_info().cpusubtype;
    let mut o: usize = 0;
    while o < x.objs.len()
        invariant
            x.wf(),
            *x == ctx.inputs,
            sub == E::info().cpusubtype,
            o <= x.objs.len(),
            crate::output_chunks::string_table::named_views(out@) == stabs_to::<E>(
                *ctx,
                ords@,
                cwd@,
                o as int,
            ),
        decreases x.objs.len() - o,
    {
        plan_object_stabs(x, ords, o, sub, cwd, &ctx.args.oso_prefix, &mut out);
        o += 1;
    }
    let ghost raw = crate::output_chunks::string_table::named_views(out@);
    proof {
        lemma_stabs_exist::<E>(*ctx, ords@, cwd@, x.objs.len() as int);
    }
    let ghost want = raw.map_values(|e: NamedView| with_value(*ctx, e));
    let mut i: usize = 0;
    while i < out.len()
        invariant
            ctx.wf(),
            i <= out.len(),
            raw.len() == out.len(),
            want == raw.map_values(|e: NamedView| with_value(*ctx, e)),
            syms_exist(raw, ctx.inputs.symtab.syms.len() as int),
            forall|j: int| i <= j < out.len() ==> (#[trigger] out[j])@ == raw[j],
            forall|j: int| 0 <= j < i ==> (#[trigger] out[j])@ == want[j],
        decreases out.len() - i,
    {
        assert(out[i as int]@ == raw[i as int]);
        if let Some(id) = out[i].sym {
            let v: u64 = find_value(ctx, id);
            set_value(&mut out[i], v);
        }
        assert(out[i as int]@ == want[i as int]);
        i += 1;
    }
    assert(crate::output_chunks::string_table::named_views(out@) =~= want);
    out
}

fn set_value(e: &mut Named, v: u64)
    ensures
        final(e)@ == (NamedView { ent: NList { n_value: v, ..old(e)@.ent }, ..old(e)@ }),
{
    e.ent.n_value = v;
}

/// True for entries of existing symbols.
pub open spec fn syms_exist(es: Seq<NamedView>, n: int) -> bool {
    forall|i: int| 0 <= i < es.len() ==> ((#[trigger] es[i]).sym matches Some(id) ==> id < n)
}

proof fn lemma_symbol_stabs_exist(x: Inputs, ords: Seq<u8>, o: int, k: int)
    requires
        x.wf(),
        0 <= o < x.objs.len(),
        k <= x.objs[o].nlists.len(),
    ensures
        syms_exist(
            crate::passes::stabs::symbols_stabs(x, ords, o, k),
            x.symtab.syms.len() as int,
        ),
    decreases k,
{
    if k > 0 {
        lemma_symbol_stabs_exist(x, ords, o, k - 1);
        assert(x.obj_ok(x.objs[o]));
        assert(x.objs[o].syms[k - 1] < x.symtab.syms.len());
    }
}

proof fn lemma_stabs_exist<E: Arch>(ctx: Context, ords: Seq<u8>, cwd: Seq<u8>, n: int)
    requires
        ctx.inputs.wf(),
        n <= ctx.inputs.objs.len(),
    ensures
        syms_exist(stabs_to::<E>(ctx, ords, cwd, n), ctx.inputs.symtab.syms.len() as int),
    decreases n,
{
    if n > 0 {
        lemma_stabs_exist::<E>(ctx, ords, cwd, n - 1);
        lemma_symbol_stabs_exist(
            ctx.inputs,
            ords,
            n - 1,
            ctx.inputs.objs[n - 1].nlists.len() as int,
        );
    }
}

proof fn lemma_picked_exist(ctx: Context, ords: Seq<u8>, demoted: bool, o: int, k: int)
    requires
        ctx.inputs.wf(),
        0 <= o < ctx.inputs.objs.len(),
        k <= ctx.inputs.objs[o].nlists.len(),
    ensures
        syms_exist(picked(ctx, ords, demoted, o, k), ctx.inputs.symtab.syms.len() as int),
    decreases k,
{
    if k > 0 {
        lemma_picked_exist(ctx, ords, demoted, o, k - 1);
        assert(ctx.inputs.obj_ok(ctx.inputs.objs[o]));
        assert(ctx.inputs.objs[o].syms[k - 1] < ctx.inputs.symtab.syms.len());
    }
}

proof fn lemma_picked_to_exist(ctx: Context, ords: Seq<u8>, demoted: bool, n: int)
    requires
        ctx.inputs.wf(),
        n <= ctx.inputs.objs.len(),
    ensures
        syms_exist(picked_to(ctx, ords, demoted, n), ctx.inputs.symtab.syms.len() as int),
    decreases n,
{
    if n > 0 {
        lemma_picked_to_exist(ctx, ords, demoted, n - 1);
        lemma_picked_exist(
            ctx,
            ords,
            demoted,
            n - 1,
            ctx.inputs.objs[n - 1].nlists.len() as int,
        );
    }
}

proof fn lemma_local_part_exists<E: Arch>(ctx: Context, ords: Seq<u8>, cwd: Seq<u8>)
    requires
        ctx.inputs.wf(),
    ensures
        syms_exist(local_part::<E>(ctx, ords, cwd), ctx.inputs.symtab.syms.len() as int),
{
    let n = ctx.inputs.objs.len() as int;
    lemma_stabs_exist::<E>(ctx, ords, cwd, n);
    lemma_picked_to_exist(ctx, ords, false, n);
    lemma_picked_to_exist(ctx, ords, true, n);
    let a = stabs_to::<E>(ctx, ords, cwd, n);
    let p = stab_part::<E>(ctx, ords, cwd);
    assert forall|i: int| 0 <= i < p.len() implies ((#[trigger] p[i]).sym matches Some(id) ==> id
        < ctx.inputs.symtab.syms.len()) by {
        assert(p[i] == with_value(ctx, a[i]));
        assert(a[i].sym == p[i].sym);
    }
}

/// Appends the chosen entries of one object.
fn push_picked(ctx: &Context, ords: &Vec<u8>, demoted: bool, o: usize, out: &mut Vec<Named>)
    requires
        ctx.wf(),
        o < ctx.inputs.objs.len(),
    ensures
        crate::output_chunks::string_table::named_views(final(out)@)
            == crate::output_chunks::string_table::named_views(old(out)@) + picked(
            *ctx,
            ords@,
            demoted,
            o as int,
            ctx.inputs.objs[o as int].nlists.len() as int,
        ),
{
    let x: &Inputs = &ctx.inputs;
    let ghost start = crate::output_chunks::string_table::named_views(out@);
    let mut k: usize = 0;
    assert(start + Seq::<NamedView>::empty() =~= start);
    while k < x.objs[o].nlists.len()
        invariant
            ctx.wf(),
            *x == ctx.inputs,
            o < x.objs.len(),
            k <= x.objs[o as int].nlists.len(),
            crate::output_chunks::string_table::named_views(out@) == start + picked(
                *ctx,
                ords@,
                demoted,
                o as int,
                k as int,
            ),
        decreases x.objs[o as int].nlists.len() - k,
    {
        proof {
            assert(x.obj_ok(x.objs[o as int]));
        }
        let n: NList = x.objs[o].nlists[k];
        let id: u32 = x.objs[o].syms[k];
        let s: &Symbol = &x.symtab.syms[id as usize];
        let own: bool = match s.origin() {
            Origin::Obj(i) => i as usize == o,
            _ => false,
        };
        let wanted: bool = if demoted {
            !n.is_stab() && n.is_extern() && n.is_private_extern() && own
        } else {
            !n.is_stab() && !n.is_extern() && s.name.len() > 0
        };
        let ghost a = picked(*ctx, ords@, demoted, o as int, k as int);
        if wanted {
            if let Some(v) = find_home(x, id as usize) {
                let ent = NList {
                    n_strx: 0,
                    n_type: if demoted {
                        N_SECT
                    } else {
                        n.n_type
                    },
                    n_sect: find_ordinal(ords, x.isecs[v].osec),
                    n_desc: if demoted {
                        n.n_desc & (N_ALT_ENTRY | N_NO_DEAD_STRIP)
                    } else {
                        n.n_desc
                    },
                    n_value: find_value(ctx, id),
                };
                push_named(out, s.name(), ent, Some(id));
                let ghost e = NamedView { name: s.name@, ent, sym: Some(id) };
                assert(pick(*ctx, ords@, demoted, o as int, k as int) == Some(e));
                assert((start + a).push(e) =~= start + a.push(e));
            }
        }
        k += 1;
    }
}

/// Appends the chosen entries of all live objects.
fn push_all_picked(ctx: &Context, ords: &Vec<u8>, demoted: bool, out: &mut Vec<Named>)
    requires
        ctx.wf(),
    ensures
        crate::output_chunks::string_table::named_views(final(out)@)
            == crate::output_chunks::string_table::named_views(old(out)@) + picked_to(
            *ctx,
            ords@,
            demoted,
            ctx.inputs.objs.len() as int,
        ),
{
    let ghost start = crate::output_chunks::string_table::named_views(out@);
    let mut o: usize = 0;
    assert(start + Seq::<NamedView>::empty() =~= start);
    while o < ctx.inputs.objs.len()
        invariant
            ctx.wf(),
            o <= ctx.inputs.objs.len(),
            crate::output_chunks::string_table::named_views(out@) == start + picked_to(
                *ctx,
                ords@,
                demoted,
                o as int,
            ),
        decreases ctx.inputs.objs.len() - o,
    {
        if ctx.inputs.objs[o].is_alive {
            let ghost a = picked_to(*ctx, ords@, demoted, o as int);
            let ghost b = picked(
                *ctx,
                ords@,
                demoted,
                o as int,
                ctx.inputs.objs[o as int].nlists.len() as int,
            );
            push_picked(ctx, ords, demoted, o, out);
            assert((start + a) + b =~= start + (a + b));
        }
        o += 1;
    }
}

/// Lists the descriptions that symbols have in their objects.
fn list_descs(x: &Inputs) -> (d: Vec<u16>)
    requires
        x.wf(),
    ensures
        d@ == descs_to(*x, x.objs.len() as int),
        d.len() == x.symtab.syms.len(),
{
    let nsyms: usize = x.symtab.syms.len();
    let mut d: Vec<u16> = Vec::new();
    while d.len() < nsyms
        invariant
            d.len() <= nsyms,
            forall|i: int| 0 <= i < d.len() ==> #[trigger] d[i] == 0,
        decreases nsyms - d.len(),
    {
        d.push(0);
    }
    assert(d@ =~= descs_to(*x, 0));
    let mut o: usize = 0;
    while o < x.objs.len()
        invariant
            x.wf(),
            o <= x.objs.len(),
            d.len() == x.symtab.syms.len(),
            d@ == descs_to(*x, o as int),
        decreases x.objs.len() - o,
    {
        if x.objs[o].is_alive {
            let ghost before = d@;
            let mut k: usize = 0;
            while k < x.objs[o].nlists.len()
                invariant
                    x.wf(),
                    o < x.objs.len(),
                    k <= x.objs[o as int].nlists.len(),
                    d.len() == x.symtab.syms.len(),
                    d@ == obj_descs(*x, before, o as int, k as int),
                decreases x.objs[o as int].nlists.len() - k,
            {
                proof {
                    assert(x.obj_ok(x.objs[o as int]));
                }
                let n: &NList = &x.objs[o].nlists[k];
                let id: u32 = x.objs[o].syms[k];
                let own: bool = match x.symtab.syms[id as usize].origin() {
                    Origin::Obj(i) => i as usize == o,
                    _ => false,
                };
                if !n.is_stab() && n.is_extern() && n.n_type() != N_UNDF && own {
                    d.set(id as usize, n.n_desc);
                }
                k += 1;
            }
        }
        o += 1;
    }
    d
}

/// Lists the defined symbols in the order of their names.
fn list_defined(ctx: &Context) -> (r: Vec<u32>)
    requires
        ctx.wf(),
    ensures
        r@ == defined_of(*ctx),
        forall|i: int| 0 <= i < r.len() ==> (#[trigger] r[i]) < ctx.inputs.symtab.syms.len(),
{
    let x: &Inputs = &ctx.inputs;
    let keep: bool = ctx.args.sw.keep_private_externs;
    let mut ids: Vec<u32> = Vec::new();
    let mut n: usize = 0;
    while n < x.symtab.syms.len()
        invariant
            x.wf(),
            n <= x.symtab.syms.len(),
            ids@ == defined_to(*x, keep, n as int),
            forall|i: int| 0 <= i < ids.len() ==> (#[trigger] ids[i]) < x.symtab.syms.len(),
        decreases x.symtab.syms.len() - n,
    {
        let s: &Symbol = &x.symtab.syms[n];
        let from_obj: bool = match s.origin() {
            Origin::Obj(_) => true,
            _ => false,
        };
        if s.flags.is_extern && (keep || !s.flags.is_private_extern) && from_obj {
            let dead: bool = s.isec().is_some() && find_home(x, n).is_none();
            if !dead {
                ids.push(n as u32);
            }
        }
        n += 1;
    }
    sort_by_name(&x.symtab.syms, &ids)
}

/// Lists the open symbols in the order of their names.
fn list_open(ctx: &Context) -> (r: Vec<u32>)
    requires
        ctx.wf(),
    ensures
        r@ == open_of(*ctx),
        forall|i: int| 0 <= i < r.len() ==> (#[trigger] r[i]) < ctx.inputs.symtab.syms.len(),
{
    let x: &Inputs = &ctx.inputs;
    let mut ids: Vec<u32> = Vec::new();
    let mut n: usize = 0;
    while n < x.symtab.syms.len()
        invariant
            x.wf(),
            n <= x.symtab.syms.len(),
            ids@ == open_to(*x, n as int),
            forall|i: int| 0 <= i < ids.len() ==> (#[trigger] ids[i]) < x.symtab.syms.len(),
        decreases x.symtab.syms.len() - n,
    {
        let s: &Symbol = &x.symtab.syms[n];
        if s.flags.is_used && (!s.is_defined() || s.flags.is_common) {
            ids.push(n as u32);
        }
        n += 1;
    }
    sort_by_name(&x.symtab.syms, &ids)
}

/// Appends the entries of the defined symbols.
fn push_defined(
    ctx: &Context,
    ords: &Vec<u8>,
    descs: &Vec<u16>,
    ids: &Vec<u32>,
    out: &mut Vec<Named>,
)
    requires
        ctx.wf(),
        descs.len() == ctx.inputs.symtab.syms.len(),
        forall|i: int| 0 <= i < ids.len() ==> (#[trigger] ids[i]) < ctx.inputs.symtab.syms.len(),
    ensures
        crate::output_chunks::string_table::named_views(final(out)@)
            == crate::output_chunks::string_table::named_views(old(out)@) + ids@.map_values(
            |id: u32| defined_entry(*ctx, ords@, descs@, id),
        ),
{
    let x: &Inputs = &ctx.inputs;
    let ghost start = crate::output_chunks::string_table::named_views(out@);
    let ghost v = ids@.map_values(|id: u32| defined_entry(*ctx, ords@, descs@, id));
    let mut i: usize = 0;
    assert(start + v.take(0) =~= start);
    while i < ids.len()
        invariant
            ctx.wf(),
            *x == ctx.inputs,
            i <= ids.len(),
            descs.len() == ctx.inputs.symtab.syms.len(),
            forall|i: int|
                0 <= i < ids.len() ==> (#[trigger] ids[i]) < ctx.inputs.symtab.syms.len(),
            v == ids@.map_values(|id: u32| defined_entry(*ctx, ords@, descs@, id)),
            crate::output_chunks::string_table::named_views(out@) == start + v.take(i as int),
        decreases ids.len() - i,
    {
        let id: u32 = ids[i];
        let s: &Symbol = &x.symtab.syms[id as usize];
        proof {
            crate::inputs::lemma_wf_redirects(*x);
            assert(x.sym_ok(x.symtab.syms[id as int]));
        }
        let pext: u8 = if s.flags.is_private_extern {
            N_PEXT
        } else {
            0
        };
        let desc: u16 = descs[id as usize] & (N_WEAK_DEF | N_ALT_ENTRY | N_NO_DEAD_STRIP
            | N_SYMBOL_RESOLVER | REFERENCED_DYNAMICALLY);
        let (n_type, n_sect): (u8, u8) = match s.isec() {
            Some(k) => {
                let home: usize = crate::inputs::resolve_isec(&x.isecs, k as usize);
                ((N_SECT | N_EXT) | pext, find_ordinal(ords, x.isecs[home].osec))
            },
            None => (N_ABS | N_EXT, 0),
        };
        let ent = NList {
            n_strx: 0,
            n_type,
            n_sect,
            n_desc: if s.flags.is_weak_def {
                desc | N_WEAK_DEF
            } else {
                desc
            },
            n_value: find_value(ctx, id),
        };
        push_named(out, s.name(), ent, Some(id));
        assert(v[i as int] == defined_entry(*ctx, ords@, descs@, id));
        assert(start + v.take(i + 1) =~= (start + v.take(i as int)).push(v[i as int]));
        i += 1;
    }
    assert(v.take(i as int) =~= v);
}

/// Appends the entries of the open symbols.
fn push_open(x: &Inputs, ids: &Vec<u32>, out: &mut Vec<Named>)
    requires
        forall|i: int| 0 <= i < ids.len() ==> (#[trigger] ids[i]) < x.symtab.syms.len(),
    ensures
        crate::output_chunks::string_table::named_views(final(out)@)
            == crate::output_chunks::string_table::named_views(old(out)@) + ids@.map_values(
            |id: u32| open_entry(*x, id),
        ),
{
    let ghost start = crate::output_chunks::string_table::named_views(out@);
    let ghost v = ids@.map_values(|id: u32| open_entry(*x, id));
    let mut i: usize = 0;
    assert(start + v.take(0) =~= start);
    while i < ids.len()
        invariant
            i <= ids.len(),
            forall|i: int| 0 <= i < ids.len() ==> (#[trigger] ids[i]) < x.symtab.syms.len(),
            v == ids@.map_values(|id: u32| open_entry(*x, id)),
            crate::output_chunks::string_table::named_views(out@) == start + v.take(i as int),
        decreases ids.len() - i,
    {
        let id: u32 = ids[i];
        let s: &Symbol = &x.symtab.syms[id as usize];
        let common: bool = s.flags.is_common;
        let ent = NList {
            n_strx: 0,
            n_type: N_UNDF | N_EXT,
            n_sect: 0,
            n_desc: if common {
                s.common_p2align as u16 * 256
            } else if s.flags.is_weak_ref {
                N_WEAK_REF
            } else {
                0
            },
            n_value: if common {
                s.value
            } else {
                0
            },
        };
        push_named(out, s.name(), ent, Some(id));
        assert(v[i as int] == open_entry(*x, id));
        assert(start + v.take(i + 1) =~= (start + v.take(i as int)).push(v[i as int]));
        i += 1;
    }
    assert(v.take(i as int) =~= v);
}

/// Builds the symbol table: debug notes and locals per object, then defined
/// externals, then open symbols, with each symbol's index. `None` when an
/// index does not fit in 32 bits.
pub fn build_symbols<E: Arch>(ctx: &Context, ords: &Vec<u8>, cwd: &[u8]) -> (r: Option<
    RelocatableSymbols,
>)
    requires
        ctx.wf(),
    ensures
        ({
            let es = all_entries::<E>(*ctx, ords@, cwd@);
            match r {
                Some(t) => {
                    &&& es.len() <= u32::MAX
                    &&& crate::output_chunks::string_table::named_views(t.entries@) == es
                    &&& t.nlocal == local_part::<E>(*ctx, ords@, cwd@).len()
                    &&& t.nextdef == defined_of(*ctx).len()
                    &&& t.indices@ == indices_to(
                        ctx.inputs.symtab.syms.len() as int,
                        es,
                        stab_part::<E>(*ctx, ords@, cwd@).len() as int,
                        es.len() as int,
                    )
                    &&& t.indices.len() == ctx.inputs.symtab.syms.len()
                },
                None => es.len() > u32::MAX,
            }
        }),
{
    let mut es: Vec<Named> = push_stabs::<E>(ctx, ords, cwd);
    let nstabs: usize = es.len();
    push_all_picked(ctx, ords, false, &mut es);
    let ghost p1 = crate::output_chunks::string_table::named_views(es@);
    assert(p1 + Seq::<NamedView>::empty() =~= p1);
    if !ctx.args.sw.keep_private_externs {
        push_all_picked(ctx, ords, true, &mut es);
    }
    assert(crate::output_chunks::string_table::named_views(es@) == local_part::<E>(
        *ctx,
        ords@,
        cwd@,
    ));
    let nlocal: usize = es.len();
    let descs: Vec<u16> = list_descs(&ctx.inputs);
    let defined: Vec<u32> = list_defined(ctx);
    push_defined(ctx, ords, &descs, &defined, &mut es);
    let open: Vec<u32> = list_open(ctx);
    push_open(&ctx.inputs, &open, &mut es);
    let ghost all = all_entries::<E>(*ctx, ords@, cwd@);
    assert(crate::output_chunks::string_table::named_views(es@) == all);
    assert(es@.len() == all.len());
    if es.len() > u32::MAX as usize {
        return None;
    }
    proof {
        lemma_local_part_exists::<E>(*ctx, ords@, cwd@);
        let n = ctx.inputs.symtab.syms.len() as int;
        let l = local_part::<E>(*ctx, ords@, cwd@);
        let d = defined@.map_values(|id: u32| defined_entry(*ctx, ords@, descs@, id));
        let o = open@.map_values(|id: u32| open_entry(ctx.inputs, id));
        assert(all == l + d + o);
        assert(syms_exist(all, n));
    }
    let nsyms: usize = ctx.inputs.symtab.syms.len();
    let mut indices: Vec<u32> = Vec::new();
    while indices.len() < nsyms
        invariant
            indices.len() <= nsyms,
            forall|i: int| 0 <= i < indices.len() ==> #[trigger] indices[i] == u32::MAX,
        decreases nsyms - indices.len(),
    {
        indices.push(u32::MAX);
    }
    assert(indices@ =~= indices_to(nsyms as int, all, nstabs as int, nstabs as int));
    let mut i: usize = nstabs;
    while i < es.len()
        invariant
            nstabs <= i <= es.len(),
            es.len() <= u32::MAX,
            indices.len() == nsyms,
            all == crate::output_chunks::string_table::named_views(es@),
            syms_exist(all, nsyms as int),
            indices@ == indices_to(nsyms as int, all, nstabs as int, i as int),
        decreases es.len() - i,
    {
        assert(all[i as int] == es[i as int]@);
        if let Some(id) = es[i].sym {
            indices.set(id as usize, i as u32);
        }
        i += 1;
    }
    Some(RelocatableSymbols { entries: es, nlocal, nextdef: defined.len(), indices })
}

} // verus!
