//! Drops the libraries that nothing binds to.
use crate::args::Args;
use crate::context::Context;
use crate::input_files::DylibFile;
use crate::input_sections::UNSET;
use crate::inputs::Inputs;
use crate::symbol::{Origin, Symbol, SymbolTable};
use crate::util::lists;
use vstd::prelude::*;

verus! {

/// True when a library may be dropped: with -dead_strip_dylibs, or when it
/// asks for it.
pub open spec fn strippable(args: Args, d: DylibFile) -> bool {
    args.sw.dead_strip_dylibs || d.is_dead_strippable
}

/// True when a symbol binds to a library.
pub open spec fn binds_to(s: Symbol, d: int) -> bool {
    s.defined_by() == Origin::Dylib(d as u32)
}

/// True when one of the first `n` symbols binds to a library.
pub open spec fn is_bound(syms: Seq<Symbol>, d: int, n: int) -> bool {
    exists|i: int| 0 <= i < n && binds_to(#[trigger] syms[i], d)
}

/// Which libraries stay: those that are needed or may not be dropped, and
/// those that symbols bind to.
pub open spec fn staying(ctx: Context) -> Seq<bool> {
    Seq::new(
        ctx.dylibs@.len(),
        |d: int|
            {
                ||| ctx.dylibs[d].is_needed
                ||| !strippable(ctx.args, ctx.dylibs[d])
                ||| is_bound(
                    ctx.inputs.symtab.syms@,
                    d,
                    ctx.inputs.symtab.syms.len() as int,
                )
            },
    )
}

/// The libraries that stay, with their new ordinals.
pub open spec fn renumbered(dylibs: Seq<DylibFile>, keep: Seq<bool>) -> Seq<DylibFile> {
    lists::kept(dylibs, keep).map(
        |i: int, d: DylibFile| DylibFile { dylib_idx: (i + 1) as i32, ..d },
    )
}

/// A symbol that binds to the same library under its new index.
pub open spec fn rebound(s: Symbol, keep: Seq<bool>) -> Symbol {
    match s.defined_by() {
        Origin::Dylib(d) => if d == UNSET {
            s
        } else {
            s.with_origin(Origin::Dylib(lists::count_kept(keep, d as int) as u32))
        },
        _ => s,
    }
}

/// True when some library may be dropped.
pub open spec fn any_strippable(ctx: Context) -> bool {
    exists|d: int|
        0 <= d < ctx.dylibs.len() && strippable(ctx.args, #[trigger] ctx.dylibs[d])
}

/// True when the libraries that symbols bind to exist.
pub open spec fn bindings_exist(ctx: Context) -> bool {
    forall|i: int|
        0 <= i < ctx.inputs.symtab.syms.len() ==> ctx.sym_ok(#[trigger] ctx.inputs.symtab.syms[i])
}

fn find_strippable(ctx: &Context) -> (r: bool)
    ensures
        r == any_strippable(*ctx),
{
    let mut d: usize = 0;
    while d < ctx.dylibs.len()
        invariant
            d <= ctx.dylibs.len(),
            forall|k: int| 0 <= k < d ==> !strippable(ctx.args, #[trigger] ctx.dylibs[k]),
        decreases ctx.dylibs.len() - d,
    {
        if ctx.args.sw.dead_strip_dylibs || ctx.dylibs[d].is_dead_strippable {
            assert(strippable(ctx.args, ctx.dylibs[d as int]));
            return true;
        }
        d += 1;
    }
    false
}

fn list_staying(ctx: &Context) -> (keep: Vec<bool>)
    requires
        bindings_exist(*ctx),
        ctx.dylibs.len() < UNSET,
    ensures
        keep@ == staying(*ctx),
{
    let ghost syms = ctx.inputs.symtab.syms@;
    let mut keep: Vec<bool> = Vec::new();
    while keep.len() < ctx.dylibs.len()
        invariant
            keep.len() <= ctx.dylibs.len(),
            forall|d: int|
                0 <= d < keep.len() ==> #[trigger] keep[d] == (ctx.dylibs[d].is_needed
                    || !strippable(ctx.args, ctx.dylibs[d])),
        decreases ctx.dylibs.len() - keep.len(),
    {
        let d: &DylibFile = &ctx.dylibs[keep.len()];
        let k: bool = d.is_needed || !(ctx.args.sw.dead_strip_dylibs || d.is_dead_strippable);
        keep.push(k);
    }
    let mut n: usize = 0;
    while n < ctx.inputs.symtab.syms.len()
        invariant
            n <= ctx.inputs.symtab.syms.len(),
            syms == ctx.inputs.symtab.syms@,
            bindings_exist(*ctx),
            ctx.dylibs.len() < UNSET,
            keep.len() == ctx.dylibs.len(),
            forall|d: int|
                0 <= d < keep.len() ==> #[trigger] keep[d] == (ctx.dylibs[d].is_needed
                    || !strippable(ctx.args, ctx.dylibs[d]) || is_bound(syms, d, n as int)),
        decreases ctx.inputs.symtab.syms.len() - n,
    {
        let ghost before = keep@;
        let s: &Symbol = &ctx.inputs.symtab.syms[n];
        assert(ctx.sym_ok(*s));
        if let Origin::Dylib(d) = s.origin() {
            if d != UNSET {
                keep.set(d as usize, true);
            }
        }
        proof {
            assert forall|d: int| 0 <= d < keep.len() implies #[trigger] keep[d] == (
            ctx.dylibs[d].is_needed || !strippable(ctx.args, ctx.dylibs[d]) || is_bound(
                syms,
                d,
                n + 1,
            )) by {
                assert(before[d] == (ctx.dylibs[d].is_needed || !strippable(
                    ctx.args,
                    ctx.dylibs[d],
                ) || is_bound(syms, d, n as int)));
                if is_bound(syms, d, n as int) {
                    let i = choose|i: int| 0 <= i < n && binds_to(#[trigger] syms[i], d);
                    assert(binds_to(syms[i], d));
                }
                if is_bound(syms, d, n + 1) {
                    let i = choose|i: int| 0 <= i < n + 1 && binds_to(#[trigger] syms[i], d);
                    if i < n {
                        assert(is_bound(syms, d, n as int));
                    }
                }
                if binds_to(syms[n as int], d) {
                    assert(is_bound(syms, d, n + 1));
                }
            }
        }
        n += 1;
    }
    assert(keep@ =~= staying(*ctx));
    keep
}

/// A library that a symbol binds to stays.
proof fn lemma_bound_stays(ctx: Context, i: int)
    requires
        bindings_exist(ctx),
        ctx.dylibs.len() < UNSET,
        0 <= i < ctx.inputs.symtab.syms.len(),
    ensures
        ctx.inputs.symtab.syms[i].defined_by() matches Origin::Dylib(d) ==> d == UNSET || (d
            < ctx.dylibs.len() && staying(ctx)[d as int]),
{
    let s = ctx.inputs.symtab.syms[i];
    assert(ctx.sym_ok(s));
    if let Origin::Dylib(d) = s.defined_by() {
        assert(binds_to(ctx.inputs.symtab.syms@[i], d as int));
    }
}

/// What the context is once unused libraries were dropped.
pub open spec fn stripped(before: Context, ctx: Context) -> bool {
    let keep = staying(before);
    &&& ctx == (Context {
        dylibs: ctx.dylibs,
        inputs: (Inputs {
            symtab: (SymbolTable { syms: ctx.inputs.symtab.syms, ..before.inputs.symtab }),
            ..before.inputs
        }),
        ..before
    })
    &&& ctx.dylibs@ == renumbered(before.dylibs@, keep)
    &&& ctx.inputs.symtab.syms@ == before.inputs.symtab.syms@.map_values(
        |s: Symbol| rebound(s, keep),
    )
}

/// Drops the load commands of libraries that no symbol binds to, where that
/// is asked for. Bind records name libraries by their ordinals, so that the
/// others are renumbered.
pub fn dead_strip_dylibs(ctx: &mut Context)
    requires
        bindings_exist(*old(ctx)),
        old(ctx).dylibs.len() < i32::MAX,
    ensures
        !any_strippable(*old(ctx)) ==> *final(ctx) == *old(ctx),
        any_strippable(*old(ctx)) ==> stripped(*old(ctx), *final(ctx)),
        bindings_exist(*final(ctx)),
        super::slots::ready(*old(ctx)) ==> super::slots::ready(*final(ctx)),
        old(ctx).inputs.symtab.wf() ==> final(ctx).inputs.symtab.wf(),
{
    if !find_strippable(ctx) {
        return ;
    }
    let ghost start = *ctx;
    let keep: Vec<bool> = list_staying(ctx);
    let ghost kv = keep@;
    let at: Vec<usize> = lists::count_all(&keep);
    lists::retain(&mut ctx.dylibs, &keep);
    let ghost left = ctx.dylibs@;
    proof {
        lists::lemma_kept(start.dylibs@, kv, start.dylibs.len() as int);
        assert(left.len() <= start.dylibs.len()) by {
            if start.dylibs.len() > 0 {
                lists::lemma_count_kept(kv, start.dylibs.len() - 1);
            }
        }
    }
    let mut d: usize = 0;
    while d < ctx.dylibs.len()
        invariant
            d <= ctx.dylibs.len(),
            ctx.dylibs.len() == left.len(),
            left.len() < i32::MAX,
            forall|k: int|
                0 <= k < d ==> #[trigger] ctx.dylibs[k] == (DylibFile {
                    dylib_idx: (k + 1) as i32,
                    ..left[k]
                }),
            forall|k: int| d <= k < ctx.dylibs.len() ==> #[trigger] ctx.dylibs[k] == left[k],
            *ctx == (Context { dylibs: ctx.dylibs, ..start }),
        decreases ctx.dylibs.len() - d,
    {
        ctx.dylibs[d].dylib_idx = (d + 1) as i32;
        d += 1;
    }
    assert(ctx.dylibs@ =~= renumbered(start.dylibs@, kv));
    let ghost syms = start.inputs.symtab.syms@;
    let mut n: usize = 0;
    while n < ctx.inputs.symtab.syms.len()
        invariant
            n <= ctx.inputs.symtab.syms.len(),
            ctx.inputs.symtab.syms.len() == syms.len(),
            syms == start.inputs.symtab.syms@,
            bindings_exist(start),
            start.dylibs.len() < i32::MAX,
            kv == staying(start),
            at.len() == start.dylibs.len(),
            forall|k: int| 0 <= k < at.len() ==> #[trigger] at[k] == lists::count_kept(kv, k),
            ctx.dylibs@ == renumbered(start.dylibs@, kv),
            *ctx == (Context {
                dylibs: ctx.dylibs,
                inputs: (Inputs {
                    symtab: (SymbolTable {
                        syms: ctx.inputs.symtab.syms,
                        ..start.inputs.symtab
                    }),
                    ..start.inputs
                }),
                ..start
            }),
            forall|i: int|
                0 <= i < n ==> #[trigger] ctx.inputs.symtab.syms[i] == rebound(syms[i], kv),
            forall|i: int|
                n <= i < syms.len() ==> #[trigger] ctx.inputs.symtab.syms[i] == syms[i],
        decreases ctx.inputs.symtab.syms.len() - n,
    {
        assert(ctx.inputs.symtab.syms[n as int] == syms[n as int]);
        proof {
            lemma_bound_stays(start, n as int);
        }
        if let Origin::Dylib(d) = ctx.inputs.symtab.syms[n].origin() {
            if d != UNSET {
                proof {
                    lists::lemma_count_kept(kv, d as int);
                }
                let to: u32 = at[d as usize] as u32;
                ctx.inputs.symtab.syms[n].set_origin(Origin::Dylib(to));
            }
        }
        n += 1;
    }
    assert(ctx.inputs.symtab.syms@ =~= syms.map_values(|s: Symbol| rebound(s, kv)));
    proof {
        lemma_stripped(start, *ctx);
    }
}

/// The symbols of a context whose unused libraries were dropped refer to
/// what exists.
proof fn lemma_stripped(a: Context, b: Context)
    requires
        bindings_exist(a),
        a.dylibs.len() < i32::MAX,
        stripped(a, b),
    ensures
        bindings_exist(b),
        super::slots::ready(a) ==> super::slots::ready(b),
        a.inputs.symtab.wf() ==> b.inputs.symtab.wf(),
{
    let kv = staying(a);
    let sa = a.inputs.symtab.syms;
    let sb = b.inputs.symtab.syms;
    lists::lemma_kept(a.dylibs@, kv, a.dylibs.len() as int);
    assert forall|i: int| 0 <= i < sb.len() implies {
        &&& b.sym_ok(#[trigger] sb[i])
        &&& sb[i].aux_idx == sa[i].aux_idx
        &&& sb[i].isec == sa[i].isec
        &&& sb[i].name == sa[i].name
    } by {
        lemma_bound_stays(a, i);
        assert(a.sym_ok(sa[i]));
        assert(sb@[i] == rebound(sa@[i], kv));
        if let Origin::Dylib(d) = sa[i].defined_by() {
            if d != UNSET {
                lists::lemma_count_kept(kv, d as int);
            }
        }
    }
    if a.inputs.symtab.wf() {
        crate::symbol::lemma_names_kept(a.inputs.symtab, b.inputs.symtab);
    }
    if super::slots::ready(a) {
        assert forall|i: int| 0 <= i < a.inputs.isecs.len() implies crate::inputs::same_part(
            a.inputs.isecs[i],
            #[trigger] b.inputs.isecs[i],
        ) && (b.inputs.isecs[i].replacement == crate::input_sections::NO_REPLACEMENT
            || b.inputs.isecs[i].replacement < b.inputs.isecs.len()) by {
            assert(a.inputs.isec_ok(a.inputs.isecs[i]));
        }
        assert forall|i: int| 0 <= i < sb.len() implies b.inputs.sym_ok(#[trigger] sb[i]) by {
            assert(a.inputs.sym_ok(sa[i]));
        }
        crate::inputs::lemma_wf_grown(a.inputs, b.inputs);
        lemma_same_aux(sa@, sb@, sb.len() as int);
        assert forall|i: int| 0 <= i < sb.len() implies #[trigger] b.slots_of(i) == a.slots_of(
            i,
        ) by {
            assert(sb[i].aux_idx == sa[i].aux_idx);
        }
        assert forall|k: super::slots::SlotKind, i: int|
            0 <= i < sb.len() implies #[trigger] super::slots::slot_idx(b, k, i)
            == super::slots::slot_idx(a, k, i) by {
            assert(b.slots_of(i) == a.slots_of(i));
        }
        assert(super::slots::numbered(a, super::slots::SlotKind::Stub));
        assert(super::slots::numbered(a, super::slots::SlotKind::Got));
        assert(super::slots::numbered(a, super::slots::SlotKind::ThreadPtr));
        assert forall|k: super::slots::SlotKind| super::slots::numbered(
            a,
            k,
        ) implies #[trigger] super::slots::numbered(b, k) by {
            let l = super::slots::slot_list(b, k);
            assert forall|j: int| 0 <= j < l.len() implies (#[trigger] l[j]) < sb.len()
                && super::slots::slot_idx(b, k, l[j] as int) == j by {
                assert(super::slots::slot_idx(a, k, l[j] as int) == j);
            }
        }
        assert(super::slots::objc_numbered(b));
        assert forall|x: int, y: int|
            0 <= x < y < sb.len() && (#[trigger] sb[x]).aux_idx
                != crate::symbol::NONE implies sb[x].aux_idx != (#[trigger] sb[y]).aux_idx by {
            assert(sa[x].aux_idx != sa[y].aux_idx);
        }
    }
}

proof fn lemma_same_aux(a: Seq<Symbol>, b: Seq<Symbol>, n: int)
    requires
        0 <= n <= a.len(),
        a.len() == b.len(),
        forall|i: int| 0 <= i < b.len() ==> (#[trigger] b[i]).aux_idx == a[i].aux_idx,
    ensures
        super::slots::aux_count(a, n) == super::slots::aux_count(b, n),
    decreases n,
{
    if n > 0 {
        lemma_same_aux(a, b, n - 1);
    }
}

/// Dropping libraries changes no binding: a symbol binds to the same
/// library as before, whose ordinal is one more than its new index.
pub proof fn lemma_bindings_kept(a: Context, b: Context, i: int, d: u32)
    requires
        bindings_exist(a),
        a.dylibs.len() < i32::MAX,
        stripped(a, b),
        0 <= i < a.inputs.symtab.syms.len(),
        a.inputs.symtab.syms[i].defined_by() == Origin::Dylib(d),
        d != UNSET,
    ensures
        b.inputs.symtab.syms[i].defined_by() matches Origin::Dylib(e) && e < b.dylibs.len()
            && b.dylibs[e as int] == (DylibFile { dylib_idx: (e + 1) as i32, ..a.dylibs[d as int]
        }),
{
    let kv = staying(a);
    lemma_bound_stays(a, i);
    lists::lemma_kept(a.dylibs@, kv, a.dylibs.len() as int);
    lists::lemma_count_kept(kv, d as int);
    assert(b.inputs.symtab.syms@[i] == rebound(a.inputs.symtab.syms@[i], kv));
    let e = lists::count_kept(kv, d as int);
    assert(b.dylibs@[e] == renumbered(a.dylibs@, kv)[e]);
}

} // verus!
