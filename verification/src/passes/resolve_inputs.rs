//! Symbol resolution over all inputs of a link.
use super::resolve::{claim_new_dylibs, resolve_symbols, Claims, Entry};
use crate::args::Args;
use crate::checks::{check_inputs, check_sorted};
use crate::context::Context;
use crate::input_files::{DylibFile, ObjectFile};
use crate::input_sections::InputSection;
use crate::inputs::Inputs;
use crate::symbol::{Symbol, SymbolTable};
use crate::util::graph::Walk;
use vstd::prelude::*;

verus! {

/// The symbols that the command line names among the first `n` -u options,
/// behind the entry point.
pub open spec fn root_ids(ids: Map<Seq<u8>, u32>, args: Args, n: int) -> Seq<u32>
    decreases n,
{
    if n <= 0 {
        if ids.contains_key(args.entry@) {
            seq![ids[args.entry@]]
        } else {
            Seq::empty()
        }
    } else {
        let before = root_ids(ids, args, n - 1);
        let name = args.forced_undefined[n - 1]@;
        if ids.contains_key(name) {
            before.push(ids[name])
        } else {
            before
        }
    }
}

/// Lists the symbols that the command line names: the entry point and those
/// of -u options, as far as anything mentions them.
pub fn list_root_symbols(args: &Args, symtab: &SymbolTable) -> (r: Vec<u32>)
    requires
        symtab.wf(),
    ensures
        r@ == root_ids(symtab.ids(), *args, args.forced_undefined.len() as int),
        forall|k: int| 0 <= k < r.len() ==> (#[trigger] r[k]) < symtab.syms.len(),
{
    let mut r: Vec<u32> = Vec::new();
    match symtab.get(args.entry.as_slice()) {
        Some(id) => r.push(id),
        None => {},
    }
    assert(r@ =~= root_ids(symtab.ids(), *args, 0));
    let mut i: usize = 0;
    while i < args.forced_undefined.len()
        invariant
            i <= args.forced_undefined.len(),
            symtab.wf(),
            r@ == root_ids(symtab.ids(), *args, i as int),
            forall|k: int| 0 <= k < r.len() ==> (#[trigger] r[k]) < symtab.syms.len(),
        decreases args.forced_undefined.len() - i,
    {
        match symtab.get(args.forced_undefined[i].as_slice()) {
            Some(id) => r.push(id),
            None => {},
        }
        i += 1;
    }
    r
}

/// True when symbols have the same names.
pub open spec fn same_names(a: Seq<Symbol>, b: Seq<Symbol>) -> bool {
    &&& a.len() == b.len()
    &&& forall|i: int| 0 <= i < a.len() ==> (#[trigger] b[i]).name == a[i].name
}

proof fn lemma_claims_names(
    objs: Seq<ObjectFile>,
    isecs: Seq<InputSection>,
    only_alive: bool,
    entries: Seq<Entry>,
    start: Claims,
    n: int,
)
    requires
        super::resolve::entries_ok(entries, objs.len() as int, start.syms.len() as int),
        0 <= n <= entries.len(),
    ensures
        same_names(
            start.syms,
            super::resolve::claims_to(objs, isecs, only_alive, entries, start, n).syms,
        ),
    decreases n,
{
    if n > 0 {
        lemma_claims_names(objs, isecs, only_alive, entries, start, n - 1);
        assert(entries[n - 1].sym < start.syms.len());
    }
}

proof fn lemma_commons_names(
    entries: Seq<Entry>,
    best: Seq<u64>,
    syms: Seq<Symbol>,
    nobjs: int,
    n: int,
)
    requires
        super::resolve::entries_ok(entries, nobjs, syms.len() as int),
        0 <= n <= entries.len(),
    ensures
        same_names(syms, super::resolve::commons_to(entries, best, syms, n)),
    decreases n,
{
    if n > 0 {
        lemma_commons_names(entries, best, syms, nobjs, n - 1);
        assert(entries[n - 1].sym < syms.len());
    }
}

proof fn lemma_round_names(
    objs: Seq<ObjectFile>,
    isecs: Seq<InputSection>,
    dylibs: Seq<DylibFile>,
    roots: Seq<u32>,
    only_alive: bool,
    relocatable: bool,
    syms: Seq<Symbol>,
)
    requires
        super::resolve::objs_ok(objs, isecs, syms.len() as int),
    ensures
        same_names(
            syms,
            super::resolve::resolved(
                objs,
                isecs,
                dylibs,
                roots,
                only_alive,
                relocatable,
                syms,
            ).0,
        ),
{
    let entries = super::resolve::entries_to(objs, only_alive, objs.len() as int);
    let n = entries.len() as int;
    super::resolve::lemma_entries_ok(
        objs,
        isecs,
        only_alive,
        objs.len() as int,
        syms.len() as int,
    );
    let best = Seq::new(syms.len(), |i: int| super::resolve::best_rank(entries, i, n));
    let start = Claims { syms, best, dups: Seq::empty() };
    lemma_claims_names(objs, isecs, only_alive, entries, start, n);
    let c = super::resolve::claims_to(objs, isecs, only_alive, entries, start, n);
    lemma_commons_names(entries, c.best, c.syms, objs.len() as int, n);
    let merged = super::resolve::commons_to(entries, c.best, c.syms, n);
    let r = super::resolve::resolved(
        objs,
        isecs,
        dylibs,
        roots,
        only_alive,
        relocatable,
        syms,
    ).0;
    assert forall|i: int| 0 <= i < syms.len() implies (#[trigger] r[i]).name == syms[i].name by {
        assert(merged[i].name == c.syms[i].name);
        assert(c.syms[i].name == syms[i].name);
    }
}

proof fn lemma_obj_names(
    objs: Seq<ObjectFile>,
    isecs: Seq<InputSection>,
    o: int,
    syms: Seq<Symbol>,
    k: int,
)
    requires
        super::resolve::objs_ok(objs, isecs, syms.len() as int),
        0 <= o < objs.len(),
        0 <= k <= objs[o].nlists.len(),
    ensures
        same_names(syms, super::resolve::obj_locals(objs, isecs, o, syms, k)),
    decreases k,
{
    if k > 0 {
        lemma_obj_names(objs, isecs, o, syms, k - 1);
        assert(objs[o].nlists.len() == objs[o].syms.len());
        assert(objs[o].syms[k - 1] < syms.len());
    }
}

proof fn lemma_locals_names(
    objs: Seq<ObjectFile>,
    isecs: Seq<InputSection>,
    syms: Seq<Symbol>,
    n: int,
)
    requires
        super::resolve::objs_ok(objs, isecs, syms.len() as int),
        0 <= n <= objs.len(),
    ensures
        same_names(syms, super::resolve::locals_to(objs, isecs, syms, n)),
    decreases n,
{
    if n > 0 {
        lemma_locals_names(objs, isecs, syms, n - 1);
        let before = super::resolve::locals_to(objs, isecs, syms, n - 1);
        lemma_obj_names(objs, isecs, n - 1, before, objs[n - 1].nlists.len() as int);
        let after = super::resolve::locals_to(objs, isecs, syms, n);
        assert forall|i: int| 0 <= i < syms.len() implies (#[trigger] after[i]).name
            == syms[i].name by {
            assert(before[i].name == syms[i].name);
        }
    }
}

/// Resolution renames no symbol: what a name stands for changes, and the id
/// that it has does not.
pub proof fn lemma_resolution_keeps_names(
    objs: Seq<ObjectFile>,
    isecs: Seq<InputSection>,
    dylibs: Seq<DylibFile>,
    roots: Seq<u32>,
    relocatable: bool,
    syms: Seq<Symbol>,
)
    requires
        super::resolve::objs_ok(objs, isecs, syms.len() as int),
    ensures
        same_names(
            syms,
            super::resolve::fully_resolved(objs, isecs, dylibs, roots, relocatable, syms).0,
        ),
{
    let bare = super::resolve::all_unclaimed(syms);
    lemma_round_names(objs, isecs, dylibs, roots, false, relocatable, bare);
    let first = super::resolve::resolved(
        objs,
        isecs,
        dylibs,
        roots,
        false,
        relocatable,
        bare,
    ).0;
    let live = super::resolve::marked_live(objs, first, roots);
    assert(super::resolve::objs_ok(live, isecs, syms.len() as int)) by {
        assert forall|o: int| 0 <= o < live.len() implies ({
            &&& (#[trigger] live[o]).nlists.len() == live[o].syms.len()
            &&& forall|k: int|
                0 <= k < live[o].syms.len() ==> (#[trigger] live[o].syms[k]) < syms.len()
            &&& crate::input_files::subsecs_exist(isecs, live[o].subsecs@)
            &&& crate::input_files::in_address_order(
                crate::input_files::extents(isecs, live[o].subsecs@),
            )
        }) by {
            assert(objs[o].nlists.len() == objs[o].syms.len());
        }
    }
    let again = super::resolve::all_unclaimed(first);
    lemma_round_names(live, isecs, dylibs, roots, true, relocatable, again);
    let second = super::resolve::resolved(
        live,
        isecs,
        dylibs,
        roots,
        true,
        relocatable,
        again,
    ).0;
    lemma_locals_names(live, isecs, second, live.len() as int);
    let end = super::resolve::locals_to(live, isecs, second, live.len() as int);
    assert forall|i: int| 0 <= i < syms.len() implies (#[trigger] end[i]).name == syms[i].name by {
        assert(second[i].name == again[i].name);
        assert(again[i].name == first[i].name);
        assert(first[i].name == bare[i].name);
        assert(bare[i].name == syms[i].name);
    }
}

/// What a resolution found.
#[derive(Debug)]
pub struct Resolution {
    /// The symbols that two live objects define strongly, with the object
    /// whose definition lost.
    pub duplicates: Vec<(u32, usize)>,
    /// The walk over live objects.
    pub walk: Walk,
}

/// True when objects refer to what exists, in address order.
pub open spec fn can_resolve(x: Inputs) -> bool {
    x.wf() && super::fixups::subsecs_sorted(x)
}

/// True when `b` is `a` with all symbols resolved, and `r` what was found.
pub open spec fn is_resolved(a: Context, b: Context, r: Resolution) -> bool {
    let roots = root_ids(a.inputs.symtab.ids(), a.args, a.args.forced_undefined.len() as int);
    &&& (b.inputs.symtab.syms@, b.inputs.objs@, r.duplicates@) == super::resolve::fully_resolved(
        a.inputs.objs@,
        a.inputs.isecs@,
        a.dylibs@,
        roots,
        a.args.sw.relocatable,
        a.inputs.symtab.syms@,
    )
    &&& super::resolve::is_liveness_walk(
        a.inputs.objs@,
        a.inputs.isecs@,
        a.dylibs@,
        roots,
        a.args.sw.relocatable,
        a.inputs.symtab.syms@,
        r.walk,
    )
    &&& b.inputs == (Inputs {
        objs: b.inputs.objs,
        symtab: (SymbolTable { syms: b.inputs.symtab.syms, ..a.inputs.symtab }),
        ..a.inputs
    })
    &&& b == (Context { inputs: b.inputs, ..a })
}

/// Resolves all symbols of a link. Returns `None` if something refers to
/// what does not exist.
pub fn resolve_inputs(ctx: &mut Context) -> (r: Option<Resolution>)
    requires
        old(ctx).inputs.symtab.wf(),
    ensures
        final(ctx).inputs.symtab.wf(),
        match r {
            Some(d) => can_resolve(old(ctx).inputs) && is_resolved(*old(ctx), *final(ctx), d),
            None => !can_resolve(old(ctx).inputs) && *final(ctx) == *old(ctx),
        },
{
    if !check_inputs(&ctx.inputs) || !check_sorted(&ctx.inputs) {
        return None;
    }
    let ghost a = *ctx;
    let roots: Vec<u32> = list_root_symbols(&ctx.args, &ctx.inputs.symtab);
    let (duplicates, walk) = resolve_symbols(
        &mut ctx.inputs.objs,
        &ctx.inputs.isecs,
        &ctx.dylibs,
        &roots,
        ctx.args.sw.relocatable,
        &mut ctx.inputs.symtab.syms,
    );
    proof {
        lemma_resolution_keeps_names(
            a.inputs.objs@,
            a.inputs.isecs@,
            a.dylibs@,
            roots@,
            a.args.sw.relocatable,
            a.inputs.symtab.syms@,
        );
        crate::symbol::lemma_names_kept(a.inputs.symtab, ctx.inputs.symtab);
    }
    Some(Resolution { duplicates, walk })
}

/// Lets libraries that were loaded late, from index `first` on, define what
/// is still undefined.
pub fn claim_late_libraries(ctx: &mut Context, first: usize)
    requires
        old(ctx).inputs.symtab.wf(),
    ensures
        final(ctx).inputs.symtab.wf(),
        final(ctx).inputs.symtab.syms@ == old(ctx).inputs.symtab.syms@.map_values(
            |s: Symbol| super::resolve::claimed_late(old(ctx).dylibs@, s, first as int),
        ),
        *final(ctx) == (Context {
            inputs: (Inputs {
                symtab: (SymbolTable {
                    syms: final(ctx).inputs.symtab.syms,
                    ..old(ctx).inputs.symtab
                }),
                ..old(ctx).inputs
            }),
            ..*old(ctx)
        }),
{
    let ghost a = *ctx;
    claim_new_dylibs(&ctx.dylibs, &mut ctx.inputs.symtab.syms, first);
    proof {
        crate::symbol::lemma_names_kept(a.inputs.symtab, ctx.inputs.symtab);
    }
}

} // verus!
