//! The passes in order, from resolved inputs to planned output sections.
use super::convert::{convert_common_symbols, convert_init_offsets};
use super::literals::merge_literals;
use super::objc_stubs::create_objc_msgsend_stubs;
use super::synthetic::{add_synthetic_symbols, Provided};
use super::weak::{auto_hide_weak_defs, coalesce_weak_defs};
use crate::arch::Arch;
use crate::checks::{check_bindings, check_context, check_inits, check_inputs, check_sorted};
use crate::context::{Context, Slots};
use crate::inputs::Inputs;
use crate::symbol::{Symbol, SymbolTable};
use crate::util::bytes;
use vstd::prelude::*;

verus! {

/// Why a link stops before its output is planned.
#[derive(Debug, Clone, Copy, PartialEq, Eq, Structural)]
pub enum StepError {
    /// Something refers to what does not exist.
    BadReference,
    /// There are more symbols than ids.
    TooManySymbols,
    /// The common symbols do not fit.
    TooManyCommons,
}

/// The contexts between the passes that settle what symbols stand for.
pub struct Settling {
    /// Initializers listed.
    pub listed: Context,
    /// Literals merged.
    pub merged: Context,
    /// Linker-provided names added.
    pub named: Context,
    /// Common symbols placed.
    pub placed: Context,
    /// Selector stubs added.
    pub stubbed: Context,
    /// Weak definitions hidden.
    pub hidden: Context,
}

/// True when `b` is `a` with its initializers listed.
#[verifier::opaque]
pub open spec fn inits_listed<E: Arch>(a: Context, b: Context) -> bool {
    if super::convert::lists_inits::<E>(a) {
        &&& b.init_funcs@ == a.init_funcs@ + super::convert::inits_to(
            a.inputs,
            a.inputs.isecs.len() as int,
        )
        &&& b.inputs.isecs@ == super::convert::without_inits(a.inputs)
        &&& b.inputs == (Inputs { isecs: b.inputs.isecs, ..a.inputs })
        &&& b == (Context { inputs: b.inputs, init_funcs: b.init_funcs, ..a })
    } else {
        b == a
    }
}

/// True when `b` is `a` with its literals merged.
#[verifier::opaque]
pub open spec fn literals_merged(a: Context, b: Context) -> bool {
    let isecs = super::literals::merged(a.inputs);
    &&& b.inputs.isecs@ == isecs
    &&& b.inputs.symtab.syms@ == a.inputs.symtab.syms@.map_values(
        |s: Symbol| super::literals::moved(isecs, s),
    )
    &&& b.inputs == (Inputs {
        isecs: b.inputs.isecs,
        symtab: (SymbolTable { syms: b.inputs.symtab.syms, ..a.inputs.symtab }),
        ..a.inputs
    })
    &&& b == (Context { inputs: b.inputs, ..a })
}

/// True when `b` is `a` with the linker-provided names added.
#[verifier::opaque]
pub open spec fn names_added(a: Context, b: Context, p: Provided) -> bool {
    &&& super::synthetic::synthesized(a.args, a.inputs.symtab.state()) matches Some(w)
    &&& b.inputs.symtab.state() == super::synthetic::bounded(w.0)
    &&& super::synthetic::boundary_views(p.boundaries@) == super::synthetic::boundaries_to(
        w.0.syms,
        w.0.syms.len() as int,
    )
    &&& bytes::views(p.missing@) == w.1
    &&& b == (Context { inputs: (Inputs { symtab: b.inputs.symtab, ..a.inputs }), ..a })
}

/// True when `b` is `a` with its common symbols placed.
#[verifier::opaque]
pub open spec fn commons_placed(a: Context, b: Context) -> bool {
    let n = a.inputs.symtab.syms.len() as int;
    &&& super::convert::commons_fit(a.inputs)
    &&& crate::input_sections::isec_views(b.inputs.isecs@) == crate::input_sections::isec_views(
        a.inputs.isecs@,
    ) + super::convert::common_isecs(a.inputs, n)
    &&& crate::arch::section_views(b.inputs.synthetic_hdrs@) == crate::arch::section_views(
        a.inputs.synthetic_hdrs@,
    ) + super::convert::common_headers(a.inputs, n)
    &&& b.inputs.symtab.syms@ == Seq::new(n as nat, |i: int| super::convert::converted(a.inputs, i))
    &&& b.inputs == (Inputs {
        isecs: b.inputs.isecs,
        synthetic_hdrs: b.inputs.synthetic_hdrs,
        symtab: (SymbolTable { syms: b.inputs.symtab.syms, ..a.inputs.symtab }),
        ..a.inputs
    })
    &&& b == (Context { inputs: b.inputs, ..a })
}

/// True when `b` is `a` with a stub for each selector that is called.
#[verifier::opaque]
pub open spec fn stubs_added(a: Context, b: Context) -> bool {
    let t = a.inputs.symtab.state();
    if super::objc_stubs::stubs_to(t.syms, t.syms.len() as int).len() > 0 {
        super::objc_stubs::stubs_made(a, b)
    } else {
        b == a
    }
}

/// True when the stubs of `a` need more symbols than there can be.
#[verifier::opaque]
pub open spec fn stubs_overflow(a: Context) -> bool {
    let t = a.inputs.symtab.state();
    &&& super::objc_stubs::stubs_to(t.syms, t.syms.len() as int).len() > 0
    &&& super::objc_stubs::with_stubs(t, a.dylibs@) is None
}

/// True when `b` is `a` with the weak definitions that nobody needs hidden.
#[verifier::opaque]
pub open spec fn weak_hidden(a: Context, b: Context) -> bool {
    &&& b.inputs.symtab.syms@ == super::weak::after_hiding(a.args, a.inputs)
    &&& b.inputs == (Inputs {
        symtab: (SymbolTable { syms: b.inputs.symtab.syms, ..a.inputs.symtab }),
        ..a.inputs
    })
    &&& b == (Context { inputs: b.inputs, ..a })
}

/// True when `b` is `a` with one copy of each weak definition.
#[verifier::opaque]
pub open spec fn weak_coalesced(a: Context, b: Context) -> bool {
    let copies = super::weak::copies_to(a.inputs, a.inputs.objs.len() as int);
    &&& b.inputs.isecs@ == super::weak::coalesced(a.inputs.isecs@, copies, copies.len() as int)
    &&& b.inputs == (Inputs { isecs: b.inputs.isecs, ..a.inputs })
    &&& b == (Context { inputs: b.inputs, ..a })
}

/// True when the passes up to linker-provided names led from `a` to `m`.
pub open spec fn settles_names<E: Arch>(a: Context, m: Settling) -> bool {
    &&& inits_listed::<E>(a, m.listed)
    &&& literals_merged(m.listed, m.merged)
}

/// True when the passes up to hidden definitions led from `a` to `m`.
pub open spec fn settles<E: Arch>(a: Context, m: Settling, p: Provided) -> bool {
    &&& settles_names::<E>(a, m)
    &&& names_added(m.merged, m.named, p)
    &&& commons_placed(m.named, m.placed)
    &&& stubs_added(m.placed, m.stubbed)
    &&& weak_hidden(m.stubbed, m.hidden)
}

/// True when initializers and references exist.
pub open spec fn can_settle(a: Context) -> bool {
    &&& a.wf()
    &&& forall|i: int|
        0 <= i < a.init_funcs.len() ==> (#[trigger] a.init_funcs[i]).0 < a.inputs.isecs.len()
}

/// True when the passes led from `a` to a context that the next pass cannot
/// take, or to what the error says.
pub open spec fn settle_stops<E: Arch>(a: Context, m: Settling, p: Provided, e: StepError) -> bool {
    &&& settles_names::<E>(a, m)
    &&& match e {
        StepError::BadReference => {
            ||| !m.merged.wf()
            ||| {
                &&& names_added(m.merged, m.named, p)
                &&& commons_placed(m.named, m.placed)
                &&& !super::objc_stubs::without_slots(m.placed)
            }
            ||| settles::<E>(a, m, p) && !super::fixups::subsecs_sorted(m.hidden.inputs)
        },
        StepError::TooManySymbols => {
            ||| super::synthetic::synthesized(m.merged.args, m.merged.inputs.symtab.state()) is None
            ||| {
                &&& names_added(m.merged, m.named, p)
                &&& commons_placed(m.named, m.placed)
                &&& stubs_overflow(m.placed)
            }
        },
        StepError::TooManyCommons => {
            &&& names_added(m.merged, m.named, p)
            &&& !super::convert::commons_fit(m.named.inputs)
        },
    }
}

/// True when the passes led from `a` to `b`.
pub open spec fn is_settled<E: Arch>(a: Context, b: Context, p: Provided) -> bool {
    &&& can_settle(a)
    &&& exists|m: Settling| #[trigger]
        settles::<E>(a, m, p) && super::fixups::subsecs_sorted(m.hidden.inputs) && weak_coalesced(
            m.hidden,
            b,
        )
}

fn check_empty(s: &Slots) -> (r: bool)
    ensures
        r == s.is_empty(),
{
    s.stub_syms.len() == 0 && s.got_syms.len() == 0 && s.thread_ptr_syms.len() == 0
        && s.objc_stubs.len() == 0 && s.objc_msgsend_sym.is_none() && s.objc_methname_data.len()
        == 0 && s.objc_methname_offs.len() == 0 && s.objc_stub_selref.len() == 0
        && s.objc_stub_tail.len() == 0 && s.objc_tail_slots == 0
}

fn check_without_slots(ctx: &Context) -> (r: bool)
    requires
        ctx.inputs.wf(),
        ctx.inputs.symtab.wf(),
    ensures
        r == super::objc_stubs::without_slots(*ctx),
{
    ctx.sym_aux.len() == 0 && check_empty(&ctx.slots) && check_bindings(ctx) && ctx.dylibs.len()
        <= u32::MAX as usize
}

fn step_inits<E: Arch>(ctx: &mut Context)
    requires
        can_settle(*old(ctx)),
        old(ctx).inputs.symtab.wf(),
    ensures
        inits_listed::<E>(*old(ctx), *final(ctx)),
        final(ctx).inputs.wf(),
        final(ctx).inputs.symtab.wf(),
{
    convert_init_offsets::<E>(ctx);
    proof {
        reveal(inits_listed);
    }
}

fn step_literals(ctx: &mut Context)
    requires
        old(ctx).inputs.wf(),
        old(ctx).inputs.symtab.wf(),
    ensures
        literals_merged(*old(ctx), *final(ctx)),
        final(ctx).inputs.wf(),
        final(ctx).inputs.symtab.wf(),
{
    let ghost a = *ctx;
    merge_literals(&mut ctx.inputs);
    proof {
        crate::symbol::lemma_names_kept(a.inputs.symtab, ctx.inputs.symtab);
        reveal(literals_merged);
    }
}

fn step_names(ctx: &mut Context) -> (r: Option<Provided>)
    requires
        old(ctx).wf(),
        old(ctx).inputs.symtab.wf(),
    ensures
        final(ctx).inputs.symtab.wf(),
        match r {
            Some(p) => names_added(*old(ctx), *final(ctx), p) && final(ctx).wf(),
            None => super::synthetic::synthesized(
                old(ctx).args,
                old(ctx).inputs.symtab.state(),
            ) is None,
        },
{
    let r: Option<Provided> = add_synthetic_symbols(ctx);
    proof {
        reveal(names_added);
    }
    r
}

fn step_commons(ctx: &mut Context) -> (r: bool)
    requires
        old(ctx).inputs.wf(),
        old(ctx).inputs.symtab.wf(),
    ensures
        r == super::convert::commons_fit(old(ctx).inputs),
        r ==> commons_placed(*old(ctx), *final(ctx)),
        final(ctx).inputs.wf(),
        final(ctx).inputs.symtab.wf(),
{
    let ghost a = *ctx;
    let r: bool = convert_common_symbols(&mut ctx.inputs);
    proof {
        reveal(commons_placed);
        if r {
            crate::symbol::lemma_names_kept(a.inputs.symtab, ctx.inputs.symtab);
        }
    }
    r
}

fn step_stubs(ctx: &mut Context) -> (r: bool)
    requires
        super::objc_stubs::without_slots(*old(ctx)),
    ensures
        r ==> stubs_added(*old(ctx), *final(ctx)),
        !r ==> stubs_overflow(*old(ctx)),
        final(ctx).inputs.wf(),
        final(ctx).inputs.symtab.wf(),
{
    let r: bool = create_objc_msgsend_stubs(ctx);
    proof {
        reveal(stubs_added);
        reveal(stubs_overflow);
    }
    r
}

fn step_hide(ctx: &mut Context)
    requires
        old(ctx).inputs.wf(),
        old(ctx).inputs.symtab.wf(),
    ensures
        weak_hidden(*old(ctx), *final(ctx)),
        final(ctx).inputs.wf(),
        final(ctx).inputs.symtab.wf(),
{
    let ghost a = *ctx;
    auto_hide_weak_defs(&ctx.args, &mut ctx.inputs);
    proof {
        reveal(weak_hidden);
        crate::symbol::lemma_names_kept(a.inputs.symtab, ctx.inputs.symtab);
    }
}

fn step_coalesce(ctx: &mut Context)
    requires
        old(ctx).inputs.wf(),
        old(ctx).inputs.symtab.wf(),
        super::fixups::subsecs_sorted(old(ctx).inputs),
    ensures
        weak_coalesced(*old(ctx), *final(ctx)),
        final(ctx).inputs.symtab.wf(),
{
    coalesce_weak_defs(&mut ctx.inputs);
    proof {
        reveal(weak_coalesced);
    }
}

/// Settles what symbols stand for: lists initializers, merges literals, adds
/// the names that the linker provides, places common symbols, adds selector
/// stubs, hides weak definitions that nobody needs and coalesces the others.
pub fn settle_symbols<E: Arch>(ctx: &mut Context) -> (r: Result<Provided, StepError>)
    requires
        old(ctx).inputs.symtab.wf(),
    ensures
        final(ctx).inputs.symtab.wf(),
        match r {
            Ok(p) => is_settled::<E>(*old(ctx), *final(ctx), p),
            Err(e) => {
                ||| !can_settle(*old(ctx)) && e == StepError::BadReference
                ||| can_settle(*old(ctx)) && exists|m: Settling, p: Provided| #[trigger]
                    settle_stops::<E>(*old(ctx), m, p, e)
            },
        },
{
    if !check_context(ctx) || !check_inits(ctx) {
        return Err(StepError::BadReference);
    }
    let ghost a = *ctx;
    step_inits::<E>(ctx);
    let ghost listed = *ctx;
    step_literals(ctx);
    let ghost merged = *ctx;
    let ghost m1 = Settling {
        listed,
        merged,
        named: merged,
        placed: merged,
        stubbed: merged,
        hidden: merged,
    };
    let ghost none = Provided { boundaries: arbitrary(), missing: arbitrary() };
    if !check_context(ctx) {
        assert(settle_stops::<E>(a, m1, none, StepError::BadReference));
        return Err(StepError::BadReference);
    }
    let p: Provided = match step_names(ctx) {
        Some(p) => p,
        None => {
            assert(settle_stops::<E>(a, m1, none, StepError::TooManySymbols));
            return Err(StepError::TooManySymbols);
        },
    };
    let ghost named = *ctx;
    if !step_commons(ctx) {
        let ghost m2 = Settling { named, ..m1 };
        assert(settle_stops::<E>(a, m2, p, StepError::TooManyCommons));
        return Err(StepError::TooManyCommons);
    }
    let ghost m3 = Settling { named, placed: *ctx, ..m1 };
    if !check_without_slots(ctx) {
        assert(settle_stops::<E>(a, m3, p, StepError::BadReference));
        return Err(StepError::BadReference);
    }
    if !step_stubs(ctx) {
        assert(settle_stops::<E>(a, m3, p, StepError::TooManySymbols));
        return Err(StepError::TooManySymbols);
    }
    let ghost stubbed = *ctx;
    step_hide(ctx);
    let ghost m = Settling { stubbed, hidden: *ctx, ..m3 };
    assert(settles::<E>(a, m, p));
    if !check_sorted(&ctx.inputs) {
        assert(settle_stops::<E>(a, m, p, StepError::BadReference));
        return Err(StepError::BadReference);
    }
    step_coalesce(ctx);
    assert(settles::<E>(a, m, p) && weak_coalesced(m.hidden, *ctx));
    assert(is_settled::<E>(a, *ctx, p));
    Ok(p)
}

/// True when literals merged and weak definitions coalesced led from `a` to
/// `b`.
pub open spec fn is_condensed(a: Context, b: Context) -> bool {
    exists|m: Context| #[trigger]
        literals_merged(a, m) && super::fixups::subsecs_sorted(m.inputs) && weak_coalesced(m, b)
}

/// Merges literals and coalesces weak definitions, as for output that is
/// linked again. Returns false if something refers to what does not exist.
pub fn condense_sections(ctx: &mut Context) -> (r: bool)
    requires
        old(ctx).inputs.symtab.wf(),
    ensures
        final(ctx).inputs.symtab.wf(),
        r ==> old(ctx).inputs.wf() && is_condensed(*old(ctx), *final(ctx)),
        !r ==> {
            ||| !old(ctx).inputs.wf()
            ||| exists|m: Context| #[trigger]
                literals_merged(*old(ctx), m) && !super::fixups::subsecs_sorted(m.inputs)
        },
{
    if !check_inputs(&ctx.inputs) {
        return false;
    }
    let ghost a = *ctx;
    step_literals(ctx);
    let ghost m = *ctx;
    assert(literals_merged(a, m));
    if !check_sorted(&ctx.inputs) {
        return false;
    }
    step_coalesce(ctx);
    assert(literals_merged(a, m) && weak_coalesced(m, *ctx));
    assert(is_condensed(a, *ctx));
    true
}

} // verus!
