//! The passes in order, from settled symbols to planned output sections.
use super::create::{create_output_sections, SectionError, Sections};
use super::dead_strip::dead_strip;
use super::dylibs::dead_strip_dylibs;
use super::icf::icf_sections;
use super::layout::find_last;
use super::order::{order_file_ranks, parse_order_files, OrderRule};
use super::slots::{scan_objc_stubs, scan_relocations, scan_unwind_personalities};
use super::undefined::{check_undefined_symbols, UndefinedReport};
use crate::arch::Arch;
use crate::checks::{check_fdes, check_inits, check_inputs, check_ready};
use crate::context::{Context, Layout, Slots};
use crate::inputs::Inputs;
use crate::output_chunks::header::ChunkKind;
use crate::symbol::{Symbol, SymbolTable};
use crate::util::graph::Walk;
use crate::util::{bytes, lists};
use vstd::prelude::*;
use vstd::string::*;

verus! {

/// What pruning found.
#[derive(Debug)]
pub struct Pruned {
    /// The walk over live sections, where dead ones were stripped.
    pub walk: Option<Walk>,
    pub report: UndefinedReport,
}

/// The contexts between the passes that prune sections.
pub struct Pruning {
    /// Dead sections stripped.
    pub stripped: Context,
    /// Undefined symbols reported.
    pub reported: Context,
}

/// The symbol that a program starts at.
pub open spec fn entry_id(a: Context) -> Option<u32> {
    let ids = a.inputs.symtab.ids();
    if ids.contains_key(a.args.entry@) {
        Some(ids[a.args.entry@])
    } else {
        None
    }
}

/// True when `b` is `a` without its dead sections, as the walk found them.
#[verifier::opaque]
pub open spec fn sections_stripped(a: Context, b: Context, w: Walk) -> bool {
    let x = a.inputs;
    let edges = super::dead_strip::live_edges(x);
    let roots = super::dead_strip::through(
        x,
        super::dead_strip::live_roots(x, a.init_funcs@, a.args.sw.output_type, entry_id(a)),
    );
    let marked = super::dead_strip::stripped(x.isecs@, w.live@);
    let kept = super::dead_strip::fdes_kept(x.fdes@, w.live@);
    let records = super::dead_strip::live_records(
        x.unwind_records@,
        marked,
        kept,
        x.unwind_records.len() as int,
    );
    &&& w.live.len() == x.isecs.len()
    &&& forall|i: int|
        0 <= i < w.live.len() ==> #[trigger] w.live[i] == crate::util::graph::reachable(
            edges,
            roots,
            i,
        )
    &&& crate::util::graph::walk_ok(edges, roots, w, x.isecs.len() as int)
    &&& b.inputs.isecs@ == super::dead_strip::refreshed(marked, records, 0)
    &&& b.inputs.fdes@ == lists::kept(x.fdes@, kept)
    &&& b.inputs.unwind_records@ == records
    &&& b.inputs == (Inputs {
        isecs: b.inputs.isecs,
        fdes: b.inputs.fdes,
        unwind_records: b.inputs.unwind_records,
        ..x
    })
    &&& b == (Context { inputs: b.inputs, ..a })
}

/// True when `b` is `a` with the symbols left to the loader that may be.
#[verifier::opaque]
pub open spec fn undefined_reported(a: Context, b: Context, r: UndefinedReport) -> bool {
    let n = a.inputs.symtab.syms.len() as int;
    &&& b.inputs.symtab.syms@ == a.inputs.symtab.syms@.map_values(
        |s: Symbol| super::undefined::left_to_loader(a.args, s),
    )
    &&& r.errors@ == super::undefined::errors_to(a.inputs, a.args, n)
    &&& r.warnings@ == super::undefined::warnings_to(a.inputs.symtab.syms@, a.args, n)
    &&& b.inputs == (Inputs {
        symtab: (SymbolTable { syms: b.inputs.symtab.syms, ..a.inputs.symtab }),
        ..a.inputs
    })
    &&& b == (Context { inputs: b.inputs, ..a })
}

/// True when `b` is `a` with its identical functions folded.
#[verifier::opaque]
pub open spec fn sections_folded(a: Context, b: Context) -> bool {
    let ids = super::icf::candidate_ids(a.inputs);
    &&& b.inputs.isecs@ == super::icf::folded(
        a.inputs.isecs@,
        ids,
        super::icf::classes(a.inputs),
        ids.len() as int,
    )
    &&& b.inputs == (Inputs { isecs: b.inputs.isecs, ..a.inputs })
    &&& b == (Context { inputs: b.inputs, ..a })
}

/// True when frames and initializers exist.
pub open spec fn can_prune(a: Context) -> bool {
    &&& a.inputs.wf()
    &&& a.inputs.fdes_exist()
    &&& forall|i: int|
        0 <= i < a.init_funcs.len() ==> (#[trigger] a.init_funcs[i]).0 < a.inputs.isecs.len()
}

/// True when the passes up to the report led from `a` to `m`.
pub open spec fn prunes(a: Context, m: Pruning, p: Pruned) -> bool {
    &&& match p.walk {
        Some(w) => a.args.sw.dead_strip && sections_stripped(a, m.stripped, w),
        None => !a.args.sw.dead_strip && m.stripped == a,
    }
    &&& undefined_reported(m.stripped, m.reported, p.report)
}

/// True when the passes led from `a` to `b`. Functions are folded where that
/// is asked for and the link goes on.
pub open spec fn is_pruned(a: Context, b: Context, p: Pruned) -> bool {
    exists|m: Pruning| #[trigger]
        prunes(a, m, p) && if a.args.sw.deduplicate && p.report.errors.len() == 0 {
            sections_folded(m.reported, b)
        } else {
            b == m.reported
        }
}

fn step_strip(ctx: &mut Context) -> (w: Walk)
    requires
        can_prune(*old(ctx)),
        old(ctx).inputs.symtab.wf(),
    ensures
        sections_stripped(*old(ctx), *final(ctx), w),
        final(ctx).inputs.wf(),
        final(ctx).inputs.symtab.wf(),
        final(ctx).args == old(ctx).args,
{
    let entry: Option<u32> = ctx.inputs.symtab.get(ctx.args.entry.as_slice());
    let w: Walk = dead_strip(
        &mut ctx.inputs,
        &ctx.init_funcs,
        ctx.args.sw.output_type,
        entry,
    );
    proof {
        reveal(sections_stripped);
    }
    w
}

fn step_undefined(ctx: &mut Context) -> (r: UndefinedReport)
    requires
        old(ctx).inputs.wf(),
        old(ctx).inputs.symtab.wf(),
    ensures
        undefined_reported(*old(ctx), *final(ctx), r),
        final(ctx).inputs.wf(),
        final(ctx).inputs.symtab.wf(),
        final(ctx).args == old(ctx).args,
{
    let r: UndefinedReport = check_undefined_symbols(&ctx.args, &mut ctx.inputs);
    proof {
        reveal(undefined_reported);
    }
    r
}

fn step_fold(ctx: &mut Context)
    requires
        old(ctx).inputs.wf(),
        old(ctx).inputs.symtab.wf(),
    ensures
        sections_folded(*old(ctx), *final(ctx)),
        final(ctx).inputs.symtab.wf(),
{
    icf_sections(&mut ctx.inputs);
    proof {
        reveal(sections_folded);
    }
}

/// Strips dead sections where that is asked for, reports undefined symbols,
/// and folds identical functions where that is asked for. Returns `None` if
/// something refers to what does not exist.
pub fn prune_sections(ctx: &mut Context) -> (r: Option<Pruned>)
    requires
        old(ctx).inputs.symtab.wf(),
    ensures
        final(ctx).inputs.symtab.wf(),
        match r {
            Some(p) => can_prune(*old(ctx)) && is_pruned(*old(ctx), *final(ctx), p),
            None => !can_prune(*old(ctx)) && *final(ctx) == *old(ctx),
        },
{
    if !check_inputs(&ctx.inputs) || !check_fdes(&ctx.inputs) || !check_inits(ctx) {
        return None;
    }
    let ghost a = *ctx;
    let walk: Option<Walk> = if ctx.args.sw.dead_strip {
        Some(step_strip(ctx))
    } else {
        None
    };
    let ghost stripped = *ctx;
    let report: UndefinedReport = step_undefined(ctx);
    let ghost m = Pruning { stripped, reported: *ctx };
    let p: Pruned = Pruned { walk, report };
    assert(prunes(a, m, p));
    if ctx.args.sw.deduplicate && p.report.errors.len() == 0 {
        step_fold(ctx);
    }
    assert(prunes(a, m, p));
    assert(is_pruned(a, *ctx, p));
    Some(p)
}

/// Why the output sections cannot be planned.
#[derive(Debug, Clone, Copy, PartialEq, Eq, Structural)]
pub enum PlanError {
    /// Something refers to what does not exist.
    BadReference,
    /// A symbol is used as thread-local data and as other data.
    SlotMismatch(u32),
    /// There are more slots or libraries than can be numbered.
    TooMany,
    Sections(SectionError),
}

/// What the sections are planned with: the texts of the -order_file options,
/// the contents of the -sectcreate ones, and the sections whose boundaries
/// are asked for.
pub struct Wishes {
    pub order: Vec<Vec<u8>>,
    pub files: Vec<Vec<u8>>,
    pub asked: Vec<(Vec<u8>, Vec<u8>)>,
}

/// The contexts between the passes that plan sections.
pub struct Planning {
    /// Relocations scanned.
    pub scanned: Context,
    /// Personality functions scanned.
    pub unwound: Context,
    /// Selector stubs scanned.
    pub stubbed: Context,
    /// Unused libraries dropped.
    pub pruned: Context,
}

/// True when `b` is `a` with the slots that its relocations need, each under
/// its symbol's index.
#[verifier::opaque]
pub open spec fn relocs_scanned<E: Arch>(a: Context, b: Context) -> bool {
    let needs = super::slots::needs_to::<E>(a, a.inputs.isecs.len() as int);
    &&& super::slots::same_but_slots(a, b)
    &&& super::slots::met(super::slots::lists_of(a), needs, needs.len() as int) == Ok::<
        super::slots::SlotLists,
        u32,
    >(super::slots::lists_of(b))
    &&& super::slots::ready(b)
}

/// True when a symbol needs slots that do not go together.
#[verifier::opaque]
pub open spec fn slots_clash<E: Arch>(a: Context, id: u32) -> bool {
    let needs = super::slots::needs_to::<E>(a, a.inputs.isecs.len() as int);
    super::slots::met(super::slots::lists_of(a), needs, needs.len() as int) == Err::<
        super::slots::SlotLists,
        u32,
    >(id)
}

/// True when `b` is `a` with slots for its personality functions.
#[verifier::opaque]
pub open spec fn personalities_scanned(a: Context, b: Context) -> bool {
    let ids = super::slots::all_pers(a.inputs, a.inputs.cies.len() as int);
    &&& super::slots::same_but_slots(a, b)
    &&& b.slots.got_syms@ == super::slots::all_added(a.slots.got_syms@, ids, ids.len() as int)
    &&& b.slots.stub_syms@ == a.slots.stub_syms@
    &&& b.slots.thread_ptr_syms@ == a.slots.thread_ptr_syms@
    &&& super::slots::ready(b)
}

/// True when `b` is `a` with a slot for what its selector stubs call.
#[verifier::opaque]
pub open spec fn stubs_scanned(a: Context, b: Context) -> bool {
    &&& super::slots::same_but_slots(a, b)
    &&& b.slots.got_syms@ == match a.slots.objc_msgsend_sym {
        Some(id) => super::slots::added(a.slots.got_syms@, id),
        None => a.slots.got_syms@,
    }
    &&& b.slots.stub_syms@ == a.slots.stub_syms@
    &&& b.slots.thread_ptr_syms@ == a.slots.thread_ptr_syms@
    &&& super::slots::ready(b)
}

/// True when what the selector stubs call exists.
pub open spec fn callee_exists(a: Context) -> bool {
    a.slots.objc_msgsend_sym matches Some(id) ==> id < a.inputs.symtab.syms.len()
}

/// True when `b` is `a` without the libraries that nothing binds to.
#[verifier::opaque]
pub open spec fn libraries_dropped(a: Context, b: Context) -> bool {
    if super::dylibs::any_strippable(a) {
        super::dylibs::stripped(a, b)
    } else {
        b == a
    }
}

/// The name of a processor in an order file.
pub open spec fn arch_name<E: Arch>() -> Seq<u8> {
    if E::info().cputype == crate::macho::consts::CPU_TYPE_ARM64 {
        "arm64".spec_bytes()
    } else {
        "x86_64".spec_bytes()
    }
}

/// True for the ranks that order files give to subsections, where there are
/// such files.
pub open spec fn are_ranks<E: Arch>(x: Inputs, order: Seq<Seq<u8>>, ranks: Option<Seq<u64>>) -> bool {
    let rules = super::order::order_rules(order, arch_name::<E>(), order.len() as int);
    match ranks {
        None => order.len() == 0,
        Some(r) => {
            &&& order.len() > 0
            &&& r.len() == x.isecs.len()
            &&& forall|i: int|
                0 <= i < r.len() ==> super::order::is_rank(
                    x,
                    rules,
                    i,
                    #[trigger] r[i],
                    x.symtab.syms.len() as int,
                )
        },
    }
}

/// The output sections of a context for such wishes.
pub open spec fn sections_of<E: Arch>(a: Context, w: Wishes, ranks: Option<Seq<u64>>) -> Result<
    super::create::SectionsView,
    SectionError,
> {
    super::create::output_sections::<E>(
        a.inputs,
        a.args,
        a.slots,
        a.init_funcs.len() as int,
        ranks,
        bytes::views(w.files@),
        super::chunk_list::pair_names(w.asked@),
    )
}

/// True when the slots can be numbered and each -sectcreate has its file.
pub open spec fn can_plan(a: Context, w: Wishes) -> bool {
    &&& super::chunk_list::slots_fit(a.slots, a.init_funcs.len() as int)
    &&& w.files.len() == a.args.sectcreate.len()
}

/// The layout with the sections of synthetic slots found.
pub open spec fn slots_found(from: Layout, l: Layout) -> bool {
    let cv = crate::output_chunks::header::chunk_views(l.chunks@);
    let n = l.chunks.len() as int;
    l == (Layout {
        chunks: l.chunks,
        segments: l.segments,
        stubs_chunk: super::layout::last_of(cv, ChunkKind::Stubs, from.stubs_chunk, n),
        got_chunk: super::layout::last_of(cv, ChunkKind::Got, from.got_chunk, n),
        thread_ptrs_chunk: super::layout::last_of(
            cv,
            ChunkKind::ThreadPtrs,
            from.thread_ptrs_chunk,
            n,
        ),
        objc_stubs_chunk: super::layout::last_of(
            cv,
            ChunkKind::ObjcStubs,
            from.objc_stubs_chunk,
            n,
        ),
        objc_methname_chunk: super::layout::last_of(
            cv,
            ChunkKind::ObjcMethname,
            from.objc_methname_chunk,
            n,
        ),
        objc_selrefs_chunk: super::layout::last_of(
            cv,
            ChunkKind::ObjcSelrefs,
            from.objc_selrefs_chunk,
            n,
        ),
        ..from
    })
}

/// True when `b` is `a` with its output sections planned.
#[verifier::opaque]
pub open spec fn sections_planned<E: Arch>(
    a: Context,
    w: Wishes,
    b: Context,
    info: Option<u32>,
) -> bool {
    &&& exists|ranks: Option<Seq<u64>>| #[trigger]
        are_ranks::<E>(a.inputs, bytes::views(w.order@), ranks) && sections_of::<E>(a, w, ranks)
            == Ok::<super::create::SectionsView, SectionError>(
            (super::create::SectionsView {
                chunks: crate::output_chunks::header::chunk_views(b.layout.chunks@),
                segments: crate::output_chunks::header::segment_views(b.layout.segments@),
                isecs: crate::input_sections::isec_views(b.inputs.isecs@),
                cies: crate::input_files::eh_frame::cie_views(b.inputs.cies@),
                fdes: crate::input_files::eh_frame::fde_views(b.inputs.fdes@),
                image_info: info,
            }),
        )
    &&& slots_found(a.layout, b.layout)
    &&& b.inputs == (Inputs {
        isecs: b.inputs.isecs,
        cies: b.inputs.cies,
        fdes: b.inputs.fdes,
        unwind_records: b.inputs.unwind_records,
        ..a.inputs
    })
    &&& b.inputs.unwind_records@ == super::create::records_left(a.inputs)
    &&& b == (Context { inputs: b.inputs, layout: b.layout, ..a })
}

/// True when the output sections of `a` cannot be planned for that reason.
#[verifier::opaque]
pub open spec fn sections_fail<E: Arch>(a: Context, w: Wishes, e: SectionError) -> bool {
    exists|ranks: Option<Seq<u64>>| #[trigger]
        are_ranks::<E>(a.inputs, bytes::views(w.order@), ranks) && sections_of::<E>(a, w, ranks)
            == Err::<super::create::SectionsView, SectionError>(e)
}

/// True when the passes up to the libraries led from `a` to `m`.
pub open spec fn plans<E: Arch>(a: Context, m: Planning) -> bool {
    &&& relocs_scanned::<E>(a, m.scanned)
    &&& personalities_scanned(m.scanned, m.unwound)
    &&& stubs_scanned(m.unwound, m.stubbed)
    &&& libraries_dropped(m.stubbed, m.pruned)
}

/// True when the passes led from `a` to a context that the next pass cannot
/// take, or to what the error says.
pub open spec fn plan_stops<E: Arch>(a: Context, m: Planning, w: Wishes, e: PlanError) -> bool {
    match e {
        PlanError::BadReference => false,
        PlanError::SlotMismatch(id) => slots_clash::<E>(a, id),
        PlanError::TooMany => {
            &&& relocs_scanned::<E>(a, m.scanned)
            &&& personalities_scanned(m.scanned, m.unwound)
            &&& stubs_scanned(m.unwound, m.stubbed)
            &&& {
                ||| m.stubbed.dylibs.len() >= i32::MAX
                ||| libraries_dropped(m.stubbed, m.pruned) && !can_plan(m.pruned, w)
            }
        },
        PlanError::Sections(s) => plans::<E>(a, m) && sections_fail::<E>(m.pruned, w, s),
    }
}

/// True when the passes led from `a` to `b`.
pub open spec fn is_planned<E: Arch>(a: Context, w: Wishes, b: Context, info: Option<u32>) -> bool {
    exists|m: Planning| #[trigger]
        plans::<E>(a, m) && can_plan(m.pruned, w) && sections_planned::<E>(m.pruned, w, b, info)
}

fn step_relocs<E: Arch>(ctx: &mut Context) -> (r: Result<(), u32>)
    requires
        super::slots::ready(*old(ctx)),
        old(ctx).inputs.symtab.wf(),
        callee_exists(*old(ctx)),
    ensures
        match r {
            Ok(()) => relocs_scanned::<E>(*old(ctx), *final(ctx)),
            Err(id) => slots_clash::<E>(*old(ctx), id),
        },
        super::slots::ready(*final(ctx)),
        final(ctx).inputs.symtab.wf(),
        callee_exists(*final(ctx)),
{
    let ghost a = *ctx;
    let r: Result<(), u32> = scan_relocations::<E>(ctx);
    proof {
        reveal(relocs_scanned);
        reveal(slots_clash);
        crate::symbol::lemma_names_kept(a.inputs.symtab, ctx.inputs.symtab);
    }
    r
}

fn step_personalities(ctx: &mut Context)
    requires
        super::slots::ready(*old(ctx)),
        old(ctx).inputs.symtab.wf(),
        callee_exists(*old(ctx)),
    ensures
        personalities_scanned(*old(ctx), *final(ctx)),
        super::slots::ready(*final(ctx)),
        final(ctx).inputs.symtab.wf(),
        callee_exists(*final(ctx)),
{
    let ghost a = *ctx;
    scan_unwind_personalities(ctx);
    proof {
        reveal(personalities_scanned);
        crate::symbol::lemma_names_kept(a.inputs.symtab, ctx.inputs.symtab);
    }
}

fn step_objc(ctx: &mut Context)
    requires
        super::slots::ready(*old(ctx)),
        old(ctx).inputs.symtab.wf(),
        callee_exists(*old(ctx)),
    ensures
        stubs_scanned(*old(ctx), *final(ctx)),
        super::slots::ready(*final(ctx)),
        final(ctx).inputs.symtab.wf(),
{
    let ghost a = *ctx;
    scan_objc_stubs(ctx);
    proof {
        reveal(stubs_scanned);
        crate::symbol::lemma_names_kept(a.inputs.symtab, ctx.inputs.symtab);
    }
}

fn step_libraries(ctx: &mut Context)
    requires
        super::slots::ready(*old(ctx)),
        old(ctx).inputs.symtab.wf(),
        old(ctx).dylibs.len() < i32::MAX,
    ensures
        libraries_dropped(*old(ctx), *final(ctx)),
        super::slots::ready(*final(ctx)),
        final(ctx).inputs.symtab.wf(),
{
    dead_strip_dylibs(ctx);
    proof {
        reveal(libraries_dropped);
    }
}

fn check_fit(slots: &Slots, inits: usize) -> (r: bool)
    ensures
        r == super::chunk_list::slots_fit(*slots, inits as int),
{
    slots.stub_syms.len() as u64 <= u32::MAX as u64 && slots.got_syms.len() as u64
        <= u32::MAX as u64 && slots.thread_ptr_syms.len() as u64 <= u32::MAX as u64
        && slots.objc_stubs.len() as u64 <= u32::MAX as u64 && inits as u64 <= 0xffff_ffff_ffff
}

spec fn rank_view(r: Option<Vec<u64>>) -> Option<Seq<u64>> {
    match r {
        Some(v) => Some(v@),
        None => None,
    }
}

fn find_ranks<E: Arch>(x: &Inputs, order: &Vec<Vec<u8>>) -> (r: Option<Vec<u64>>)
    requires
        x.wf(),
    ensures
        are_ranks::<E>(
            *x,
            bytes::views(order@),
            rank_view(r),
        ),
        r matches Some(v) ==> v.len() == x.isecs.len(),
{
    if order.len() == 0 {
        return None;
    }
    let name: &str = if E::get_info().cputype == crate::macho::consts::CPU_TYPE_ARM64 {
        "arm64"
    } else {
        "x86_64"
    };
    let rules: Vec<OrderRule> = parse_order_files(order, name.as_bytes());
    Some(order_file_ranks(x, &rules))
}

fn find_slot_sections(layout: &mut Layout)
    ensures
        slots_found(*old(layout), *final(layout)),
        final(layout).chunks == old(layout).chunks,
        final(layout).segments == old(layout).segments,
{
    layout.stubs_chunk = find_last(&layout.chunks, ChunkKind::Stubs, layout.stubs_chunk);
    layout.got_chunk = find_last(&layout.chunks, ChunkKind::Got, layout.got_chunk);
    layout.thread_ptrs_chunk = find_last(
        &layout.chunks,
        ChunkKind::ThreadPtrs,
        layout.thread_ptrs_chunk,
    );
    layout.objc_stubs_chunk = find_last(
        &layout.chunks,
        ChunkKind::ObjcStubs,
        layout.objc_stubs_chunk,
    );
    layout.objc_methname_chunk = find_last(
        &layout.chunks,
        ChunkKind::ObjcMethname,
        layout.objc_methname_chunk,
    );
    layout.objc_selrefs_chunk = find_last(
        &layout.chunks,
        ChunkKind::ObjcSelrefs,
        layout.objc_selrefs_chunk,
    );
}

/// Groups the input sections into output sections, and sets those as the
/// layout. Returns what Objective-C image flags the inputs have.
pub fn lay_out_sections<E: Arch>(ctx: &mut Context, w: &Wishes) -> (r: Result<
    Option<u32>,
    SectionError,
>)
    requires
        old(ctx).inputs.wf(),
        old(ctx).inputs.fdes_exist(),
        old(ctx).inputs.symtab.wf(),
        can_plan(*old(ctx), *w),
    ensures
        match r {
            Ok(info) => sections_planned::<E>(*old(ctx), *w, *final(ctx), info),
            Err(e) => sections_fail::<E>(*old(ctx), *w, e),
        },
        final(ctx).inputs.symtab.wf(),
        r is Ok ==> final(ctx).inputs.wf() && final(ctx).inputs.fdes_exist(),
        r is Ok ==> forall|k: int|
            0 <= k < old(ctx).inputs.unwind_records.len() ==> #[trigger] super::create::keeps_frame(
                old(ctx).inputs,
                final(ctx).inputs,
                k,
            ),
        r is Ok && super::slots::ready(*old(ctx)) ==> super::slots::ready(*final(ctx)),
{
    let ghost a = *ctx;
    let ranks: Option<Vec<u64>> = find_ranks::<E>(&ctx.inputs, &w.order);
    let ghost rv = rank_view(ranks);
    let s: Sections = match create_output_sections::<E>(
        &mut ctx.inputs,
        &ctx.args,
        &ctx.slots,
        ctx.init_funcs.len(),
        &ranks,
        &w.files,
        &w.asked,
    ) {
        Ok(s) => s,
        Err(e) => {
            proof {
                reveal(sections_fail);
                assert(are_ranks::<E>(a.inputs, bytes::views(w.order@), rv));
            }
            return Err(e);
        },
    };
    ctx.layout.chunks = s.chunks;
    ctx.layout.segments = s.segments;
    find_slot_sections(&mut ctx.layout);
    proof {
        reveal(sections_planned);
        assert(are_ranks::<E>(a.inputs, bytes::views(w.order@), rv));
        if super::slots::ready(a) {
            super::slots::lemma_ready_kept(a, *ctx);
        }
    }
    Ok(s.image_info)
}

/// The passes before the sections leave unwind records and frames alone.
proof fn lemma_frames_stay<E: Arch>(a: Context, m: Planning)
    requires
        plans::<E>(a, m),
    ensures
        m.pruned.inputs.unwind_records == a.inputs.unwind_records,
        m.pruned.inputs.fdes == a.inputs.fdes,
{
    reveal(relocs_scanned);
    reveal(personalities_scanned);
    reveal(stubs_scanned);
    reveal(libraries_dropped);
}

/// Gives symbols the slots that they need, drops unused libraries where that
/// is asked for, and plans the output sections. Returns what Objective-C
/// image flags the inputs have.
pub fn plan_sections<E: Arch>(ctx: &mut Context, w: &Wishes) -> (r: Result<Option<u32>, PlanError>)
    requires
        old(ctx).inputs.symtab.wf(),
    ensures
        final(ctx).inputs.symtab.wf(),
        ({
            let ok = super::slots::ready(*old(ctx)) && callee_exists(*old(ctx))
                && old(ctx).inputs.fdes_exist();
            match r {
                Ok(info) => ok && is_planned::<E>(*old(ctx), *w, *final(ctx), info)
                    && super::slots::ready(*final(ctx)) && final(ctx).inputs.fdes_exist(),
                Err(e) => {
                    ||| !ok && e == PlanError::BadReference
                    ||| ok && exists|m: Planning| #[trigger] plan_stops::<E>(*old(ctx), m, *w, e)
                },
            }
        }),
{
    let callee: bool = match ctx.slots.objc_msgsend_sym {
        Some(id) => (id as usize) < ctx.inputs.symtab.syms.len(),
        None => true,
    };
    if !callee || !check_ready(ctx) || !check_fdes(&ctx.inputs) {
        return Err(PlanError::BadReference);
    }
    let ghost a = *ctx;
    match step_relocs::<E>(ctx) {
        Ok(()) => {},
        Err(id) => {
            let ghost m = Planning { scanned: a, unwound: a, stubbed: a, pruned: a };
            assert(plan_stops::<E>(a, m, *w, PlanError::SlotMismatch(id)));
            return Err(PlanError::SlotMismatch(id));
        },
    }
    let ghost scanned = *ctx;
    step_personalities(ctx);
    let ghost unwound = *ctx;
    step_objc(ctx);
    let ghost stubbed = *ctx;
    if ctx.dylibs.len() >= i32::MAX as usize {
        let ghost m = Planning { scanned, unwound, stubbed, pruned: stubbed };
        assert(plan_stops::<E>(a, m, *w, PlanError::TooMany));
        return Err(PlanError::TooMany);
    }
    step_libraries(ctx);
    let ghost m = Planning { scanned, unwound, stubbed, pruned: *ctx };
    assert(plans::<E>(a, m));
    if !check_fit(&ctx.slots, ctx.init_funcs.len()) || w.files.len() != ctx.args.sectcreate.len() {
        assert(plan_stops::<E>(a, m, *w, PlanError::TooMany));
        return Err(PlanError::TooMany);
    }
    proof {
        lemma_frames_stay::<E>(a, m);
    }
    match lay_out_sections::<E>(ctx, w) {
        Ok(info) => {
            assert(plans::<E>(a, m));
            assert(is_planned::<E>(a, *w, *ctx, info));
            Ok(info)
        },
        Err(e) => {
            assert(plan_stops::<E>(a, m, *w, PlanError::Sections(e)));
            Err(PlanError::Sections(e))
        },
    }
}

} // verus!
