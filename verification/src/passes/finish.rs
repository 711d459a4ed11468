//! Places everything, builds the tables and writes the image.
use super::chained::{build_chained_fixups, ChainError};
use super::contents::{CopyError, Tables};
use super::fixups::{
    build_bind_info, build_data_in_code, build_function_starts, build_rebase_info, collect_fixups,
    Fixup,
};
use super::layout::{set_osec_offsets, ImageView, TableSizes};
use super::output::copy_chunks;
use super::symtab::{create_output_symtab, section_ordinals, sorted_globals};
use super::synthetic::{fix_synthetic_symbols, resolve_entry, Boundary, BoundaryView};
use super::tables::{build_export_trie, build_split_info, build_unwind_info};
use crate::arch::Arch;
use crate::checks::{check_context, check_fdes, check_parts, check_segments, check_slots, check_sorted};
use crate::context::{Context, Layout};
use crate::inputs::Inputs;
use crate::macho::consts::MH_EXECUTE;
use crate::output_chunks::header::{ChunkKind, ChunkView};
use crate::output_chunks::load_commands::{mach_header_size, Identity};
use crate::output_chunks::tables::SymtabSection;
use crate::output_chunks::unwind_info::EncodeError;
use crate::symbol::{Symbol, SymbolTable};
use crate::util::{self, bytes};
use vstd::prelude::*;

verus! {

/// Why an image cannot be finished.
#[derive(Clone, Copy, Debug, PartialEq, Eq, Structural)]
pub enum FinishError {
    /// Something refers to what does not exist.
    BadReference,
    /// The image does not fit in the address space.
    TooLarge,
    /// There is no __TEXT segment, or its header is too large.
    NoHeader,
    /// The section or segment of a boundary symbol does not exist.
    NoBoundary(u32),
    /// Nothing defines the entry point.
    NoEntry,
    /// There are more sections than symbols can refer to.
    TooManySections,
    Unwind(EncodeError),
    Chain(ChainError),
    /// A pointer that dyld fixes up lies in no segment.
    StrayPointer,
    /// Two exports have one name, or there are too many.
    Exports,
    /// The function addresses cannot be encoded.
    Functions,
    /// There are too many symbols or too long names.
    Symbols,
    /// The tables came out in another size than was set aside.
    Unstable,
    Copy(CopyError),
}

/// True when a symbol table is that of the image.
pub open spec fn is_symtab_of<E: Arch>(
    ctx: Context,
    ords: Seq<u8>,
    cwd: Seq<u8>,
    t: SymtabSection,
) -> bool {
    let globals = super::symtab::globals_of(ctx.inputs);
    let es = super::symtab::all_entries::<E>(ctx, ords, cwd, globals);
    let nlocal = super::symtab::local_part::<E>(ctx, ords, cwd).len();
    let imports = super::symtab::imports_of(ctx.inputs);
    let placed = crate::output_chunks::string_table::placed_names(es);
    &&& es.len() <= u32::MAX
    &&& placed is Some
    &&& t.entries@ == crate::output_chunks::string_table::stamped(es, placed->0.strx)
    &&& crate::output_chunks::string_table::unique_views(t.strtab_uniques@) == placed->0.uniques
    &&& t.strtab_size == util::aligned(placed->0.end, 8)
    &&& t.nlocal == nlocal
    &&& t.nextdef == globals.len()
    &&& t.nundef == imports.len()
    &&& t.output_sym_indices@ == super::symtab::all_indices(
        super::symtab::indices_to(ctx.inputs, es, es.len() as int),
        imports,
        (nlocal + globals.len()) as int,
        imports.len() as int,
    )
}

/// True when there is no symbol table of the image.
pub open spec fn no_symtab<E: Arch>(ctx: Context, ords: Seq<u8>, cwd: Seq<u8>) -> bool {
    let globals = super::symtab::globals_of(ctx.inputs);
    let es = super::symtab::all_entries::<E>(ctx, ords, cwd, globals);
    es.len() > u32::MAX || crate::output_chunks::string_table::placed_names(es) is None
}

/// The section ordinals of the image's chunks.
pub open spec fn ordinals(ctx: Context) -> Option<Seq<u8>> {
    super::symtab::ordinals_of(
        crate::output_chunks::header::chunk_views(ctx.layout.chunks@),
        crate::output_chunks::header::segment_views(ctx.layout.segments@),
    )
}

/// The unwind table of the image, and its personality functions.
#[verifier::opaque]
pub open spec fn unwind_of<E: Arch>(ctx: Context) -> Result<(Seq<u8>, Seq<u32>), EncodeError> {
    crate::output_chunks::unwind_info::unwind_info(
        super::tables::unwind_to::<E>(ctx, ctx.inputs.unwind_records.len() as int),
        ctx.args.sw.pagezero_size,
    )
}

/// The chained fixups of the image.
pub open spec fn chains_of<E: Arch>(ctx: Context) -> Result<Seq<u8>, ChainError> {
    super::chained::chained_fixups::<E>(
        ctx,
        super::fixups::by_addr(super::fixups::all_fixups::<E>(ctx)),
    )
}

/// True when tables are those of the image.
#[verifier::opaque]
pub open spec fn are_tables_of<E: Arch>(ctx: Context, cwd: Seq<u8>, flags: u32, t: Tables) -> bool {
    &&& unwind_of::<E>(ctx) == Ok::<(Seq<u8>, Seq<u32>), EncodeError>(
        (t.unwind@, t.personalities@),
    )
    &&& if ctx.chained::<E>() {
        &&& chains_of::<E>(ctx) == Ok::<Seq<u8>, ChainError>(t.chained@)
        &&& t.rebase.len() == 0
        &&& t.bind.len() == 0
    } else {
        &&& t.chained.len() == 0
        &&& super::fixups::rebase_info_of::<E>(ctx) == Some(t.rebase@)
        &&& super::fixups::bind_info_of::<E>(ctx) == Some(t.bind@)
    }
    &&& super::tables::trie_of::<E>(ctx) == Some(t.trie@)
    &&& super::fixups::function_starts_of(ctx) == Some(t.starts@)
    &&& t.dice@ == super::fixups::data_in_code_of(ctx)
    &&& ordinals(ctx) matches Some(ords) && t.split@ == super::tables::split_info_of(ctx, ords)
        && is_symtab_of::<E>(ctx, ords, cwd, t.symtab)
    &&& t.image_flags == flags
}

/// True when an error says why a table of the image cannot be made.
#[verifier::opaque]
pub open spec fn is_table_error<E: Arch>(ctx: Context, cwd: Seq<u8>, e: FinishError) -> bool {
    match e {
        FinishError::Unwind(x) => unwind_of::<E>(ctx) == Err::<(Seq<u8>, Seq<u32>), EncodeError>(
            x,
        ),
        FinishError::Chain(x) => ctx.chained::<E>() && chains_of::<E>(ctx) == Err::<
            Seq<u8>,
            ChainError,
        >(x),
        FinishError::StrayPointer => !ctx.chained::<E>() && (super::fixups::rebase_info_of::<E>(
            ctx,
        ) is None || super::fixups::bind_info_of::<E>(ctx) is None),
        FinishError::Exports => super::tables::trie_of::<E>(ctx) is None,
        FinishError::Functions => super::fixups::function_starts_of(ctx) is None,
        FinishError::TooManySections => ordinals(ctx) is None,
        FinishError::Symbols => ordinals(ctx) matches Some(ords) && no_symtab::<E>(
            ctx,
            ords,
            cwd,
        ),
        _ => false,
    }
}

/// True when the tables of an image can be asked for.
#[verifier::opaque]
pub open spec fn is_complete(ctx: Context) -> bool {
    &&& ctx.wf()
    &&& super::fixups::slots_exist(ctx)
    &&& ctx.inputs.fdes_exist()
    &&& super::fixups::subsecs_sorted(ctx.inputs)
    &&& super::tables::aliases_exist(ctx)
    &&& super::chunk_list::segs_ok(ctx.layout.segments@, ctx.layout.chunks.len() as int)
    &&& ctx.layout.segments.len() <= 0x1000_0000
}

fn check_aliases(ctx: &Context) -> (r: bool)
    ensures
        r == super::tables::aliases_exist(*ctx),
{
    let mut i: usize = 0;
    while i < ctx.indirect_aliases.len()
        invariant
            i <= ctx.indirect_aliases.len(),
            forall|k: int|
                0 <= k < i ==> (#[trigger] ctx.indirect_aliases[k]).1
                    < ctx.inputs.symtab.syms.len(),
        decreases ctx.indirect_aliases.len() - i,
    {
        if ctx.indirect_aliases[i].1 as usize >= ctx.inputs.symtab.syms.len() {
            assert(!(ctx.indirect_aliases[i as int].1 < ctx.inputs.symtab.syms.len()));
            return false;
        }
        i += 1;
    }
    true
}

/// Decides whether the tables of an image can be asked for.
pub fn check_complete(ctx: &Context) -> (r: bool)
    ensures
        r == is_complete(*ctx),
{
    proof {
        reveal(is_complete);
    }
    check_context(ctx) && check_slots(ctx) && check_fdes(&ctx.inputs) && check_sorted(&ctx.inputs)
        && check_aliases(ctx) && check_segments(&ctx.layout.segments, ctx.layout.chunks.len())
        && ctx.layout.segments.len() <= 0x1000_0000
}

/// Builds the chained fixups of an image.
fn build_chains<E: Arch>(ctx: &Context) -> (r: Result<Vec<u8>, ChainError>)
    requires
        is_complete(*ctx),
    ensures
        match r {
            Ok(b) => chains_of::<E>(*ctx) == Ok::<Seq<u8>, ChainError>(b@),
            Err(e) => chains_of::<E>(*ctx) == Err::<Seq<u8>, ChainError>(e),
        },
{
    proof {
        reveal(is_complete);
    }
    let fixups: Vec<Fixup> = collect_fixups::<E>(ctx);
    proof {
        super::fixups::lemma_imports_exist::<E>(*ctx);
    }
    build_chained_fixups::<E>(ctx, &fixups)
}

/// Builds the tables that dyld fixes pointers up by: the chains, or the
/// streams of rebases and binds.
fn build_fixups<E: Arch>(ctx: &Context) -> (r: Result<(Vec<u8>, Vec<u8>, Vec<u8>), FinishError>)
    requires
        is_complete(*ctx),
    ensures
        match r {
            Ok(t) => if ctx.chained::<E>() {
                &&& chains_of::<E>(*ctx) == Ok::<Seq<u8>, ChainError>(t.0@)
                &&& t.1.len() == 0
                &&& t.2.len() == 0
            } else {
                &&& t.0.len() == 0
                &&& super::fixups::rebase_info_of::<E>(*ctx) == Some(t.1@)
                &&& super::fixups::bind_info_of::<E>(*ctx) == Some(t.2@)
            },
            Err(FinishError::Chain(e)) => ctx.chained::<E>() && chains_of::<E>(*ctx) == Err::<
                Seq<u8>,
                ChainError,
            >(e),
            Err(FinishError::StrayPointer) => !ctx.chained::<E>() && (
            super::fixups::rebase_info_of::<E>(*ctx) is None || super::fixups::bind_info_of::<E>(
                *ctx,
            ) is None),
            Err(_) => false,
        },
{
    proof {
        reveal(is_complete);
    }
    if ctx.use_chained_fixups::<E>() {
        return match build_chains::<E>(ctx) {
            Ok(b) => Ok((b, Vec::new(), Vec::new())),
            Err(e) => Err(FinishError::Chain(e)),
        };
    }
    let rebase: Vec<u8> = match build_rebase_info::<E>(ctx) {
        Some(v) => v,
        None => {
            return Err(FinishError::StrayPointer);
        },
    };
    let bind: Vec<u8> = match build_bind_info::<E>(ctx) {
        Some(v) => v,
        None => {
            return Err(FinishError::StrayPointer);
        },
    };
    Ok((Vec::new(), rebase, bind))
}

/// Builds the tables of an image.
pub fn build_tables<E: Arch>(ctx: &Context, cwd: &[u8], flags: u32) -> (r: Result<
    Tables,
    FinishError,
>)
    requires
        is_complete(*ctx),
    ensures
        match r {
            Ok(t) => are_tables_of::<E>(*ctx, cwd@, flags, t),
            Err(e) => is_table_error::<E>(*ctx, cwd@, e),
        },
{
    proof {
        reveal(are_tables_of);
        reveal(unwind_of);
        reveal(is_table_error);
        reveal(is_complete);
    }
    let (unwind, personalities) = match build_unwind_info::<E>(ctx) {
        Ok(p) => p,
        Err(e) => {
            return Err(FinishError::Unwind(e));
        },
    };
    let (chained, rebase, bind) = match build_fixups::<E>(ctx) {
        Ok(p) => p,
        Err(e) => {
            return Err(e);
        },
    };
    let trie: Vec<u8> = match build_export_trie::<E>(ctx) {
        Some(v) => v,
        None => {
            return Err(FinishError::Exports);
        },
    };
    let starts: Vec<u8> = match build_function_starts(ctx) {
        Some(v) => v,
        None => {
            return Err(FinishError::Functions);
        },
    };
    let dice: Vec<(u64, u64, u64)> = build_data_in_code(ctx);
    let ords: Vec<u8> = match section_ordinals(&ctx.layout.chunks, &ctx.layout.segments) {
        Some(v) => v,
        None => {
            return Err(FinishError::TooManySections);
        },
    };
    let split: Vec<u8> = build_split_info(ctx, &ords);
    let globals: Vec<u32> = sorted_globals(&ctx.inputs);
    let symtab: SymtabSection = match create_output_symtab::<E>(ctx, &ords, cwd, &globals) {
        Some(t) => t,
        None => {
            return Err(FinishError::Symbols);
        },
    };
    Ok(
        Tables {
            unwind,
            personalities,
            chained,
            rebase,
            bind,
            trie,
            split,
            starts,
            dice,
            symtab,
            image_flags: flags,
        },
    )
}

/// The sizes of tables.
pub open spec fn sizes_of(t: Tables, header: u64) -> TableSizes {
    TableSizes {
        header,
        unwind: t.unwind.len() as u64,
        symtab: (16 * t.symtab.entries.len()) as u64,
        strtab: t.symtab.strtab_size,
        chained: t.chained.len() as u64,
        rebase: t.rebase.len() as u64,
        bind: t.bind.len() as u64,
        trie: t.trie.len() as u64,
        split: t.split.len() as u64,
        starts: t.starts.len() as u64,
        dice: (8 * t.dice.len()) as u64,
        signature: 0,
    }
}

/// Finds the sizes of tables. `None` when they are too large.
pub fn find_sizes(t: &Tables, header: u64) -> (r: Option<TableSizes>)
    ensures
        match r {
            Some(s) => s == sizes_of(*t, header) && t.symtab.entries.len() <= u32::MAX
                && t.dice.len() <= u32::MAX,
            None => t.symtab.entries.len() > u32::MAX || t.dice.len() > u32::MAX,
        },
{
    if t.symtab.entries.len() as u64 > 0xffff_ffff || t.dice.len() as u64 > 0xffff_ffff {
        return None;
    }
    Some(
        TableSizes {
            header,
            unwind: t.unwind.len() as u64,
            symtab: 16 * t.symtab.entries.len() as u64,
            strtab: t.symtab.strtab_size,
            chained: t.chained.len() as u64,
            rebase: t.rebase.len() as u64,
            bind: t.bind.len() as u64,
            trie: t.trie.len() as u64,
            split: t.split.len() as u64,
            starts: t.starts.len() as u64,
            dice: 8 * t.dice.len() as u64,
            signature: 0,
        },
    )
}

/// True when the symbols of boundaries exist.
pub open spec fn boundaries_exist(ctx: Context, bs: Seq<Boundary>) -> bool {
    forall|i: int| 0 <= i < bs.len() ==> (#[trigger] bs[i]).sym < ctx.inputs.symtab.syms.len()
}

fn check_boundaries(ctx: &Context, bs: &Vec<Boundary>) -> (r: bool)
    ensures
        r == boundaries_exist(*ctx, bs@),
{
    let mut i: usize = 0;
    while i < bs.len()
        invariant
            i <= bs.len(),
            forall|k: int|
                0 <= k < i ==> (#[trigger] bs[k]).sym < ctx.inputs.symtab.syms.len(),
        decreases bs.len() - i,
    {
        if bs[i].sym as usize >= ctx.inputs.symtab.syms.len() {
            assert(!(bs[i as int].sym < ctx.inputs.symtab.syms.len()));
            return false;
        }
        i += 1;
    }
    true
}

/// The chunks and segments of an image before they are placed.
pub open spec fn unplaced(l: Layout) -> ImageView {
    ImageView {
        chunks: crate::output_chunks::header::chunk_views(l.chunks@),
        segments: crate::output_chunks::header::segment_views(l.segments@),
        addr: 0,
        fileoff: 0,
    }
}

/// The image with everything placed.
pub open spec fn image_of<E: Arch>(ctx: Context, sizes: TableSizes) -> Option<ImageView> {
    super::layout::image_to(
        unplaced(ctx.layout),
        sizes,
        E::info().page_size,
        ctx.args.sw.pagezero_size,
        ctx.layout.segments.len() as int,
    )
}

/// True when a layout is another with everything placed, and the chunks of
/// slots found.
pub open spec fn is_layout_of<E: Arch>(ctx: Context, sizes: TableSizes, l: Layout) -> bool {
    let from = ctx.layout;
    let n = from.chunks.len() as int;
    let cv = unplaced(from).chunks;
    &&& image_of::<E>(ctx, sizes) matches Some(p)
    &&& p.chunks == unplaced(l).chunks
    &&& p.segments == unplaced(l).segments
    &&& p.fileoff == l.output_size
    &&& l.stubs_chunk == super::layout::last_of(cv, ChunkKind::Stubs, from.stubs_chunk, n)
    &&& l.got_chunk == super::layout::last_of(cv, ChunkKind::Got, from.got_chunk, n)
    &&& l.thread_ptrs_chunk == super::layout::last_of(
        cv,
        ChunkKind::ThreadPtrs,
        from.thread_ptrs_chunk,
        n,
    )
    &&& l.objc_stubs_chunk == super::layout::last_of(
        cv,
        ChunkKind::ObjcStubs,
        from.objc_stubs_chunk,
        n,
    )
    &&& l.objc_methname_chunk == super::layout::last_of(
        cv,
        ChunkKind::ObjcMethname,
        from.objc_methname_chunk,
        n,
    )
    &&& l.objc_selrefs_chunk == super::layout::last_of(
        cv,
        ChunkKind::ObjcSelrefs,
        from.objc_selrefs_chunk,
        n,
    )
    &&& l.tls_begin == (match super::layout::first_tls(unplaced(l).chunks, n) {
        Some(a) => a,
        None => 0,
    })
    &&& l.stub_helper_chunk == from.stub_helper_chunk
    &&& l.lazy_ptrs_chunk == from.lazy_ptrs_chunk
    &&& l.entry_addr == from.entry_addr
}

/// The layout with the address of the entry point, which only programs
/// have.
pub open spec fn with_entry<E: Arch>(ctx: Context) -> Layout {
    Layout {
        entry_addr: if ctx.args.sw.output_type == MH_EXECUTE {
            super::synthetic::entry_of::<E>(ctx)->Some_0
        } else {
            ctx.layout.entry_addr
        },
        ..ctx.layout
    }
}

/// True when nothing defines the entry point of a program.
pub open spec fn lacks_entry<E: Arch>(ctx: Context) -> bool {
    ctx.args.sw.output_type == MH_EXECUTE && super::synthetic::entry_of::<E>(ctx) is None
}

/// True when `b` is `a` with a layout and with the values of boundary
/// symbols: `mid` has the layout already.
pub open spec fn is_valued(a: Context, mid: Context, bs: Seq<Boundary>, b: Context) -> bool {
    &&& mid == (Context { layout: mid.layout, ..a })
    &&& super::synthetic::valued_to(
        a.inputs.symtab.syms@,
        mid.layout,
        super::synthetic::boundary_views(bs),
        bs.len() as int,
    ) == Some(b.inputs.symtab.syms@)
    &&& b == (Context {
        inputs: (Inputs {
            symtab: (SymbolTable { syms: b.inputs.symtab.syms, ..a.inputs.symtab }),
            ..a.inputs
        }),
        ..mid
    })
}

/// True when `b` is `a` with everything placed, with tables of the given
/// sizes, and the symbols that depend on it given their values.
#[verifier::opaque]
pub open spec fn is_placed<E: Arch>(
    a: Context,
    sizes: TableSizes,
    bs: Seq<Boundary>,
    b: Context,
) -> bool {
    exists|mid: Context, valued: Context| #[trigger]
        is_valued(a, mid, bs, valued) && is_layout_of::<E>(a, sizes, mid.layout) && !lacks_entry::<
            E,
        >(valued) && b == (Context { layout: with_entry::<E>(valued), ..valued })
}

/// True when an error says why things cannot be placed.
#[verifier::opaque]
pub open spec fn is_place_error<E: Arch>(
    a: Context,
    sizes: TableSizes,
    bs: Seq<Boundary>,
    e: FinishError,
) -> bool {
    match e {
        FinishError::TooLarge => image_of::<E>(a, sizes) is None,
        FinishError::NoBoundary(id) => exists|l: Layout, i: int| #[trigger]
            is_layout_of::<E>(a, sizes, l) && 0 <= i < bs.len() && (#[trigger] bs[i]).sym == id
                && super::synthetic::boundary_addr(l, bs[i]@) is None,
        FinishError::NoEntry => exists|mid: Context, valued: Context| #[trigger]
            is_valued(a, mid, bs, valued) && is_layout_of::<E>(a, sizes, mid.layout)
                && lacks_entry::<E>(valued),
        _ => false,
    }
}

proof fn lemma_last_of(chunks: Seq<ChunkView>, kind: ChunkKind, first: usize, n: int)
    requires
        0 <= n <= usize::MAX,
    ensures
        super::layout::last_of(chunks, kind, first, n) == first || super::layout::last_of(
            chunks,
            kind,
            first,
            n,
        ) < n,
    decreases n,
{
    if n > 0 {
        lemma_last_of(chunks, kind, first, n - 1);
    }
}

/// What is complete stays complete when everything is placed.
proof fn lemma_layout_complete<E: Arch>(a: Context, sizes: TableSizes, b: Context)
    requires
        is_complete(a),
        b == (Context { layout: b.layout, ..a }),
        is_layout_of::<E>(a, sizes, b.layout),
        b.layout.chunks.len() == a.layout.chunks.len(),
        b.layout.segments.len() == a.layout.segments.len(),
        super::chunk_list::segs_ok(b.layout.segments@, b.layout.chunks.len() as int),
    ensures
        is_complete(b),
{
    reveal(is_complete);
    let n = a.layout.chunks.len() as int;
    let cv = unplaced(a.layout).chunks;
    lemma_last_of(cv, ChunkKind::Stubs, a.layout.stubs_chunk, n);
    lemma_last_of(cv, ChunkKind::Got, a.layout.got_chunk, n);
    lemma_last_of(cv, ChunkKind::ThreadPtrs, a.layout.thread_ptrs_chunk, n);
    lemma_last_of(cv, ChunkKind::ObjcStubs, a.layout.objc_stubs_chunk, n);
    lemma_last_of(cv, ChunkKind::ObjcSelrefs, a.layout.objc_selrefs_chunk, n);
    assert forall|i: int| 0 <= i < b.inputs.symtab.syms.len() implies b.sym_ok(
        #[trigger] b.inputs.symtab.syms[i],
    ) by {
        assert(a.sym_ok(a.inputs.symtab.syms[i]));
    }
    assert forall|i: int| 0 <= i < b.sym_aux.len() implies b.aux_ok(#[trigger] b.sym_aux[i]) by {
        assert(a.aux_ok(a.sym_aux[i]));
    }
    assert(b.wf());
    assert(super::fixups::slots_exist(b));
    assert(super::tables::aliases_exist(b));
}

/// Places everything, with tables of the given sizes, and gives the symbols
/// that depend on it their values.
fn place_all<E: Arch>(ctx: &mut Context, sizes: &TableSizes, bs: &Vec<Boundary>) -> (r: Result<
    (),
    FinishError,
>)
    requires
        is_complete(*old(ctx)),
        boundaries_exist(*old(ctx), bs@),
        old(ctx).inputs.symtab.wf(),
    ensures
        match r {
            Ok(()) => {
                &&& is_placed::<E>(*old(ctx), *sizes, bs@, *final(ctx))
                &&& is_complete(*final(ctx))
                &&& boundaries_exist(*final(ctx), bs@)
            },
            Err(e) => is_place_error::<E>(*old(ctx), *sizes, bs@, e),
        },
        final(ctx).inputs.symtab.wf(),
        final(ctx).args == old(ctx).args,
{
    proof {
        reveal(is_placed);
        reveal(is_place_error);
        reveal(is_complete);
    }
    let ghost start = *ctx;
    let pagezero: u64 = ctx.args.sw.pagezero_size;
    if !set_osec_offsets::<E>(&mut ctx.layout, sizes, pagezero) {
        return Err(FinishError::TooLarge);
    }
    let ghost mid = *ctx;
    proof {
        assert(is_layout_of::<E>(start, *sizes, mid.layout));
        lemma_layout_complete::<E>(start, *sizes, mid);
    }
    let missing: Option<u32> = fix_synthetic_symbols(ctx, bs);
    if let Some(id) = missing {
        return Err(FinishError::NoBoundary(id));
    }
    let ghost valued = *ctx;
    proof {
        assert(is_valued(start, mid, bs@, valued));
        lemma_valued_complete(mid, valued, bs@);
    }
    if !resolve_entry::<E>(ctx) {
        return Err(FinishError::NoEntry);
    }
    proof {
        assert(*ctx == (Context { layout: with_entry::<E>(valued), ..valued }));
        lemma_entry_complete(valued, *ctx);
    }
    Ok(())
}

proof fn lemma_valued_len(syms: Seq<Symbol>, l: Layout, bs: Seq<BoundaryView>, n: int)
    requires
        forall|i: int| 0 <= i < bs.len() ==> (#[trigger] bs[i]).sym < syms.len(),
        n <= bs.len(),
    ensures
        super::synthetic::valued_to(syms, l, bs, n) matches Some(v) ==> v.len() == syms.len(),
    decreases n,
{
    if n > 0 {
        lemma_valued_len(syms, l, bs, n - 1);
        assert(bs[n - 1].sym < syms.len());
    }
}

proof fn lemma_valued_complete(mid: Context, valued: Context, bs: Seq<Boundary>)
    requires
        is_complete(mid),
        boundaries_exist(mid, bs),
        is_valued(mid, mid, bs, valued),
        valued.wf(),
    ensures
        is_complete(valued),
        boundaries_exist(valued, bs),
{
    reveal(is_complete);
    let bv = super::synthetic::boundary_views(bs);
    assert forall|i: int| 0 <= i < bv.len() implies (#[trigger] bv[i]).sym
        < mid.inputs.symtab.syms.len() by {
        assert(bv[i] == bs[i]@);
        assert(bs[i].sym < mid.inputs.symtab.syms.len());
    }
    lemma_valued_len(mid.inputs.symtab.syms@, mid.layout, bv, bs.len() as int);
    assert(valued.inputs.symtab.syms.len() == mid.inputs.symtab.syms.len());
}

proof fn lemma_entry_complete(a: Context, b: Context)
    requires
        is_complete(a),
        b == (Context { layout: (Layout { entry_addr: b.layout.entry_addr, ..a.layout }), ..a }),
    ensures
        is_complete(b),
{
    reveal(is_complete);
    assert forall|i: int| 0 <= i < b.inputs.symtab.syms.len() implies b.sym_ok(
        #[trigger] b.inputs.symtab.syms[i],
    ) by {
        assert(a.sym_ok(a.inputs.symtab.syms[i]));
    }
    assert forall|i: int| 0 <= i < b.sym_aux.len() implies b.aux_ok(#[trigger] b.sym_aux[i]) by {
        assert(a.aux_ok(a.sym_aux[i]));
    }
}

/// A finished image.
#[derive(Debug)]
pub struct Image {
    pub bytes: Vec<u8>,
    pub tables: Tables,
    pub id: Identity,
}

/// What an image's load commands say of its symbol table.
pub open spec fn is_identity_of(t: Tables, id: Identity) -> bool {
    &&& id.nsyms == t.symtab.entries.len()
    &&& id.nlocal == t.symtab.nlocal
    &&& id.nextdef == t.symtab.nextdef
    &&& id.nundef == t.symtab.nundef
    &&& id.uuid@ == bytes::zeros(16)
}

fn blank_uuid() -> (r: Vec<u8>)
    ensures
        r@ == bytes::zeros(16),
{
    let mut r: Vec<u8> = Vec::new();
    bytes::push_zeros(&mut r, 16);
    assert(r@ =~= bytes::zeros(16));
    r
}

/// The sizes that are known before the tables of __LINKEDIT are built.
pub open spec fn image_sizes(header: u64, unwind: u64) -> TableSizes {
    TableSizes {
        header,
        unwind,
        symtab: 0,
        strtab: 0,
        chained: 0,
        rebase: 0,
        bind: 0,
        trie: 0,
        split: 0,
        starts: 0,
        dice: 0,
        signature: 0,
    }
}

fn find_image_sizes(header: u64, unwind: u64) -> (r: TableSizes)
    ensures
        r == image_sizes(header, unwind),
{
    TableSizes {
        header,
        unwind,
        symtab: 0,
        strtab: 0,
        chained: 0,
        rebase: 0,
        bind: 0,
        trie: 0,
        split: 0,
        starts: 0,
        dice: 0,
        signature: 0,
    }
}

/// The size of the image's header. `None` when there is no place for one.
pub open spec fn header_of(ctx: Context, id: Identity) -> Option<u64> {
    let n = crate::output_chunks::load_commands::header_size(ctx, id);
    if crate::output_chunks::load_commands::text_of(ctx) is None || n > u64::MAX {
        None
    } else {
        Some(n as u64)
    }
}

/// An identity that says nothing yet.
pub open spec fn is_blank(id: Identity) -> bool {
    &&& id.nsyms == 0
    &&& id.nlocal == 0
    &&& id.nextdef == 0
    &&& id.nundef == 0
    &&& id.uuid@ == bytes::zeros(16)
}

/// What an image is finished from, besides the context.
pub struct Wish {
    pub boundaries: Seq<Boundary>,
    pub cwd: Seq<u8>,
    pub flags: u32,
    /// The size of the header.
    pub header: u64,
}

/// True when `c` is `a` with the image placed, as far as that is possible
/// without its unwind table.
pub open spec fn first_round<E: Arch>(a: Context, w: Wish, c: Context) -> bool {
    is_placed::<E>(a, image_sizes(w.header, 0), w.boundaries, c)
}

/// True when `c` is `a` with the image placed, with room for the unwind
/// table that `b` has.
pub open spec fn second_round<E: Arch>(b: Context, w: Wish, c: Context) -> bool {
    unwind_of::<E>(b) matches Ok(u) && is_placed::<E>(
        b,
        image_sizes(w.header, u.0.len() as u64),
        w.boundaries,
        c,
    )
}

/// True when `c` is `b` with everything placed, with room for the tables
/// that `b` has.
pub open spec fn third_round<E: Arch>(b: Context, w: Wish, t: Tables, c: Context) -> bool {
    &&& are_tables_of::<E>(b, w.cwd, w.flags, t)
    &&& is_placed::<E>(b, sizes_of(t, w.header), w.boundaries, c)
}

/// True when everything is placed, in three rounds: `t` are the tables that
/// room was made for.
pub open spec fn all_placed<E: Arch>(a: Context, w: Wish, t: Tables, c: Context) -> bool {
    exists|c1: Context, c2: Context|
        #![trigger first_round::<E>(a, w, c1), second_round::<E>(c1, w, c2)]
        first_round::<E>(a, w, c1) && second_round::<E>(c1, w, c2) && third_round::<E>(
            c2,
            w,
            t,
            c,
        )
}

/// True when the first round fails with an error.
pub open spec fn first_fails<E: Arch>(a: Context, w: Wish, e: FinishError) -> bool {
    is_place_error::<E>(a, image_sizes(w.header, 0), w.boundaries, e)
}

/// True when the second round fails with an error.
pub open spec fn second_fails<E: Arch>(a: Context, w: Wish, e: FinishError) -> bool {
    exists|b: Context| #[trigger]
        first_round::<E>(a, w, b) && match unwind_of::<E>(b) {
            Ok(u) => is_place_error::<E>(
                b,
                image_sizes(w.header, u.0.len() as u64),
                w.boundaries,
                e,
            ),
            Err(x) => e == FinishError::Unwind(x),
        }
}

/// True when the third round fails with an error: a table cannot be built,
/// is too large, or cannot be placed.
pub open spec fn third_fails<E: Arch>(a: Context, w: Wish, e: FinishError) -> bool {
    exists|c1: Context, c2: Context|
        #![trigger first_round::<E>(a, w, c1), second_round::<E>(c1, w, c2)]
        first_round::<E>(a, w, c1) && second_round::<E>(c1, w, c2) && (is_table_error::<E>(
            c2,
            w.cwd,
            e,
        ) || is_room_error::<E>(c2, w, e))
}

/// True when there is no room for the tables of an image.
pub open spec fn is_room_error<E: Arch>(c: Context, w: Wish, e: FinishError) -> bool {
    exists|t: Tables| #[trigger]
        are_tables_of::<E>(c, w.cwd, w.flags, t) && ((e == FinishError::TooLarge && is_huge(t))
            || is_place_error::<E>(c, sizes_of(t, w.header), w.boundaries, e))
}

/// True when tables have more entries than can be counted.
pub open spec fn is_huge(t: Tables) -> bool {
    t.symtab.entries.len() > u32::MAX || t.dice.len() > u32::MAX
}

/// What writing the file of an image comes to.
#[verifier::opaque]
pub open spec fn written<E: Arch>(c: Context, t: Tables, id: Identity) -> Result<Seq<u8>, CopyError> {
    super::output::output_file::<E>(c, t, id)
}

/// True when something that the file is made of does not exist.
#[verifier::opaque]
pub open spec fn parts_missing(c: Context, t: Tables) -> bool {
    !super::contents::parts_exist(c, t)
}

/// True when everything is placed but the file cannot be written: `c` has
/// everything in place, and room for the tables `t`.
pub open spec fn write_fails<E: Arch>(c: Context, w: Wish, t: Tables, e: FinishError) -> bool {
    ||| is_table_error::<E>(c, w.cwd, e)
    ||| e == FinishError::TooLarge && exists|u: Tables| #[trigger]
        are_tables_of::<E>(c, w.cwd, w.flags, u) && is_huge(u)
    ||| exists|u: Tables, id: Identity|
        #![trigger are_tables_of::<E>(c, w.cwd, w.flags, u), is_identity_of(u, id)]
        are_tables_of::<E>(c, w.cwd, w.flags, u) && is_identity_of(u, id) && match e {
            FinishError::Unstable => sizes_of(u, w.header) != sizes_of(t, w.header),
            FinishError::BadReference => parts_missing(c, u),
            FinishError::Copy(x) => written::<E>(c, u, id) == Err::<
                Seq<u8>,
                CopyError,
            >(x),
            _ => false,
        }
}

/// True when an image cannot be finished for the reason that an error
/// gives.
pub open spec fn is_finish_error<E: Arch>(a: Context, w: Wish, e: FinishError) -> bool {
    ||| first_fails::<E>(a, w, e)
    ||| second_fails::<E>(a, w, e)
    ||| third_fails::<E>(a, w, e)
    ||| exists|t: Tables, c: Context| #[trigger]
        all_placed::<E>(a, w, t, c) && write_fails::<E>(c, w, t, e)
}

/// True when a finished image is that of a context in which everything is
/// in place.
pub open spec fn is_image_of<E: Arch>(a: Context, w: Wish, c: Context, i: Image) -> bool {
    &&& are_tables_of::<E>(c, w.cwd, w.flags, i.tables)
    &&& is_identity_of(i.tables, i.id)
    &&& written::<E>(c, i.tables, i.id) == Ok::<Seq<u8>, CopyError>(i.bytes@)
    &&& exists|t: Tables| #[trigger]
        all_placed::<E>(a, w, t, c) && sizes_of(t, w.header) == sizes_of(i.tables, w.header)
}

/// The size of the image's unwind table.
fn find_unwind_size<E: Arch>(ctx: &Context) -> (r: Result<u64, EncodeError>)
    requires
        is_complete(*ctx),
    ensures
        match r {
            Ok(n) => unwind_of::<E>(*ctx) matches Ok(u) && n == u.0.len(),
            Err(e) => unwind_of::<E>(*ctx) == Err::<(Seq<u8>, Seq<u32>), EncodeError>(e),
        },
{
    proof {
        reveal(is_complete);
        reveal(unwind_of);
    }
    match build_unwind_info::<E>(ctx) {
        Ok(p) => Ok(p.0.len() as u64),
        Err(e) => Err(e),
    }
}

/// Copies everything into the file, if everything exists.
fn copy_all<E: Arch>(ctx: &Context, t: &Tables, id: &Identity) -> (r: Result<Vec<u8>, FinishError>)
    requires
        is_complete(*ctx),
    ensures
        match r {
            Ok(v) => written::<E>(*ctx, *t, *id) == Ok::<Seq<u8>, CopyError>(
                v@,
            ),
            Err(FinishError::BadReference) => parts_missing(*ctx, *t),
            Err(FinishError::Copy(x)) => written::<E>(*ctx, *t, *id) == Err::<
                Seq<u8>,
                CopyError,
            >(x),
            Err(_) => false,
        },
{
    proof {
        reveal(is_complete);
        reveal(written);
        reveal(parts_missing);
    }
    if !check_parts(ctx, t) {
        return Err(FinishError::BadReference);
    }
    match copy_chunks::<E>(ctx, t, id) {
        Ok(bytes) => Ok(bytes),
        Err(e) => Err(FinishError::Copy(e)),
    }
}

/// Writes the file of a context in which everything is in place.
fn write_image<E: Arch>(
    ctx: &Context,
    cwd: &[u8],
    flags: u32,
    header: u64,
    sized: &Tables,
    sizes: &TableSizes,
    Ghost(w): Ghost<Wish>,
) -> (r: Result<Image, FinishError>)
    requires
        is_complete(*ctx),
        w.cwd == cwd@,
        w.flags == flags,
        w.header == header,
        *sizes == sizes_of(*sized, header),
    ensures
        match r {
            Ok(i) => {
                &&& are_tables_of::<E>(*ctx, cwd@, flags, i.tables)
                &&& is_identity_of(i.tables, i.id)
                &&& written::<E>(*ctx, i.tables, i.id) == Ok::<
                    Seq<u8>,
                    CopyError,
                >(i.bytes@)
                &&& sizes_of(*sized, header) == sizes_of(i.tables, header)
            },
            Err(e) => write_fails::<E>(*ctx, w, *sized, e),
        },
{
    let tables: Tables = match build_tables::<E>(ctx, cwd, flags) {
        Ok(t) => t,
        Err(e) => {
            return Err(e);
        },
    };
    let found: Option<TableSizes> = find_sizes(&tables, header);
    let n: u32 = if tables.symtab.entries.len() as u64 > 0xffff_ffff {
        0xffff_ffff
    } else {
        tables.symtab.entries.len() as u32
    };
    let id = Identity {
        nsyms: n,
        nlocal: tables.symtab.nlocal,
        nextdef: tables.symtab.nextdef,
        nundef: tables.symtab.nundef,
        uuid: blank_uuid(),
    };
    assert(tables.symtab.entries.len() <= u32::MAX ==> is_identity_of(tables, id));
    match found {
        Some(s) => {
            if s != *sizes {
                return Err(FinishError::Unstable);
            }
        },
        None => {
            assert(is_huge(tables));
            return Err(FinishError::TooLarge);
        },
    }
    match copy_all::<E>(ctx, &tables, &id) {
        Ok(bytes) => Ok(Image { bytes, tables, id }),
        Err(e) => Err(e),
    }
}

/// Finishes an image whose header has a known size.
fn finish_with<E: Arch>(
    ctx: &mut Context,
    bs: &Vec<Boundary>,
    cwd: &[u8],
    flags: u32,
    header: u64,
) -> (r: Result<Image, FinishError>)
    requires
        is_complete(*old(ctx)),
        boundaries_exist(*old(ctx), bs@),
        old(ctx).inputs.symtab.wf(),
    ensures
        ({
            let w = Wish { boundaries: bs@, cwd: cwd@, flags, header };
            match r {
                Ok(i) => is_image_of::<E>(*old(ctx), w, *final(ctx), i),
                Err(e) => is_finish_error::<E>(*old(ctx), w, e),
            }
        }),
        final(ctx).args == old(ctx).args,
        final(ctx).inputs.symtab.wf(),
{
    let ghost a = *ctx;
    let ghost w = Wish { boundaries: bs@, cwd: cwd@, flags, header };
    match place_all::<E>(ctx, &find_image_sizes(header, 0), bs) {
        Ok(()) => {},
        Err(e) => {
            return Err(e);
        },
    }
    let ghost c1 = *ctx;
    assert(first_round::<E>(a, w, c1));
    let unwind: u64 = match find_unwind_size::<E>(ctx) {
        Ok(n) => n,
        Err(e) => {
            return Err(FinishError::Unwind(e));
        },
    };
    match place_all::<E>(ctx, &find_image_sizes(header, unwind), bs) {
        Ok(()) => {},
        Err(e) => {
            return Err(e);
        },
    }
    let ghost c2 = *ctx;
    assert(second_round::<E>(c1, w, c2));
    let sized: Tables = match build_tables::<E>(ctx, cwd, flags) {
        Ok(t) => t,
        Err(e) => {
            return Err(e);
        },
    };
    assert(are_tables_of::<E>(c2, w.cwd, w.flags, sized));
    let sizes: TableSizes = match find_sizes(&sized, header) {
        Some(s) => s,
        None => {
            assert(is_huge(sized));
            assert(is_room_error::<E>(c2, w, FinishError::TooLarge));
            return Err(FinishError::TooLarge);
        },
    };
    match place_all::<E>(ctx, &sizes, bs) {
        Ok(()) => {},
        Err(e) => {
            assert(is_place_error::<E>(c2, sizes_of(sized, w.header), w.boundaries, e));
            assert(is_room_error::<E>(c2, w, e));
            return Err(e);
        },
    }
    let ghost c = *ctx;
    assert(third_round::<E>(c2, w, sized, c));
    assert(all_placed::<E>(a, w, sized, c));
    write_image::<E>(ctx, cwd, flags, header, &sized, &sizes, Ghost(w))
}

/// Finishes an image: places all chunks, builds the tables and copies
/// everything into the file. The tables of __LINKEDIT stand behind the
/// image and so do not move it: they are sized with the image in place, and
/// built once they have a place themselves. The UUID is left blank, to be
/// made of the contents.
pub fn finish_image<E: Arch>(
    ctx: &mut Context,
    bs: &Vec<Boundary>,
    cwd: &[u8],
    flags: u32,
) -> (r: Result<Image, FinishError>)
    requires
        old(ctx).inputs.symtab.wf(),
    ensures
        final(ctx).args == old(ctx).args,
        final(ctx).inputs.symtab.wf(),
        ({
            let ok = is_complete(*old(ctx)) && boundaries_exist(*old(ctx), bs@);
            &&& !ok ==> r == Err::<Image, FinishError>(FinishError::BadReference)
            &&& ok ==> exists|id: Identity| #[trigger]
                is_blank(id) && match header_of(*old(ctx), id) {
                    None => r == Err::<Image, FinishError>(FinishError::NoHeader),
                    Some(header) => {
                        let w = Wish { boundaries: bs@, cwd: cwd@, flags, header };
                        match r {
                            Ok(i) => is_image_of::<E>(*old(ctx), w, *final(ctx), i),
                            Err(e) => is_finish_error::<E>(*old(ctx), w, e),
                        }
                    },
                }
        }),
{
    if !check_complete(ctx) || !check_boundaries(ctx, bs) {
        return Err(FinishError::BadReference);
    }
    let blank = Identity { nsyms: 0, nlocal: 0, nextdef: 0, nundef: 0, uuid: blank_uuid() };
    assert(is_blank(blank));
    proof {
        reveal(is_complete);
    }
    match mach_header_size(ctx, &blank) {
        Some(header) => finish_with::<E>(ctx, bs, cwd, flags, header),
        None => Err(FinishError::NoHeader),
    }
}

} // verus!
