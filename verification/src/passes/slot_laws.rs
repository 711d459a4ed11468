//! Laws of the sections that hold synthetic slots.
use super::contents::Tables;
use crate::arch::Arch;
use crate::context::Context;
use crate::output_chunks::header::{ChunkKind, ChunkView};
use vstd::prelude::*;

verus! {

proof fn lemma_stubs_len<E: Arch>(ctx: Context, addr: u64, n: int)
    requires
        0 <= n,
    ensures
        super::contents::stub_bytes::<E>(ctx, addr, n).len() == n * E::info().stub_size,
    decreases n,
{
    if n > 0 {
        lemma_stubs_len::<E>(ctx, addr, n - 1);
        E::sizes_ok(
            crate::util::bytes::word64(addr + (n - 1) * E::info().stub_size),
            crate::output_chunks::eh_frame::got_or_zero(ctx, ctx.slots.stub_syms[n - 1] as int),
            0,
        );
    }
    lemma_step(n, E::info().stub_size as int);
}

proof fn lemma_objc_stubs_len<E: Arch>(ctx: Context, addr: u64, n: int)
    requires
        0 <= n,
    ensures
        super::contents::objc_stub_bytes::<E>(ctx, addr, n).len() == n * E::info().objc_stub_size,
    decreases n,
{
    if n > 0 {
        lemma_objc_stubs_len::<E>(ctx, addr, n - 1);
        E::sizes_ok(
            crate::util::bytes::word64(addr + (n - 1) * E::info().objc_stub_size),
            ctx.slot_addr(ctx.layout.objc_selrefs_chunk, (n - 1) as u32, 8),
            super::contents::msgsend_slot(ctx),
        );
    }
    lemma_step(n, E::info().objc_stub_size as int);
}

proof fn lemma_step(n: int, size: int)
    ensures
        n * size == (n - 1) * size + size,
{
    assert(n * size == (n - 1) * size + size) by (nonlinear_arith);
}

proof fn lemma_slots_len<E: Arch>(ctx: Context, syms: Seq<u32>, n: int)
    requires
        0 <= n,
    ensures
        super::contents::slot_bytes::<E>(ctx, syms, n).len() == n * 8,
    decreases n,
{
    if n > 0 {
        lemma_slots_len::<E>(ctx, syms, n - 1);
    }
}

proof fn lemma_selrefs_len(offs: Seq<u64>, methname: u64, n: int)
    requires
        0 <= n,
    ensures
        super::contents::selref_bytes(offs, methname, n).len() == n * 8,
    decreases n,
{
    if n > 0 {
        lemma_selrefs_len(offs, methname, n - 1);
    }
}

proof fn lemma_inits_len(ctx: Context, n: int)
    requires
        0 <= n,
    ensures
        super::contents::init_bytes(ctx, n).len() == n * 4,
    decreases n,
{
    if n > 0 {
        lemma_inits_len(ctx, n - 1);
    }
}

proof fn lemma_indirect_len(ctx: Context, indices: Seq<u32>, syms: Seq<u32>, got: bool, n: int)
    requires
        0 <= n,
    ensures
        super::contents::indirect_bytes(ctx, indices, syms, got, n).len() == n * 4,
    decreases n,
{
    if n > 0 {
        lemma_indirect_len(ctx, indices, syms, got, n - 1);
    }
}

/// How many bytes the section of a kind of slot has.
pub open spec fn slots_size<E: Arch>(ctx: Context, kind: ChunkKind) -> int {
    let s = ctx.slots;
    match kind {
        ChunkKind::Stubs => s.stub_syms.len() * E::info().stub_size,
        ChunkKind::Got => s.got_syms.len() * 8,
        ChunkKind::ThreadPtrs => s.thread_ptr_syms.len() * 8,
        ChunkKind::ObjcStubs => s.objc_stubs.len() * E::info().objc_stub_size,
        ChunkKind::ObjcMethname => s.objc_methname_data.len() as int,
        ChunkKind::ObjcSelrefs => s.objc_stubs.len() * 8,
        ChunkKind::InitOffsets => ctx.init_funcs.len() * 4,
        _ => (s.stub_syms.len() + s.got_syms.len()) * 4,
    }
}

/// True for the kinds of sections that hold slots, and for the table of
/// their symbols.
pub open spec fn holds_slots(kind: ChunkKind) -> bool {
    kind == ChunkKind::Stubs || kind == ChunkKind::Got || kind == ChunkKind::ThreadPtrs || kind
        == ChunkKind::ObjcStubs || kind == ChunkKind::ObjcMethname || kind == ChunkKind::ObjcSelrefs
        || kind == ChunkKind::InitOffsets || kind == ChunkKind::IndirectSymtab
}

/// Slots fill their sections: what is written of a section of slots is as
/// long as what was set aside for it.
pub proof fn lemma_slots_fill_sections<E: Arch>(ctx: Context, t: Tables, c: ChunkView)
    requires
        holds_slots(c.kind),
        ctx.slots.objc_methname_offs.len() == ctx.slots.objc_stubs.len(),
        ctx.layout.lazy_ptrs_chunk >= ctx.layout.chunks.len(),
    ensures
        super::contents::chunk_bytes::<E>(ctx, t, c) matches Ok(b) && b.len() == slots_size::<E>(
            ctx,
            c.kind,
        ),
{
    let s = ctx.slots;
    let indices = t.symtab.output_sym_indices@;
    lemma_stubs_len::<E>(ctx, c.hdr.addr, s.stub_syms.len() as int);
    lemma_slots_len::<E>(ctx, s.got_syms@, s.got_syms.len() as int);
    lemma_slots_len::<E>(ctx, s.thread_ptr_syms@, s.thread_ptr_syms.len() as int);
    lemma_objc_stubs_len::<E>(ctx, c.hdr.addr, s.objc_stubs.len() as int);
    lemma_selrefs_len(
        s.objc_methname_offs@,
        super::contents::methname_addr(ctx),
        s.objc_methname_offs.len() as int,
    );
    lemma_inits_len(ctx, ctx.init_funcs.len() as int);
    lemma_indirect_len(ctx, indices, s.stub_syms@, false, s.stub_syms.len() as int);
    lemma_indirect_len(ctx, indices, s.got_syms@, true, s.got_syms.len() as int);
}

/// The sections of slots are set aside in these sizes.
pub proof fn lemma_slot_sections_sized<E: Arch>(
    chunks: Seq<ChunkView>,
    ctx: Context,
    i: int,
)
    requires
        super::chunk_list::slots_fit(ctx.slots, ctx.init_funcs.len() as int),
        chunks.len() <= i < super::chunk_list::with_slot_sections::<E>(
            chunks,
            ctx.slots,
            ctx.init_funcs.len() as int,
        ).len(),
    ensures
        ({
            let c = super::chunk_list::with_slot_sections::<E>(
                chunks,
                ctx.slots,
                ctx.init_funcs.len() as int,
            )[i];
            holds_slots(c.kind) && c.hdr.size == slots_size::<E>(ctx, c.kind)
        }),
{
    E::info_ok();
    let s = ctx.slots;
    let a = E::info().stub_size;
    let b = E::info().objc_stub_size;
    let n = s.stub_syms.len();
    let m = s.objc_stubs.len();
    assert(n * a <= u64::MAX) by (nonlinear_arith)
        requires
            n <= u32::MAX,
            a <= 64,
    ;
    assert(m * b <= u64::MAX) by (nonlinear_arith)
        requires
            m <= u32::MAX,
            b <= 64,
    ;
    assert(s.objc_methname_data.len() <= u64::MAX);
}

} // verus!
