//! The contents of the output's chunks.
use crate::arch::{ApplyError, Arch, RelocClass, ResolvedReloc};
use crate::context::Context;
use crate::input_sections::{InputSection, Reloc, RelocTarget};
use crate::macho::consts::INDIRECT_SYMBOL_LOCAL;
use crate::output_chunks::eh_frame::{encode_eh_frame, find_got, write_at};
use crate::output_chunks::header::{Chunk, ChunkKind, ChunkView, Thunk};
use crate::output_chunks::tables::SymtabSection;
use crate::symbol::NO_IDX;
use crate::util::bytes;
use vstd::prelude::*;

verus! {

/// Why the output cannot be written.
#[derive(Clone, Copy, Debug, PartialEq, Eq, Structural)]
pub enum CopyError {
    /// Something does not fit where it belongs.
    OutOfBounds,
    /// The output is too large.
    TooLarge,
    /// A relocation of this subsection cannot be applied.
    Reloc(u32, ApplyError),
    /// A DWARF record is cut short or does not fit.
    BadFrame,
    /// The unwind table has no room for its personality cells.
    BadUnwind,
    /// A fixup chain cannot be written.
    Chain(super::chained::ChainError),
    /// An executable has no __TEXT segment.
    NoText,
}

/// What the chunks hold that is made of more than their own inputs.
#[derive(Debug)]
pub struct Tables {
    /// __unwind_info, and the symbols of its personality cells.
    pub unwind: Vec<u8>,
    pub personalities: Vec<u32>,
    pub chained: Vec<u8>,
    pub rebase: Vec<u8>,
    pub bind: Vec<u8>,
    pub trie: Vec<u8>,
    /// The references between sections.
    pub split: Vec<u8>,
    pub starts: Vec<u8>,
    /// The data-in-code entries: file offset, length, kind.
    pub dice: Vec<(u64, u64, u64)>,
    pub symtab: SymtabSection,
    /// The flags of __objc_imageinfo.
    pub image_flags: u32,
}

/// True when the tables refer to existing symbols.
pub open spec fn tables_ok(ctx: Context, t: Tables) -> bool {
    let n = ctx.inputs.symtab.syms.len();
    &&& t.symtab.output_sym_indices.len() == n
    &&& forall|i: int| 0 <= i < t.personalities.len() ==> (#[trigger] t.personalities[i]) < n
    &&& forall|i: int|
        0 <= i < t.symtab.entries.len() ==> ((#[trigger] t.symtab.entries[i]).1 matches Some(id)
            ==> id < n)
}

/// True when a chunk lists existing subsections and symbols.
pub open spec fn chunk_ok(ctx: Context, c: Chunk) -> bool {
    &&& forall|k: int| 0 <= k < c.isecs.len() ==> (#[trigger] c.isecs[k]) < ctx.inputs.isecs.len()
    &&& forall|k: int|
        0 <= k < c.thunks.len() ==> thunk_ok(ctx, #[trigger] c.thunks[k])
}

/// True when a thunk leads to existing symbols.
pub open spec fn thunk_ok(ctx: Context, t: Thunk) -> bool {
    t.syms.len() <= u32::MAX && forall|k: int|
        0 <= k < t.syms.len() ==> (#[trigger] t.syms[k]) < ctx.inputs.symtab.syms.len()
}

/// The symbol that a relocation refers to.
pub open spec fn reloc_sym(ctx: Context, s: InputSection, rel: Reloc) -> Option<u32> {
    match rel.refers_to() {
        RelocTarget::Sym(i) => Some(ctx.inputs.objs[s.obj as int].syms[i as int]),
        RelocTarget::Section(_) => None,
    }
}

/// The address that a relocation refers to: the entry of a thunk when the
/// branch goes through one, the address that branches to a symbol go to, or
/// the target's own.
pub open spec fn reloc_addr<E: Arch>(ctx: Context, s: InputSection, rel: Reloc) -> u64 {
    if rel.thunk_off != u32::MAX {
        bytes::word64(ctx.layout.chunks[s.osec as int].hdr.addr + rel.thunk_off)
    } else {
        match reloc_sym(ctx, s, rel) {
            Some(id) => if E::class_of(rel.r_type) == RelocClass::Branch {
                ctx.branch_addr::<E>(id as int)
            } else {
                ctx.target_addr::<E>(s.obj, rel)
            },
            None => ctx.target_addr::<E>(s.obj, rel),
        }
    }
}

/// The address of a symbol's __thread_ptrs slot, 0 without one.
pub open spec fn tlv_or_zero(ctx: Context, id: int) -> u64 {
    if ctx.slots_of(id).tlv != NO_IDX {
        ctx.addr_of_tlv_ptr(id)
    } else {
        0
    }
}

/// A relocation with everything that applying it needs to know.
pub open spec fn resolved<E: Arch>(ctx: Context, s: InputSection, rel: Reloc) -> ResolvedReloc {
    let sym = reloc_sym(ctx, s, rel);
    ResolvedReloc {
        rel,
        s: reloc_addr::<E>(ctx, s, rel),
        is_imported: match sym {
            Some(id) => ctx.inputs.symtab.syms[id as int].flags.is_imported,
            None => false,
        },
        is_tls: ctx.target_is_tls(s.obj, rel),
        got: match sym {
            Some(id) => crate::output_chunks::eh_frame::got_or_zero(ctx, id as int),
            None => 0,
        },
        tlv_ptr: match sym {
            Some(id) => tlv_or_zero(ctx, id as int),
            None => 0,
        },
        is_sym: sym is Some,
    }
}

/// All relocations of a subsection, resolved.
pub open spec fn all_resolved<E: Arch>(ctx: Context, s: InputSection) -> Seq<ResolvedReloc> {
    s.relocs@.map_values(|r: Reloc| resolved::<E>(ctx, s, r))
}

fn resolve<E: Arch>(ctx: &Context, s: &InputSection, k: usize) -> (r: ResolvedReloc)
    requires
        ctx.wf(),
        ctx.inputs.isec_ok(*s),
        s.osec < ctx.layout.chunks.len(),
        k < s.relocs.len(),
    ensures
        r == resolved::<E>(*ctx, *s, s.relocs[k as int]),
{
    let rel: Reloc = s.relocs[k];
    proof {
        assert(ctx.inputs.reloc_ok(s.obj, s.relocs[k as int]));
        assert(ctx.inputs.obj_ok(ctx.inputs.objs[s.obj as int]));
    }
    let sym: Option<u32> = match rel.target() {
        RelocTarget::Sym(i) => Some(ctx.inputs.objs[s.obj as usize].syms[i as usize]),
        RelocTarget::Section(_) => None,
    };
    let addr: u64 = if rel.thunk_off != u32::MAX {
        bytes::sum64(ctx.layout.chunks[s.osec as usize].hdr.addr, rel.thunk_off as u64)
    } else {
        match sym {
            Some(id) => if E::classify_reloc(rel.r_type) == RelocClass::Branch {
                ctx.branch_target_addr::<E>(id)
            } else {
                ctx.reloc_target_addr::<E>(s.obj, &rel)
            },
            None => ctx.reloc_target_addr::<E>(s.obj, &rel),
        }
    };
    let is_tls: bool = ctx.reloc_target_is_tls(s.obj, &rel);
    match sym {
        Some(id) => {
            let tlv_ptr: u64 = if ctx.sym_aux(id).tlv != NO_IDX {
                ctx.sym_tlv_ptr_addr(id)
            } else {
                0
            };
            ResolvedReloc {
                rel,
                s: addr,
                is_imported: ctx.inputs.symtab.syms[id as usize].flags.is_imported,
                is_tls,
                got: find_got(ctx, id),
                tlv_ptr,
                is_sym: true,
            }
        },
        None => ResolvedReloc {
            rel,
            s: addr,
            is_imported: false,
            is_tls,
            got: 0,
            tlv_ptr: 0,
            is_sym: false,
        },
    }
}

/// The bytes of a subsection at `base` in the output.
pub open spec fn isec_bytes<E: Arch>(ctx: Context, id: u32, base: u64) -> Result<
    Seq<u8>,
    CopyError,
> {
    let s = ctx.inputs.isecs[id as int];
    match E::applied(all_resolved::<E>(ctx, s), base, ctx.layout.tls_begin, s.data@) {
        Ok(b) => Ok(b),
        Err(e) => Err(CopyError::Reloc(id, e)),
    }
}

fn build_isec<E: Arch>(ctx: &Context, id: u32, base: u64) -> (r: Result<Vec<u8>, CopyError>)
    requires
        ctx.wf(),
        id < ctx.inputs.isecs.len(),
        ctx.inputs.isecs[id as int].osec < ctx.layout.chunks.len(),
    ensures
        match r {
            Ok(v) => isec_bytes::<E>(*ctx, id, base) == Ok::<Seq<u8>, CopyError>(v@),
            Err(e) => isec_bytes::<E>(*ctx, id, base) == Err::<Seq<u8>, CopyError>(e),
        },
{
    let s: &InputSection = &ctx.inputs.isecs[id as usize];
    proof {
        assert(ctx.inputs.isec_ok(ctx.inputs.isecs[id as int]));
    }
    let mut rels: Vec<ResolvedReloc> = Vec::new();
    while rels.len() < s.relocs.len()
        invariant
            ctx.wf(),
            ctx.inputs.isec_ok(*s),
            s.osec < ctx.layout.chunks.len(),
            rels.len() <= s.relocs.len(),
            rels@ =~= all_resolved::<E>(*ctx, *s).take(rels.len() as int),
        decreases s.relocs.len() - rels.len(),
    {
        let k: usize = rels.len();
        let x: ResolvedReloc = resolve::<E>(ctx, s, k);
        rels.push(x);
    }
    assert(rels@ =~= all_resolved::<E>(*ctx, *s));
    let mut buf: Vec<u8> = bytes::to_vec(s.data.as_slice());
    match E::apply_relocs(rels.as_slice(), base, ctx.layout.tls_begin, &mut buf) {
        Ok(()) => Ok(buf),
        Err(e) => Err(CopyError::Reloc(id, e)),
    }
}

/// The first `n` entries of a thunk at `addr`.
pub open spec fn thunk_bytes<E: Arch>(ctx: Context, addr: u64, syms: Seq<u32>, n: int) -> Seq<u8>
    decreases n,
{
    if n <= 0 {
        Seq::empty()
    } else {
        thunk_bytes::<E>(ctx, addr, syms, n - 1) + E::thunk(
            bytes::word64(addr + (n - 1) * E::info().thunk_size),
            ctx.branch_addr::<E>(syms[n - 1] as int),
        )
    }
}

fn build_thunk<E: Arch>(ctx: &Context, addr: u64, t: &Thunk) -> (r: Vec<u8>)
    requires
        ctx.wf(),
        thunk_ok(*ctx, *t),
    ensures
        r@ == thunk_bytes::<E>(*ctx, addr, t.syms@, t.syms.len() as int),
{
    let size: u64 = E::get_info().thunk_size;
    let mut buf: Vec<u8> = Vec::new();
    assert(buf@ =~= Seq::empty());
    let mut n: usize = 0;
    while n < t.syms.len()
        invariant
            ctx.wf(),
            thunk_ok(*ctx, *t),
            size == E::info().thunk_size,
            size <= 64,
            n <= t.syms.len(),
            buf@ == thunk_bytes::<E>(*ctx, addr, t.syms@, n as int),
        decreases t.syms.len() - n,
    {
        assert(t.syms[n as int] < ctx.inputs.symtab.syms.len());
        assert(n * size <= 0xffff_ffff * 64) by (nonlinear_arith)
            requires
                n <= 0xffff_ffff,
                size <= 64,
        ;
        let at: u64 = bytes::sum64(addr, n as u64 * size);
        E::push_thunk(&mut buf, at, ctx.branch_target_addr::<E>(t.syms[n]));
        n += 1;
    }
    buf
}

/// An output section with its first `n` thunks written.
pub open spec fn with_thunks<E: Arch>(ctx: Context, c: ChunkView, n: int) -> Result<
    Seq<u8>,
    CopyError,
>
    decreases n,
{
    if n <= 0 {
        if c.hdr.size > u32::MAX {
            Err(CopyError::TooLarge)
        } else {
            Ok(bytes::zeros(c.hdr.size as int))
        }
    } else {
        match with_thunks::<E>(ctx, c, n - 1) {
            Err(e) => Err(e),
            Ok(buf) => {
                let t = c.thunks[n - 1];
                let b = thunk_bytes::<E>(
                    ctx,
                    bytes::word64(c.hdr.addr + t.offset),
                    t.syms,
                    t.syms.len() as int,
                );
                match crate::output_chunks::eh_frame::put_at(buf, t.offset as int, b) {
                    Some(v) => Ok(v),
                    None => Err(CopyError::OutOfBounds),
                }
            },
        }
    }
}

/// An output section with its thunks and its first `n` subsections written.
pub open spec fn with_isecs<E: Arch>(ctx: Context, c: ChunkView, n: int) -> Result<
    Seq<u8>,
    CopyError,
>
    decreases n,
{
    if n <= 0 {
        with_thunks::<E>(ctx, c, c.thunks.len() as int)
    } else {
        match with_isecs::<E>(ctx, c, n - 1) {
            Err(e) => Err(e),
            Ok(buf) => {
                let s = ctx.inputs.isecs[c.isecs[n - 1] as int];
                if s.data.len() == 0 {
                    Ok(buf)
                } else if s.osec >= ctx.layout.chunks.len() {
                    Err(CopyError::OutOfBounds)
                } else {
                    match isec_bytes::<E>(
                        ctx,
                        c.isecs[n - 1],
                        bytes::word64(c.hdr.addr + s.output_offset),
                    ) {
                        Err(e) => Err(e),
                        Ok(b) => match crate::output_chunks::eh_frame::put_at(
                            buf,
                            s.output_offset as int,
                            b,
                        ) {
                            Some(v) => Ok(v),
                            None => Err(CopyError::OutOfBounds),
                        },
                    }
                }
            },
        }
    }
}

proof fn lemma_thunks_err<E: Arch>(ctx: Context, c: ChunkView, e: CopyError, a: int, b: int)
    requires
        0 <= a <= b,
        with_thunks::<E>(ctx, c, a) == Err::<Seq<u8>, CopyError>(e),
    ensures
        with_thunks::<E>(ctx, c, b) == Err::<Seq<u8>, CopyError>(e),
    decreases b - a,
{
    if a < b {
        lemma_thunks_err::<E>(ctx, c, e, a, b - 1);
    }
}

proof fn lemma_isecs_err<E: Arch>(ctx: Context, c: ChunkView, e: CopyError, a: int, b: int)
    requires
        0 <= a <= b,
        with_isecs::<E>(ctx, c, a) == Err::<Seq<u8>, CopyError>(e),
    ensures
        with_isecs::<E>(ctx, c, b) == Err::<Seq<u8>, CopyError>(e),
    decreases b - a,
{
    if a < b {
        lemma_isecs_err::<E>(ctx, c, e, a, b - 1);
    }
}

fn write_thunks<E: Arch>(ctx: &Context, c: &Chunk) -> (r: Result<Vec<u8>, CopyError>)
    requires
        ctx.wf(),
        chunk_ok(*ctx, *c),
    ensures
        match r {
            Ok(v) => with_thunks::<E>(*ctx, c@, c.thunks.len() as int) == Ok::<Seq<u8>, CopyError>(
                v@,
            ),
            Err(e) => with_thunks::<E>(*ctx, c@, c.thunks.len() as int) == Err::<
                Seq<u8>,
                CopyError,
            >(e),
        },
{
    if c.hdr.size > 0xffff_ffff {
        proof {
            lemma_thunks_err::<E>(*ctx, c@, CopyError::TooLarge, 0, c.thunks.len() as int);
        }
        return Err(CopyError::TooLarge);
    }
    let mut buf: Vec<u8> = Vec::new();
    bytes::push_zeros(&mut buf, c.hdr.size as usize);
    assert(buf@ =~= bytes::zeros(c.hdr.size as int));
    let mut n: usize = 0;
    while n < c.thunks.len()
        invariant
            ctx.wf(),
            chunk_ok(*ctx, *c),
            n <= c.thunks.len(),
            with_thunks::<E>(*ctx, c@, n as int) == Ok::<Seq<u8>, CopyError>(buf@),
        decreases c.thunks.len() - n,
    {
        let t: &Thunk = &c.thunks[n];
        assert(c@.thunks[n as int] == t@);
        assert(thunk_ok(*ctx, c.thunks[n as int]));
        let b: Vec<u8> = build_thunk::<E>(ctx, bytes::sum64(c.hdr.addr, t.offset), t);
        if !write_at(&mut buf, t.offset, b.as_slice()) {
            proof {
                lemma_thunks_err::<E>(
                    *ctx,
                    c@,
                    CopyError::OutOfBounds,
                    n + 1,
                    c.thunks.len() as int,
                );
            }
            return Err(CopyError::OutOfBounds);
        }
        n += 1;
    }
    Ok(buf)
}

/// Writes one subsection into its output section.
fn write_isec<E: Arch>(ctx: &Context, c: &Chunk, n: usize, buf: &mut Vec<u8>) -> (r: Result<
    (),
    CopyError,
>)
    requires
        ctx.wf(),
        chunk_ok(*ctx, *c),
        n < c.isecs.len(),
        with_isecs::<E>(*ctx, c@, n as int) == Ok::<Seq<u8>, CopyError>(old(buf)@),
    ensures
        match r {
            Ok(()) => with_isecs::<E>(*ctx, c@, n + 1) == Ok::<Seq<u8>, CopyError>(final(buf)@),
            Err(e) => with_isecs::<E>(*ctx, c@, n + 1) == Err::<Seq<u8>, CopyError>(e),
        },
{
    let id: u32 = c.isecs[n];
    let s: &InputSection = &ctx.inputs.isecs[id as usize];
    if s.data.len() == 0 {
        return Ok(());
    }
    if s.osec as usize >= ctx.layout.chunks.len() {
        return Err(CopyError::OutOfBounds);
    }
    match build_isec::<E>(ctx, id, bytes::sum64(c.hdr.addr, s.output_offset)) {
        Ok(b) => {
            if write_at(buf, s.output_offset, b.as_slice()) {
                Ok(())
            } else {
                Err(CopyError::OutOfBounds)
            }
        },
        Err(e) => Err(e),
    }
}

/// Builds an output section: its thunks, and its subsections with their
/// relocations applied.
fn build_output<E: Arch>(ctx: &Context, c: &Chunk) -> (r: Result<Vec<u8>, CopyError>)
    requires
        ctx.wf(),
        chunk_ok(*ctx, *c),
    ensures
        match r {
            Ok(v) => with_isecs::<E>(*ctx, c@, c.isecs.len() as int) == Ok::<Seq<u8>, CopyError>(
                v@,
            ),
            Err(e) => with_isecs::<E>(*ctx, c@, c.isecs.len() as int) == Err::<Seq<u8>, CopyError>(
                e,
            ),
        },
{
    let ghost end = c.isecs.len() as int;
    let mut buf: Vec<u8> = match write_thunks::<E>(ctx, c) {
        Ok(v) => v,
        Err(e) => {
            proof {
                lemma_isecs_err::<E>(*ctx, c@, e, 0, end);
            }
            return Err(e);
        },
    };
    let mut n: usize = 0;
    while n < c.isecs.len()
        invariant
            ctx.wf(),
            chunk_ok(*ctx, *c),
            n <= c.isecs.len(),
            end == c.isecs.len(),
            with_isecs::<E>(*ctx, c@, n as int) == Ok::<Seq<u8>, CopyError>(buf@),
        decreases c.isecs.len() - n,
    {
        match write_isec::<E>(ctx, c, n, &mut buf) {
            Ok(()) => {},
            Err(e) => {
                proof {
                    lemma_isecs_err::<E>(*ctx, c@, e, n + 1, end);
                }
                return Err(e);
            },
        }
        n += 1;
    }
    Ok(buf)
}

/// The first `n` __stubs entries, at `addr`: each jumps through its symbol's
/// __got slot.
pub open spec fn stub_bytes<E: Arch>(ctx: Context, addr: u64, n: int) -> Seq<u8>
    decreases n,
{
    if n <= 0 {
        Seq::empty()
    } else {
        stub_bytes::<E>(ctx, addr, n - 1) + E::stub(
            bytes::word64(addr + (n - 1) * E::info().stub_size),
            crate::output_chunks::eh_frame::got_or_zero(ctx, ctx.slots.stub_syms[n - 1] as int),
        )
    }
}

fn build_stubs<E: Arch>(ctx: &Context, addr: u64) -> (r: Vec<u8>)
    requires
        ctx.wf(),
        super::fixups::slots_exist(*ctx),
        ctx.slots.stub_syms.len() <= u32::MAX,
    ensures
        r@ == stub_bytes::<E>(*ctx, addr, ctx.slots.stub_syms.len() as int),
{
    let size: u64 = E::get_info().stub_size;
    let mut buf: Vec<u8> = Vec::new();
    assert(buf@ =~= Seq::empty());
    let mut n: usize = 0;
    while n < ctx.slots.stub_syms.len()
        invariant
            ctx.wf(),
            super::fixups::slots_exist(*ctx),
            ctx.slots.stub_syms.len() <= u32::MAX,
            size == E::info().stub_size,
            size <= 64,
            n <= ctx.slots.stub_syms.len(),
            buf@ == stub_bytes::<E>(*ctx, addr, n as int),
        decreases ctx.slots.stub_syms.len() - n,
    {
        assert(ctx.slots.stub_syms[n as int] < ctx.inputs.symtab.syms.len());
        assert(n * size <= 0xffff_ffff * 64) by (nonlinear_arith)
            requires
                n <= 0xffff_ffff,
                size <= 64,
        ;
        let at: u64 = bytes::sum64(addr, n as u64 * size);
        E::push_stub(&mut buf, at, find_got(ctx, ctx.slots.stub_syms[n]));
        n += 1;
    }
    buf
}

/// The address of the slot that selector stubs call through, 0 without one.
pub open spec fn msgsend_slot(ctx: Context) -> u64 {
    match ctx.slots.objc_msgsend_sym {
        Some(id) => if id < ctx.inputs.symtab.syms.len() {
            crate::output_chunks::eh_frame::got_or_zero(ctx, id as int)
        } else {
            0
        },
        None => 0,
    }
}

/// The first `n` __objc_stubs entries, at `addr`.
pub open spec fn objc_stub_bytes<E: Arch>(ctx: Context, addr: u64, n: int) -> Seq<u8>
    decreases n,
{
    if n <= 0 {
        Seq::empty()
    } else {
        objc_stub_bytes::<E>(ctx, addr, n - 1) + E::objc_stub(
            bytes::word64(addr + (n - 1) * E::info().objc_stub_size),
            ctx.slot_addr(ctx.layout.objc_selrefs_chunk, (n - 1) as u32, 8),
            msgsend_slot(ctx),
        )
    }
}

fn build_objc_stubs<E: Arch>(ctx: &Context, addr: u64) -> (r: Vec<u8>)
    requires
        ctx.wf(),
        super::fixups::slots_exist(*ctx),
    ensures
        r@ == objc_stub_bytes::<E>(*ctx, addr, ctx.slots.objc_stubs.len() as int),
{
    let size: u64 = E::get_info().objc_stub_size;
    let msgsend: u64 = match ctx.slots.objc_msgsend_sym {
        Some(id) => if (id as usize) < ctx.inputs.symtab.syms.len() {
            find_got(ctx, id)
        } else {
            0
        },
        None => 0,
    };
    let mut buf: Vec<u8> = Vec::new();
    assert(buf@ =~= Seq::empty());
    let mut n: usize = 0;
    while n < ctx.slots.objc_stubs.len()
        invariant
            ctx.wf(),
            super::fixups::slots_exist(*ctx),
            size == E::info().objc_stub_size,
            size <= 64,
            msgsend == msgsend_slot(*ctx),
            n <= ctx.slots.objc_stubs.len(),
            buf@ == objc_stub_bytes::<E>(*ctx, addr, n as int),
        decreases ctx.slots.objc_stubs.len() - n,
    {
        assert(n * size <= 0xffff_ffff * 64) by (nonlinear_arith)
            requires
                n <= 0xffff_ffff,
                size <= 64,
        ;
        let at: u64 = bytes::sum64(addr, n as u64 * size);
        let sel: u64 = ctx.find_slot(ctx.layout.objc_selrefs_chunk, n as u32, 8);
        E::push_objc_stub(&mut buf, at, sel, msgsend);
        n += 1;
    }
    buf
}

/// The first `n` slots that hold symbols' addresses. dyld fills those of
/// imports.
pub open spec fn slot_bytes<E: Arch>(ctx: Context, syms: Seq<u32>, n: int) -> Seq<u8>
    decreases n,
{
    if n <= 0 {
        Seq::empty()
    } else {
        let id = syms[n - 1] as int;
        slot_bytes::<E>(ctx, syms, n - 1) + bytes::le64(
            if ctx.inputs.symtab.syms[id].flags.is_imported {
                0
            } else {
                ctx.addr_of_sym::<E>(id)
            },
        )
    }
}

fn build_slots<E: Arch>(ctx: &Context, syms: &Vec<u32>) -> (r: Vec<u8>)
    requires
        ctx.wf(),
        forall|i: int| 0 <= i < syms.len() ==> (#[trigger] syms[i]) < ctx.inputs.symtab.syms.len(),
    ensures
        r@ == slot_bytes::<E>(*ctx, syms@, syms.len() as int),
{
    let mut buf: Vec<u8> = Vec::new();
    assert(buf@ =~= Seq::empty());
    let mut n: usize = 0;
    while n < syms.len()
        invariant
            ctx.wf(),
            forall|i: int|
                0 <= i < syms.len() ==> (#[trigger] syms[i]) < ctx.inputs.symtab.syms.len(),
            n <= syms.len(),
            buf@ == slot_bytes::<E>(*ctx, syms@, n as int),
        decreases syms.len() - n,
    {
        let id: u32 = syms[n];
        let val: u64 = if ctx.inputs.symtab.syms[id as usize].flags.is_imported {
            0
        } else {
            ctx.sym_addr::<E>(id)
        };
        bytes::push64(&mut buf, val);
        n += 1;
    }
    buf
}

/// The offsets of the first `n` initializers in the image.
pub open spec fn init_bytes(ctx: Context, n: int) -> Seq<u8>
    decreases n,
{
    if n <= 0 {
        Seq::empty()
    } else {
        let f = ctx.init_funcs[n - 1];
        init_bytes(ctx, n - 1) + bytes::le32(
            bytes::word32(
                bytes::word64(
                    bytes::word64(ctx.addr_of_isec(f.0 as int) + f.1) - ctx.args.sw.pagezero_size,
                ) as int,
            ),
        )
    }
}

fn build_inits(ctx: &Context) -> (r: Vec<u8>)
    requires
        ctx.wf(),
        forall|i: int|
            0 <= i < ctx.init_funcs.len() ==> (#[trigger] ctx.init_funcs[i]).0
                < ctx.inputs.isecs.len(),
    ensures
        r@ == init_bytes(*ctx, ctx.init_funcs.len() as int),
{
    let mut buf: Vec<u8> = Vec::new();
    assert(buf@ =~= Seq::empty());
    let mut n: usize = 0;
    while n < ctx.init_funcs.len()
        invariant
            ctx.wf(),
            forall|i: int|
                0 <= i < ctx.init_funcs.len() ==> (#[trigger] ctx.init_funcs[i]).0
                    < ctx.inputs.isecs.len(),
            n <= ctx.init_funcs.len(),
            buf@ == init_bytes(*ctx, n as int),
        decreases ctx.init_funcs.len() - n,
    {
        assert(ctx.init_funcs[n as int].0 < ctx.inputs.isecs.len());
        let f: (usize, u64) = ctx.init_funcs[n];
        let addr: u64 = bytes::sum64(ctx.isec_addr(f.0), f.1);
        bytes::push32(&mut buf, bytes::low32(bytes::distance(addr, ctx.args.sw.pagezero_size)));
        n += 1;
    }
    buf
}

/// The first `n` synthesized selector references.
pub open spec fn selref_bytes(offs: Seq<u64>, methname: u64, n: int) -> Seq<u8>
    decreases n,
{
    if n <= 0 {
        Seq::empty()
    } else {
        selref_bytes(offs, methname, n - 1) + bytes::le64(bytes::word64(methname + offs[n - 1]))
    }
}

fn build_selrefs(offs: &Vec<u64>, methname: u64) -> (r: Vec<u8>)
    ensures
        r@ == selref_bytes(offs@, methname, offs.len() as int),
{
    let mut buf: Vec<u8> = Vec::new();
    assert(buf@ =~= Seq::empty());
    let mut n: usize = 0;
    while n < offs.len()
        invariant
            n <= offs.len(),
            buf@ == selref_bytes(offs@, methname, n as int),
        decreases offs.len() - n,
    {
        bytes::push64(&mut buf, bytes::sum64(methname, offs[n]));
        n += 1;
    }
    buf
}

/// The unwind table with its first `n` personality cells filled: their array
/// stands where the header says.
pub open spec fn patched_unwind(ctx: Context, data: Seq<u8>, pers: Seq<u32>, n: int) -> Option<
    Seq<u8>,
>
    decreases n,
{
    if n <= 0 {
        Some(data)
    } else {
        match patched_unwind(ctx, data, pers, n - 1) {
            None => None,
            Some(d) => if data.len() < 16 {
                None
            } else {
                crate::output_chunks::eh_frame::put_at(
                    d,
                    bytes::u32_at(data, 12) + 4 * (n - 1),
                    bytes::le32(
                        bytes::word32(
                            bytes::word64(
                                crate::output_chunks::eh_frame::got_or_zero(
                                    ctx,
                                    pers[n - 1] as int,
                                ) - ctx.args.sw.pagezero_size,
                            ) as int,
                        ),
                    ),
                )
            },
        }
    }
}

proof fn lemma_unwind_none(ctx: Context, data: Seq<u8>, pers: Seq<u32>, a: int, b: int)
    requires
        0 <= a <= b,
        patched_unwind(ctx, data, pers, a) is None,
    ensures
        patched_unwind(ctx, data, pers, b) is None,
    decreases b - a,
{
    if a < b {
        lemma_unwind_none(ctx, data, pers, a, b - 1);
    }
}

fn build_unwind(ctx: &Context, data: &Vec<u8>, pers: &Vec<u32>) -> (r: Option<Vec<u8>>)
    requires
        ctx.wf(),
        forall|i: int| 0 <= i < pers.len() ==> (#[trigger] pers[i]) < ctx.inputs.symtab.syms.len(),
    ensures
        match r {
            Some(v) => patched_unwind(*ctx, data@, pers@, pers.len() as int) == Some(v@),
            None => patched_unwind(*ctx, data@, pers@, pers.len() as int) is None,
        },
{
    let ghost end = pers.len() as int;
    let mut d: Vec<u8> = bytes::to_vec(data.as_slice());
    let mut n: usize = 0;
    while n < pers.len()
        invariant
            ctx.wf(),
            forall|i: int|
                0 <= i < pers.len() ==> (#[trigger] pers[i]) < ctx.inputs.symtab.syms.len(),
            n <= pers.len(),
            end == pers.len(),
            patched_unwind(*ctx, data@, pers@, n as int) == Some(d@),
        decreases pers.len() - n,
    {
        if data.len() < 16 {
            proof {
                lemma_unwind_none(*ctx, data@, pers@, n + 1, end);
            }
            return None;
        }
        let off: u128 = bytes::get32(data.as_slice(), 12) as u128 + 4 * n as u128;
        let val: u64 = bytes::distance(find_got(ctx, pers[n]), ctx.args.sw.pagezero_size);
        if off + 4 > d.len() as u128 {
            proof {
                lemma_unwind_none(*ctx, data@, pers@, n + 1, end);
            }
            return None;
        }
        bytes::put32(&mut d, off as usize, bytes::low32(val));
        n += 1;
    }
    Some(d)
}

/// The first `n` data-in-code entries.
pub open spec fn dice_bytes(dice: Seq<(u64, u64, u64)>, n: int) -> Seq<u8>
    decreases n,
{
    if n <= 0 {
        Seq::empty()
    } else {
        let (off, len, kind) = dice[n - 1];
        dice_bytes(dice, n - 1) + bytes::le32(bytes::word32(off as int)) + bytes::le16(len as u16)
            + bytes::le16(kind as u16)
    }
}

fn build_dice(dice: &Vec<(u64, u64, u64)>) -> (r: Vec<u8>)
    ensures
        r@ == dice_bytes(dice@, dice.len() as int),
{
    let mut buf: Vec<u8> = Vec::new();
    assert(buf@ =~= Seq::empty());
    let mut n: usize = 0;
    while n < dice.len()
        invariant
            n <= dice.len(),
            buf@ == dice_bytes(dice@, n as int),
        decreases dice.len() - n,
    {
        let (off, len, kind): (u64, u64, u64) = dice[n];
        bytes::push32(&mut buf, bytes::low32(off));
        bytes::push16(&mut buf, len as u16);
        bytes::push16(&mut buf, kind as u16);
        n += 1;
    }
    buf
}

/// The entry of a slot in the indirect symbol table: its symbol's index, or
/// that of a symbol that stays inside the image.
pub open spec fn indirect_entry(indices: Seq<u32>, id: u32, local: bool) -> u32 {
    if local || indices[id as int] == u32::MAX {
        INDIRECT_SYMBOL_LOCAL
    } else {
        indices[id as int]
    }
}

/// The entries of the first `n` slots. A __got slot that dyld never rebinds
/// names no symbol.
pub open spec fn indirect_bytes(
    ctx: Context,
    indices: Seq<u32>,
    syms: Seq<u32>,
    got: bool,
    n: int,
) -> Seq<u8>
    decreases n,
{
    if n <= 0 {
        Seq::empty()
    } else {
        let id = syms[n - 1];
        let local = got && !(ctx.inputs.symtab.syms[id as int].flags.is_imported
            || ctx.weak_coalesced(id as int));
        indirect_bytes(ctx, indices, syms, got, n - 1) + bytes::le32(
            indirect_entry(indices, id, local),
        )
    }
}

fn build_indirect(ctx: &Context, indices: &Vec<u32>, syms: &Vec<u32>, got: bool) -> (r: Vec<u8>)
    requires
        ctx.wf(),
        indices.len() == ctx.inputs.symtab.syms.len(),
        forall|i: int| 0 <= i < syms.len() ==> (#[trigger] syms[i]) < ctx.inputs.symtab.syms.len(),
    ensures
        r@ == indirect_bytes(*ctx, indices@, syms@, got, syms.len() as int),
{
    let mut buf: Vec<u8> = Vec::new();
    assert(buf@ =~= Seq::empty());
    let mut n: usize = 0;
    while n < syms.len()
        invariant
            ctx.wf(),
            indices.len() == ctx.inputs.symtab.syms.len(),
            forall|i: int|
                0 <= i < syms.len() ==> (#[trigger] syms[i]) < ctx.inputs.symtab.syms.len(),
            n <= syms.len(),
            buf@ == indirect_bytes(*ctx, indices@, syms@, got, n as int),
        decreases syms.len() - n,
    {
        let id: u32 = syms[n];
        let local: bool = got && !ctx.binds_at_runtime(id);
        let val: u32 = if local || indices[id as usize] == u32::MAX {
            INDIRECT_SYMBOL_LOCAL
        } else {
            indices[id as usize]
        };
        bytes::push32(&mut buf, val);
        n += 1;
    }
    buf
}

/// True when there is a section of lazy pointers.
pub open spec fn has_lazy_ptrs<E: Arch>(ctx: Context) -> bool {
    ctx.is_lazy::<E>() && ctx.layout.lazy_ptrs_chunk < ctx.layout.chunks.len()
}

/// The entries of all slots: of stubs, of __got, and of lazy pointers, where
/// there are any.
pub open spec fn all_indirect<E: Arch>(ctx: Context, indices: Seq<u32>) -> Seq<u8> {
    let stubs = ctx.slots.stub_syms@;
    let got = ctx.slots.got_syms@;
    indirect_bytes(ctx, indices, stubs, false, stubs.len() as int) + indirect_bytes(
        ctx,
        indices,
        got,
        true,
        got.len() as int,
    ) + if has_lazy_ptrs::<E>(ctx) {
        indirect_bytes(ctx, indices, stubs, false, stubs.len() as int)
    } else {
        Seq::empty()
    }
}

fn build_all_indirect<E: Arch>(ctx: &Context, indices: &Vec<u32>) -> (r: Vec<u8>)
    requires
        ctx.wf(),
        super::fixups::slots_exist(*ctx),
        indices.len() == ctx.inputs.symtab.syms.len(),
    ensures
        r@ == all_indirect::<E>(*ctx, indices@),
{
    let mut buf: Vec<u8> = build_indirect(ctx, indices, &ctx.slots.stub_syms, false);
    let got: Vec<u8> = build_indirect(ctx, indices, &ctx.slots.got_syms, true);
    bytes::append(&mut buf, got.as_slice());
    if ctx.lazy_binding::<E>() && ctx.layout.lazy_ptrs_chunk < ctx.layout.chunks.len() {
        let lazy: Vec<u8> = build_indirect(ctx, indices, &ctx.slots.stub_syms, false);
        bytes::append(&mut buf, lazy.as_slice());
    } else {
        assert(buf@ =~= all_indirect::<E>(*ctx, indices@));
    }
    buf
}

/// The address of the chunk of synthesized selector names, 0 without one.
pub open spec fn methname_addr(ctx: Context) -> u64 {
    let i = ctx.layout.objc_methname_chunk;
    if i < ctx.layout.chunks.len() {
        ctx.layout.chunks[i as int].hdr.addr
    } else {
        0
    }
}

/// The contents of a chunk, as far as it is not written on its own.
pub open spec fn chunk_bytes<E: Arch>(ctx: Context, t: Tables, c: ChunkView) -> Result<
    Seq<u8>,
    CopyError,
> {
    match c.kind {
        ChunkKind::Output => with_isecs::<E>(ctx, c, c.isecs.len() as int),
        ChunkKind::Stubs => Ok(
            stub_bytes::<E>(ctx, c.hdr.addr, ctx.slots.stub_syms.len() as int),
        ),
        ChunkKind::Got => Ok(
            slot_bytes::<E>(ctx, ctx.slots.got_syms@, ctx.slots.got_syms.len() as int),
        ),
        ChunkKind::ThreadPtrs => Ok(
            slot_bytes::<E>(
                ctx,
                ctx.slots.thread_ptr_syms@,
                ctx.slots.thread_ptr_syms.len() as int,
            ),
        ),
        ChunkKind::ObjcStubs => Ok(
            objc_stub_bytes::<E>(ctx, c.hdr.addr, ctx.slots.objc_stubs.len() as int),
        ),
        ChunkKind::ObjcMethname => Ok(ctx.slots.objc_methname_data@),
        ChunkKind::ObjcSelrefs => Ok(
            selref_bytes(
                ctx.slots.objc_methname_offs@,
                methname_addr(ctx),
                ctx.slots.objc_methname_offs.len() as int,
            ),
        ),
        ChunkKind::ObjcImageInfo => Ok(bytes::le32(0) + bytes::le32(t.image_flags)),
        ChunkKind::SectCreate => Ok(c.contents),
        ChunkKind::InitOffsets => Ok(init_bytes(ctx, ctx.init_funcs.len() as int)),
        ChunkKind::UnwindInfo => match patched_unwind(
            ctx,
            t.unwind@,
            t.personalities@,
            t.personalities.len() as int,
        ) {
            Some(d) => Ok(d),
            None => Err(CopyError::BadUnwind),
        },
        ChunkKind::EhFrame => if c.hdr.size > u32::MAX {
            Err(CopyError::TooLarge)
        } else {
            match crate::output_chunks::eh_frame::eh_frame_bytes(
                ctx,
                c.hdr.addr,
                c.hdr.size as int,
            ) {
                Some(d) => Ok(d),
                None => Err(CopyError::BadFrame),
            }
        },
        ChunkKind::RebaseInfo => Ok(t.rebase@),
        ChunkKind::BindInfo => Ok(t.bind@),
        ChunkKind::ChainedFixups => Ok(t.chained@),
        ChunkKind::ExportTrie => Ok(t.trie@),
        ChunkKind::SplitInfo => Ok(t.split@),
        ChunkKind::FunctionStarts => Ok(t.starts@),
        ChunkKind::DataInCode => Ok(dice_bytes(t.dice@, t.dice.len() as int)),
        ChunkKind::IndirectSymtab => Ok(all_indirect::<E>(ctx, t.symtab.output_sym_indices@)),
        _ => Ok(Seq::empty()),
    }
}

/// True when everything that chunks are made of exists.
pub open spec fn parts_exist(ctx: Context, t: Tables) -> bool {
    &&& ctx.wf()
    &&& super::fixups::slots_exist(ctx)
    &&& ctx.slots.stub_syms.len() <= u32::MAX
    &&& tables_ok(ctx, t)
    &&& forall|i: int|
        0 <= i < ctx.init_funcs.len() ==> (#[trigger] ctx.init_funcs[i]).0
            < ctx.inputs.isecs.len()
    &&& forall|i: int|
        0 <= i < ctx.layout.chunks.len() ==> chunk_ok(ctx, #[trigger] ctx.layout.chunks[i])
}

/// Builds the contents of a chunk. The mach header, the symbol and string
/// tables and the signature are written on their own.
pub fn copy_chunk<E: Arch>(ctx: &Context, t: &Tables, c: &Chunk) -> (r: Result<Vec<u8>, CopyError>)
    requires
        parts_exist(*ctx, *t),
        chunk_ok(*ctx, *c),
    ensures
        match r {
            Ok(v) => chunk_bytes::<E>(*ctx, *t, c@) == Ok::<Seq<u8>, CopyError>(v@),
            Err(e) => chunk_bytes::<E>(*ctx, *t, c@) == Err::<Seq<u8>, CopyError>(e),
        },
{
    match c.kind {
        ChunkKind::Output => build_output::<E>(ctx, c),
        ChunkKind::Stubs => Ok(build_stubs::<E>(ctx, c.hdr.addr)),
        ChunkKind::Got => Ok(build_slots::<E>(ctx, &ctx.slots.got_syms)),
        ChunkKind::ThreadPtrs => Ok(build_slots::<E>(ctx, &ctx.slots.thread_ptr_syms)),
        ChunkKind::ObjcStubs => Ok(build_objc_stubs::<E>(ctx, c.hdr.addr)),
        ChunkKind::ObjcMethname => Ok(bytes::to_vec(ctx.slots.objc_methname_data.as_slice())),
        ChunkKind::ObjcSelrefs => {
            let i: usize = ctx.layout.objc_methname_chunk;
            let methname: u64 = if i < ctx.layout.chunks.len() {
                ctx.layout.chunks[i].hdr.addr
            } else {
                0
            };
            Ok(build_selrefs(&ctx.slots.objc_methname_offs, methname))
        },
        ChunkKind::ObjcImageInfo => {
            let mut buf: Vec<u8> = Vec::new();
            bytes::push32(&mut buf, 0);
            bytes::push32(&mut buf, t.image_flags);
            assert(buf@ =~= bytes::le32(0) + bytes::le32(t.image_flags));
            Ok(buf)
        },
        ChunkKind::SectCreate => Ok(bytes::to_vec(c.contents.as_slice())),
        ChunkKind::InitOffsets => Ok(build_inits(ctx)),
        ChunkKind::UnwindInfo => match build_unwind(ctx, &t.unwind, &t.personalities) {
            Some(d) => Ok(d),
            None => Err(CopyError::BadUnwind),
        },
        ChunkKind::EhFrame => {
            if c.hdr.size > 0xffff_ffff {
                return Err(CopyError::TooLarge);
            }
            match encode_eh_frame(ctx, c.hdr.addr, c.hdr.size as u32) {
                Some(d) => Ok(d),
                None => Err(CopyError::BadFrame),
            }
        },
        ChunkKind::RebaseInfo => Ok(bytes::to_vec(t.rebase.as_slice())),
        ChunkKind::BindInfo => Ok(bytes::to_vec(t.bind.as_slice())),
        ChunkKind::ChainedFixups => Ok(bytes::to_vec(t.chained.as_slice())),
        ChunkKind::ExportTrie => Ok(bytes::to_vec(t.trie.as_slice())),
        ChunkKind::SplitInfo => Ok(bytes::to_vec(t.split.as_slice())),
        ChunkKind::FunctionStarts => Ok(bytes::to_vec(t.starts.as_slice())),
        ChunkKind::DataInCode => Ok(build_dice(&t.dice)),
        ChunkKind::IndirectSymtab => Ok(
            build_all_indirect::<E>(ctx, &t.symtab.output_sym_indices),
        ),
        ChunkKind::MachHeader | ChunkKind::Symtab | ChunkKind::Strtab
        | ChunkKind::CodeSignature => {
            let empty: Vec<u8> = Vec::new();
            assert(empty@ =~= Seq::empty());
            Ok(empty)
        },
    }
}

} // verus!
