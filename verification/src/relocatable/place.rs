//! The layout of a relocatable output.
use super::contents::{build_records, copy_section};
use super::extras::{ExtraSection, ExtraView, RelocatableError};
use crate::arch::Arch;
use crate::context::Context;
use crate::macho::MachRel;
use crate::output_chunks::header::{Chunk, ChunkKind, ChunkView, HeaderView};
use crate::passes::layout::Cursor;
use crate::util::{self, bytes, find_place};
use vstd::prelude::*;

verus! {

/// The output sections among the first `n` chunks, those with or those
/// without file contents.
pub open spec fn listed(chunks: Seq<ChunkView>, zerofill: bool, n: int) -> Seq<usize>
    decreases n,
{
    if n <= 0 {
        Seq::empty()
    } else {
        let c = chunks[n - 1];
        if c.kind == ChunkKind::Output && c.hdr.zerofill() == zerofill {
            listed(chunks, zerofill, n - 1).push((n - 1) as usize)
        } else {
            listed(chunks, zerofill, n - 1)
        }
    }
}

/// The output sections, those without file contents last: an object's file
/// image mirrors its address space.
pub open spec fn section_list(chunks: Seq<ChunkView>) -> Seq<usize> {
    listed(chunks, false, chunks.len() as int) + listed(chunks, true, chunks.len() as int)
}

fn push_listed(chunks: &Vec<Chunk>, zerofill: bool, list: &mut Vec<usize>)
    requires
        forall|i: int| 0 <= i < old(list).len() ==> (#[trigger] old(list)[i]) < chunks.len(),
    ensures
        final(list)@ == old(list)@ + listed(
            crate::output_chunks::header::chunk_views(chunks@),
            zerofill,
            chunks.len() as int,
        ),
        forall|i: int| 0 <= i < final(list).len() ==> (#[trigger] final(list)[i]) < chunks.len(),
{
    let ghost cv = crate::output_chunks::header::chunk_views(chunks@);
    let ghost start = list@;
    assert(start + Seq::<usize>::empty() =~= start);
    let mut n: usize = 0;
    while n < chunks.len()
        invariant
            n <= chunks.len(),
            cv == crate::output_chunks::header::chunk_views(chunks@),
            list@ == start + listed(cv, zerofill, n as int),
            forall|i: int| 0 <= i < list.len() ==> (#[trigger] list[i]) < chunks.len(),
        decreases chunks.len() - n,
    {
        assert(cv[n as int] == chunks[n as int]@);
        let ghost a = listed(cv, zerofill, n as int);
        if chunks[n].kind == ChunkKind::Output && chunks[n].hdr.is_zerofill() == zerofill {
            list.push(n);
            assert((start + a).push(n) =~= start + a.push(n));
        }
        n += 1;
    }
}

/// Lists the output sections.
pub fn list_sections(chunks: &Vec<Chunk>) -> (list: Vec<usize>)
    ensures
        list@ == section_list(crate::output_chunks::header::chunk_views(chunks@)),
        forall|i: int| 0 <= i < list.len() ==> (#[trigger] list[i]) < chunks.len(),
{
    let mut list: Vec<usize> = Vec::new();
    push_listed(chunks, false, &mut list);
    assert(list@ =~= listed(
        crate::output_chunks::header::chunk_views(chunks@),
        false,
        chunks.len() as int,
    ));
    push_listed(chunks, true, &mut list);
    list
}

/// A chunk at an address.
pub open spec fn at_addr(c: ChunkView, addr: u64) -> ChunkView {
    ChunkView { hdr: HeaderView { addr, ..c.hdr }, ..c }
}

/// The first `n` listed sections placed one behind the other from address 0
/// on.
pub open spec fn merged_to(chunks: Seq<ChunkView>, list: Seq<usize>, n: int) -> Option<Cursor>
    decreases n,
{
    if n <= 0 {
        Some(Cursor { chunks, at: 0 })
    } else {
        match merged_to(chunks, list, n - 1) {
            None => None,
            Some(p) => {
                let i = list[n - 1] as int;
                let c = p.chunks[i];
                match crate::passes::layout::place(p.at, c.hdr.p2align) {
                    None => None,
                    Some(at) => if at + c.hdr.size > u64::MAX {
                        None
                    } else {
                        Some(
                            Cursor {
                                chunks: p.chunks.update(i, at_addr(c, at)),
                                at: (at + c.hdr.size) as u64,
                            },
                        )
                    },
                }
            },
        }
    }
}

proof fn lemma_merged_none(chunks: Seq<ChunkView>, list: Seq<usize>, a: int, b: int)
    requires
        a <= b,
        merged_to(chunks, list, a) is None,
    ensures
        merged_to(chunks, list, b) is None,
    decreases b - a,
{
    if a < b && b > 0 {
        lemma_merged_none(chunks, list, a, b - 1);
    }
}

fn set_addr(c: &mut Chunk, addr: u64)
    ensures
        final(c)@ == at_addr(old(c)@, addr),
        final(c).isecs == old(c).isecs,
{
    c.hdr.addr = addr;
}

/// Places the listed sections. Returns the end of the last one.
pub fn place_merged(chunks: &mut Vec<Chunk>, list: &Vec<usize>) -> (r: Option<u64>)
    requires
        forall|i: int| 0 <= i < list.len() ==> (#[trigger] list[i]) < old(chunks).len(),
    ensures
        ({
            let want = merged_to(
                crate::output_chunks::header::chunk_views(old(chunks)@),
                list@,
                list.len() as int,
            );
            match r {
                Some(at) => want == Some(
                    (Cursor {
                        chunks: crate::output_chunks::header::chunk_views(final(chunks)@),
                        at,
                    }),
                ),
                None => want is None,
            }
        }),
        crate::passes::layout::same_lists(old(chunks)@, final(chunks)@),
{
    let ghost start = crate::output_chunks::header::chunk_views(chunks@);
    let mut at: u64 = 0;
    let mut n: usize = 0;
    while n < list.len()
        invariant
            n <= list.len(),
            start == crate::output_chunks::header::chunk_views(old(chunks)@),
            crate::passes::layout::same_lists(old(chunks)@, chunks@),
            forall|i: int| 0 <= i < list.len() ==> (#[trigger] list[i]) < chunks.len(),
            merged_to(start, list@, n as int) == Some(
                (Cursor { chunks: crate::output_chunks::header::chunk_views(chunks@), at }),
            ),
        decreases list.len() - n,
    {
        let i: usize = list[n];
        let ghost before = crate::output_chunks::header::chunk_views(chunks@);
        assert(before[i as int] == chunks[i as int]@);
        let p2: u32 = chunks[i].hdr.p2align;
        let found: Option<u64> = if p2 < 64 {
            find_place(at, p2 as u8)
        } else {
            None
        };
        let size: u64 = chunks[i].hdr.size;
        let p: u64 = match found {
            Some(p) => p,
            None => {
                proof {
                    lemma_merged_none(start, list@, n + 1, list.len() as int);
                }
                return None;
            },
        };
        if size > u64::MAX - p {
            proof {
                lemma_merged_none(start, list@, n + 1, list.len() as int);
            }
            return None;
        }
        set_addr(&mut chunks[i], p);
        assert(crate::output_chunks::header::chunk_views(chunks@) =~= before.update(
            i as int,
            at_addr(before[i as int], p),
        ));
        at = p + size;
        n += 1;
    }
    Some(at)
}

/// The section ordinals after the first `n` listed sections are numbered.
pub open spec fn ordinals_to(nchunks: int, list: Seq<usize>, n: int) -> Seq<u8>
    decreases n,
{
    if n <= 0 {
        Seq::new(nchunks as nat, |i: int| 0u8)
    } else {
        ordinals_to(nchunks, list, n - 1).update(list[n - 1] as int, n as u8)
    }
}

/// Numbers the listed sections from one on.
pub fn number_sections(nchunks: usize, list: &Vec<usize>) -> (r: Vec<u8>)
    requires
        list.len() <= 255,
        forall|i: int| 0 <= i < list.len() ==> (#[trigger] list[i]) < nchunks,
    ensures
        r@ == ordinals_to(nchunks as int, list@, list.len() as int),
{
    let mut r: Vec<u8> = Vec::new();
    while r.len() < nchunks
        invariant
            r.len() <= nchunks,
            forall|i: int| 0 <= i < r.len() ==> #[trigger] r[i] == 0,
        decreases nchunks - r.len(),
    {
        r.push(0);
    }
    assert(r@ =~= ordinals_to(nchunks as int, list@, 0));
    let mut n: usize = 0;
    while n < list.len()
        invariant
            n <= list.len(),
            list.len() <= 255,
            r.len() == nchunks,
            forall|i: int| 0 <= i < list.len() ==> (#[trigger] list[i]) < nchunks,
            r@ == ordinals_to(nchunks as int, list@, n as int),
        decreases list.len() - n,
    {
        r.set(list[n], n as u8 + 1);
        n += 1;
    }
    r
}

/// The relocation records of the first `n` listed sections.
pub open spec fn records_to<E: Arch>(
    ctx: Context,
    ords: Seq<u8>,
    indices: Seq<u32>,
    list: Seq<usize>,
    n: int,
) -> Result<Seq<Seq<MachRel>>, RelocatableError>
    decreases n,
{
    if n <= 0 {
        Ok(Seq::empty())
    } else {
        match records_to::<E>(ctx, ords, indices, list, n - 1) {
            Err(e) => Err(e),
            Ok(a) => {
                let ids = ctx.layout.chunks[list[n - 1] as int].isecs@;
                match super::contents::list_records::<E>(
                    ctx.inputs,
                    ords,
                    indices,
                    ids,
                    ids.len() as int,
                ) {
                    Err(e) => Err(e),
                    Ok(b) => Ok(a.push(b)),
                }
            },
        }
    }
}

/// The contents of the first `n` listed sections; empty for those without
/// file contents.
pub open spec fn contents_to<E: Arch>(ctx: Context, list: Seq<usize>, n: int) -> Result<
    Seq<Seq<u8>>,
    RelocatableError,
>
    decreases n,
{
    if n <= 0 {
        Ok(Seq::empty())
    } else {
        match contents_to::<E>(ctx, list, n - 1) {
            Err(e) => Err(e),
            Ok(a) => {
                let c = ctx.layout.chunks[list[n - 1] as int];
                if c@.hdr.zerofill() {
                    Ok(a.push(Seq::empty()))
                } else if c.hdr.size > u32::MAX {
                    Err(RelocatableError::TooLarge)
                } else {
                    match super::contents::copied_to::<E>(
                        ctx,
                        c.hdr.addr,
                        c.hdr.size,
                        c.isecs@,
                        c.isecs.len() as int,
                    ) {
                        Err(e) => Err(e),
                        Ok(b) => Ok(a.push(b)),
                    }
                }
            },
        }
    }
}

/// A list of lists of records.
pub open spec fn record_views(v: Seq<Vec<MachRel>>) -> Seq<Seq<MachRel>> {
    v.map_values(|r: Vec<MachRel>| r@)
}

proof fn lemma_records_err<E: Arch>(
    ctx: Context,
    ords: Seq<u8>,
    indices: Seq<u32>,
    list: Seq<usize>,
    e: RelocatableError,
    a: int,
    b: int,
)
    requires
        a <= b,
        records_to::<E>(ctx, ords, indices, list, a) == Err::<Seq<Seq<MachRel>>, RelocatableError>(
            e,
        ),
    ensures
        records_to::<E>(ctx, ords, indices, list, b) == Err::<Seq<Seq<MachRel>>, RelocatableError>(
            e,
        ),
    decreases b - a,
{
    if a < b && b > 0 {
        lemma_records_err::<E>(ctx, ords, indices, list, e, a, b - 1);
    }
}

proof fn lemma_contents_err<E: Arch>(
    ctx: Context,
    list: Seq<usize>,
    e: RelocatableError,
    a: int,
    b: int,
)
    requires
        a <= b,
        contents_to::<E>(ctx, list, a) == Err::<Seq<Seq<u8>>, RelocatableError>(e),
    ensures
        contents_to::<E>(ctx, list, b) == Err::<Seq<Seq<u8>>, RelocatableError>(e),
    decreases b - a,
{
    if a < b && b > 0 {
        lemma_contents_err::<E>(ctx, list, e, a, b - 1);
    }
}

/// Regenerates the relocations of all listed sections.
pub fn build_all_records<E: Arch>(
    ctx: &Context,
    ords: &Vec<u8>,
    indices: &Vec<u32>,
    list: &Vec<usize>,
) -> (r: Result<Vec<Vec<MachRel>>, RelocatableError>)
    requires
        ctx.wf(),
        indices.len() == ctx.inputs.symtab.syms.len(),
        crate::passes::sections::lists_ok(ctx.layout.chunks@, ctx.inputs.isecs.len() as int),
        forall|i: int| 0 <= i < list.len() ==> (#[trigger] list[i]) < ctx.layout.chunks.len(),
    ensures
        match r {
            Ok(v) => records_to::<E>(*ctx, ords@, indices@, list@, list.len() as int) == Ok::<
                Seq<Seq<MachRel>>,
                RelocatableError,
            >(record_views(v@)) && v.len() == list.len(),
            Err(e) => records_to::<E>(*ctx, ords@, indices@, list@, list.len() as int) == Err::<
                Seq<Seq<MachRel>>,
                RelocatableError,
            >(e),
        },
{
    let mut v: Vec<Vec<MachRel>> = Vec::new();
    assert(record_views(v@) =~= Seq::empty());
    while v.len() < list.len()
        invariant
            ctx.wf(),
            indices.len() == ctx.inputs.symtab.syms.len(),
            crate::passes::sections::lists_ok(
                ctx.layout.chunks@,
                ctx.inputs.isecs.len() as int,
            ),
            forall|i: int| 0 <= i < list.len() ==> (#[trigger] list[i]) < ctx.layout.chunks.len(),
            v.len() <= list.len(),
            records_to::<E>(*ctx, ords@, indices@, list@, v.len() as int) == Ok::<
                Seq<Seq<MachRel>>,
                RelocatableError,
            >(record_views(v@)),
        decreases list.len() - v.len(),
    {
        let n: usize = v.len();
        let c: usize = list[n];
        let ghost before = record_views(v@);
        assert forall|i: int| 0 <= i < ctx.layout.chunks[c as int].isecs.len() implies (
        #[trigger] ctx.layout.chunks[c as int].isecs[i]) < ctx.inputs.isecs.len() by {
            assert(ctx.layout.chunks@[c as int].isecs[i] < ctx.inputs.isecs.len());
        }
        match build_records::<E>(&ctx.inputs, ords, indices, &ctx.layout.chunks[c].isecs) {
            Ok(b) => {
                let ghost bv = b@;
                v.push(b);
                assert(record_views(v@) =~= before.push(bv));
            },
            Err(e) => {
                proof {
                    lemma_records_err::<E>(
                        *ctx,
                        ords@,
                        indices@,
                        list@,
                        e,
                        n + 1,
                        list.len() as int,
                    );
                }
                return Err(e);
            },
        }
    }
    Ok(v)
}

/// Copies the contents of all listed sections.
pub fn copy_all_sections<E: Arch>(ctx: &Context, list: &Vec<usize>) -> (r: Result<
    Vec<Vec<u8>>,
    RelocatableError,
>)
    requires
        ctx.wf(),
        crate::passes::sections::lists_ok(ctx.layout.chunks@, ctx.inputs.isecs.len() as int),
        forall|i: int| 0 <= i < list.len() ==> (#[trigger] list[i]) < ctx.layout.chunks.len(),
    ensures
        match r {
            Ok(v) => contents_to::<E>(*ctx, list@, list.len() as int) == Ok::<
                Seq<Seq<u8>>,
                RelocatableError,
            >(bytes::views(v@)) && v.len() == list.len(),
            Err(e) => contents_to::<E>(*ctx, list@, list.len() as int) == Err::<
                Seq<Seq<u8>>,
                RelocatableError,
            >(e),
        },
{
    let mut v: Vec<Vec<u8>> = Vec::new();
    assert(bytes::views(v@) =~= Seq::empty());
    while v.len() < list.len()
        invariant
            ctx.wf(),
            crate::passes::sections::lists_ok(
                ctx.layout.chunks@,
                ctx.inputs.isecs.len() as int,
            ),
            forall|i: int| 0 <= i < list.len() ==> (#[trigger] list[i]) < ctx.layout.chunks.len(),
            v.len() <= list.len(),
            contents_to::<E>(*ctx, list@, v.len() as int) == Ok::<
                Seq<Seq<u8>>,
                RelocatableError,
            >(bytes::views(v@)),
        decreases list.len() - v.len(),
    {
        let n: usize = v.len();
        let ghost last = list.len() as int;
        let c: &Chunk = &ctx.layout.chunks[list[n]];
        let ghost before = bytes::views(v@);
        if c.hdr.is_zerofill() {
            let empty: Vec<u8> = Vec::new();
            assert(empty@ =~= Seq::empty());
            v.push(empty);
            assert(bytes::views(v@) =~= before.push(Seq::empty()));
        } else if c.hdr.size > u32::MAX as u64 {
            proof {
                lemma_contents_err::<E>(*ctx, list@, RelocatableError::TooLarge, n + 1, last);
            }
            return Err(RelocatableError::TooLarge);
        } else {
            assert forall|i: int| 0 <= i < c.isecs.len() implies (#[trigger] c.isecs[i])
                < ctx.inputs.isecs.len() by {
                assert(ctx.layout.chunks@[list[n as int] as int].isecs[i]
                    < ctx.inputs.isecs.len());
            }
            match copy_section::<E>(ctx, c.hdr.addr, c.hdr.size, &c.isecs) {
                Ok(b) => {
                    let ghost bv = b@;
                    v.push(b);
                    assert(bytes::views(v@) =~= before.push(bv));
                },
                Err(e) => {
                    proof {
                        lemma_contents_err::<E>(*ctx, list@, e, n + 1, last);
                    }
                    return Err(e);
                },
            }
        }
    }
    Ok(v)
}

/// The file image of the first `n` listed sections: those with file contents
/// stand at their addresses.
pub open spec fn image_to(
    chunks: Seq<ChunkView>,
    list: Seq<usize>,
    contents: Seq<Seq<u8>>,
    n: int,
) -> Result<Seq<u8>, RelocatableError>
    decreases n,
{
    if n <= 0 {
        Ok(Seq::empty())
    } else {
        match image_to(chunks, list, contents, n - 1) {
            Err(e) => Err(e),
            Ok(a) => {
                let c = chunks[list[n - 1] as int];
                if c.hdr.zerofill() {
                    Ok(a)
                } else if c.hdr.addr > u32::MAX {
                    Err(RelocatableError::TooLarge)
                } else if c.hdr.addr < a.len() {
                    Err(RelocatableError::OutOfBounds)
                } else {
                    Ok(a + bytes::zeros(c.hdr.addr - a.len()) + contents[n - 1])
                }
            },
        }
    }
}

proof fn lemma_image_err(
    chunks: Seq<ChunkView>,
    list: Seq<usize>,
    contents: Seq<Seq<u8>>,
    e: RelocatableError,
    a: int,
    b: int,
)
    requires
        a <= b,
        image_to(chunks, list, contents, a) == Err::<Seq<u8>, RelocatableError>(e),
    ensures
        image_to(chunks, list, contents, b) == Err::<Seq<u8>, RelocatableError>(e),
    decreases b - a,
{
    if a < b && b > 0 {
        lemma_image_err(chunks, list, contents, e, a, b - 1);
    }
}

/// Builds the file image of the listed sections.
pub fn build_image(chunks: &Vec<Chunk>, list: &Vec<usize>, contents: &Vec<Vec<u8>>) -> (r: Result<
    Vec<u8>,
    RelocatableError,
>)
    requires
        contents.len() == list.len(),
        forall|i: int| 0 <= i < list.len() ==> (#[trigger] list[i]) < chunks.len(),
    ensures
        ({
            let want = image_to(
                crate::output_chunks::header::chunk_views(chunks@),
                list@,
                bytes::views(contents@),
                list.len() as int,
            );
            match r {
                Ok(v) => want == Ok::<Seq<u8>, RelocatableError>(v@),
                Err(e) => want == Err::<Seq<u8>, RelocatableError>(e),
            }
        }),
{
    let ghost cv = crate::output_chunks::header::chunk_views(chunks@);
    let ghost bv = bytes::views(contents@);
    let mut a: Vec<u8> = Vec::new();
    assert(a@ =~= Seq::empty());
    let mut n: usize = 0;
    while n < list.len()
        invariant
            n <= list.len(),
            contents.len() == list.len(),
            forall|i: int| 0 <= i < list.len() ==> (#[trigger] list[i]) < chunks.len(),
            cv == crate::output_chunks::header::chunk_views(chunks@),
            bv == bytes::views(contents@),
            image_to(cv, list@, bv, n as int) == Ok::<Seq<u8>, RelocatableError>(a@),
        decreases list.len() - n,
    {
        let ghost last = list.len() as int;
        let c: &Chunk = &chunks[list[n]];
        assert(cv[list[n as int] as int] == c@);
        assert(bv[n as int] == contents[n as int]@);
        if !c.hdr.is_zerofill() {
            if c.hdr.addr > u32::MAX as u64 {
                proof {
                    lemma_image_err(cv, list@, bv, RelocatableError::TooLarge, n + 1, last);
                }
                return Err(RelocatableError::TooLarge);
            }
            let addr: usize = c.hdr.addr as usize;
            if addr < a.len() {
                proof {
                    lemma_image_err(cv, list@, bv, RelocatableError::OutOfBounds, n + 1, last);
                }
                return Err(RelocatableError::OutOfBounds);
            }
            let gap: usize = addr - a.len();
            bytes::push_zeros(&mut a, gap);
            bytes::append(&mut a, contents[n].as_slice());
        }
        n += 1;
    }
    Ok(a)
}

/// A section's bytes with its first `k` self-relative cells filled, for a
/// section at `addr`.
pub open spec fn filled_to(data: Seq<u8>, addr: u64, patches: Seq<(u32, u64, u8)>, k: int) -> Result<
    Seq<u8>,
    RelocatableError,
>
    decreases k,
{
    if k <= 0 {
        Ok(data)
    } else {
        match filled_to(data, addr, patches, k - 1) {
            Err(e) => Err(e),
            Ok(d) => {
                let (cell, target, size) = patches[k - 1];
                let val = target - (addr + cell);
                if size == 4 && cell + 4 <= d.len() {
                    Ok(bytes::patched(d, cell as int, bytes::le32(bytes::word32(val))))
                } else if size == 8 && cell + 8 <= d.len() {
                    Ok(bytes::patched(d, cell as int, bytes::le64(bytes::word64(val))))
                } else {
                    Err(RelocatableError::BadFrame)
                }
            },
        }
    }
}

proof fn lemma_filled_err(
    data: Seq<u8>,
    addr: u64,
    patches: Seq<(u32, u64, u8)>,
    e: RelocatableError,
    a: int,
    b: int,
)
    requires
        a <= b,
        filled_to(data, addr, patches, a) == Err::<Seq<u8>, RelocatableError>(e),
    ensures
        filled_to(data, addr, patches, b) == Err::<Seq<u8>, RelocatableError>(e),
    decreases b - a,
{
    if a < b && b > 0 {
        lemma_filled_err(data, addr, patches, e, a, b - 1);
    }
}

/// Cutting an address to 64 bits does not change distances modulo 2^64.
proof fn lemma_cut_distance(a: int, b: int)
    ensures
        bytes::word64(a - bytes::word64(b)) == bytes::word64(a - b),
{
    reveal(bytes::word64);
    vstd::arithmetic::div_mod::lemma_sub_mod_noop_right(a, b, 0x1_0000_0000_0000_0000);
}

/// Fills the self-relative cells of a section at `addr`.
fn fill_cells(data: &Vec<u8>, addr: u64, patches: &Vec<(u32, u64, u8)>) -> (r: Result<
    Vec<u8>,
    RelocatableError,
>)
    ensures
        match r {
            Ok(d) => filled_to(data@, addr, patches@, patches.len() as int) == Ok::<
                Seq<u8>,
                RelocatableError,
            >(d@) && d.len() == data.len(),
            Err(e) => filled_to(data@, addr, patches@, patches.len() as int) == Err::<
                Seq<u8>,
                RelocatableError,
            >(e),
        },
{
    let mut d: Vec<u8> = bytes::to_vec(data.as_slice());
    let mut k: usize = 0;
    while k < patches.len()
        invariant
            k <= patches.len(),
            d.len() == data.len(),
            filled_to(data@, addr, patches@, k as int) == Ok::<Seq<u8>, RelocatableError>(d@),
        decreases patches.len() - k,
    {
        let (cell, target, size): (u32, u64, u8) = patches[k];
        let here: u64 = bytes::sum64(addr, cell as u64);
        let val: u64 = bytes::distance(target, here);
        proof {
            lemma_cut_distance(target as int, addr + cell);
            bytes::lemma_word32_word64(target - (addr + cell));
        }
        let at: usize = cell as usize;
        let room: usize = if at <= d.len() {
            d.len() - at
        } else {
            0
        };
        if size == 4 && room >= 4 {
            bytes::put32(&mut d, at, bytes::low32(val));
        } else if size == 8 && room >= 8 {
            bytes::put64(&mut d, at, val);
        } else {
            proof {
                lemma_filled_err(
                    data@,
                    addr,
                    patches@,
                    RelocatableError::BadFrame,
                    k + 1,
                    patches.len() as int,
                );
            }
            return Err(RelocatableError::BadFrame);
        }
        k += 1;
    }
    Ok(d)
}

/// The image with extra sections appended.
#[verifier::ext_equal]
pub struct ExtendedView {
    pub image: Seq<u8>,
    /// The address and the offset in the image of each extra section.
    pub places: Seq<(u64, u64)>,
    /// Where the next one goes.
    pub next: u64,
    /// The end of the address space.
    pub vmsize: u64,
}

/// The image with the first `n` extra sections appended: each stands at a
/// multiple of eight bytes, in the file and in the address space.
pub open spec fn extended_to(image: Seq<u8>, vmsize: u64, extras: Seq<ExtraView>, n: int) -> Result<
    ExtendedView,
    RelocatableError,
>
    decreases n,
{
    if n <= 0 {
        if vmsize + 7 > u64::MAX {
            Err(RelocatableError::TooLarge)
        } else {
            Ok(
                ExtendedView {
                    image,
                    places: Seq::empty(),
                    next: util::aligned(vmsize as int, 8) as u64,
                    vmsize,
                },
            )
        }
    } else {
        match extended_to(image, vmsize, extras, n - 1) {
            Err(e) => Err(e),
            Ok(p) => {
                let x = extras[n - 1];
                let a = bytes::padded8(p.image);
                if p.next + x.data.len() + 7 > u64::MAX || a.len() > u32::MAX {
                    Err(RelocatableError::TooLarge)
                } else {
                    match filled_to(x.data, p.next, x.patches, x.patches.len() as int) {
                        Err(e) => Err(e),
                        Ok(d) => Ok(
                            ExtendedView {
                                image: a + d,
                                places: p.places.push((p.next, a.len() as u64)),
                                next: (p.next + util::aligned(x.data.len() as int, 8)) as u64,
                                vmsize: (p.next + x.data.len()) as u64,
                            },
                        ),
                    }
                }
            },
        }
    }
}

proof fn lemma_extended_err(
    image: Seq<u8>,
    vmsize: u64,
    extras: Seq<ExtraView>,
    e: RelocatableError,
    a: int,
    b: int,
)
    requires
        0 <= a <= b,
        extended_to(image, vmsize, extras, a) == Err::<ExtendedView, RelocatableError>(e),
    ensures
        extended_to(image, vmsize, extras, b) == Err::<ExtendedView, RelocatableError>(e),
    decreases b - a,
{
    if a < b && b > 0 {
        lemma_extended_err(image, vmsize, extras, e, a, b - 1);
    }
}

/// The image with extra sections appended.
#[derive(Debug)]
pub struct Extended {
    pub image: Vec<u8>,
    pub places: Vec<(u64, u64)>,
    pub next: u64,
    pub vmsize: u64,
}

impl View for Extended {
    type V = ExtendedView;

    open spec fn view(&self) -> ExtendedView {
        ExtendedView {
            image: self.image@,
            places: self.places@,
            next: self.next,
            vmsize: self.vmsize,
        }
    }
}

/// Appends the extra sections to the image.
pub fn append_extras(image: Vec<u8>, vmsize: u64, extras: &Vec<ExtraSection>) -> (r: Result<
    Extended,
    RelocatableError,
>)
    ensures
        ({
            let want = extended_to(
                image@,
                vmsize,
                super::extras::extra_views(extras@),
                extras.len() as int,
            );
            match r {
                Ok(p) => want == Ok::<ExtendedView, RelocatableError>(p@) && p.places.len()
                    == extras.len(),
                Err(e) => want == Err::<ExtendedView, RelocatableError>(e),
            }
        }),
{
    let ghost ev = super::extras::extra_views(extras@);
    let ghost first = image@;
    let ghost last = extras.len() as int;
    if vmsize > u64::MAX - 7 {
        proof {
            lemma_extended_err(first, vmsize, ev, RelocatableError::TooLarge, 0, last);
        }
        return Err(RelocatableError::TooLarge);
    }
    let mut p = Extended {
        image,
        places: Vec::new(),
        next: util::align_to(vmsize, 8),
        vmsize,
    };
    assert(p@ =~= extended_to(first, vmsize, ev, 0)->Ok_0);
    let mut n: usize = 0;
    while n < extras.len()
        invariant
            n <= extras.len(),
            first == image@,
            last == extras.len(),
            ev == super::extras::extra_views(extras@),
            p.places.len() == n,
            extended_to(first, vmsize, ev, n as int) == Ok::<ExtendedView, RelocatableError>(p@),
        decreases extras.len() - n,
    {
        let x: &ExtraSection = &extras[n];
        assert(ev[n as int] == x@);
        let ghost before = p@;
        bytes::pad8(&mut p.image);
        let off: usize = p.image.len();
        let len: usize = x.data.len();
        if p.next as u128 + len as u128 + 7 > u64::MAX as u128 || off as u128 > u32::MAX as u128 {
            proof {
                lemma_extended_err(first, vmsize, ev, RelocatableError::TooLarge, n + 1, last);
            }
            return Err(RelocatableError::TooLarge);
        }
        match fill_cells(&x.data, p.next, &x.patches) {
            Ok(d) => {
                bytes::append(&mut p.image, d.as_slice());
            },
            Err(e) => {
                proof {
                    lemma_extended_err(first, vmsize, ev, e, n + 1, last);
                }
                return Err(e);
            },
        }
        p.places.push((p.next, off as u64));
        p.vmsize = p.next + len as u64;
        proof {
            util::lemma_aligned(len as int, 8);
        }
        p.next = p.next + util::align_to(len as u64, 8);
        assert(p@ =~= extended_to(first, vmsize, ev, n + 1)->Ok_0);
        n += 1;
    }
    Ok(p)
}

} // verus!
