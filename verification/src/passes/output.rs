//! Assembles the output file.
use super::chained::{list_imports, write_fixup_chains};
use super::contents::{copy_chunk, CopyError, Tables};
use super::fixups::{collect_fixups, Fixup};
use crate::arch::Arch;
use crate::context::Context;
use crate::macho::NList;
use crate::output_chunks::eh_frame::write_at;
use crate::output_chunks::header::{Chunk, ChunkKind, ChunkView};
use crate::output_chunks::load_commands::{encode_mach_header, find_extent, Identity};
use crate::output_chunks::string_table::encode_string_table;
use crate::util::bytes;
use vstd::prelude::*;

verus! {

/// True for a chunk that is copied into the file by itself.
pub open spec fn is_copied(c: ChunkView) -> bool {
    !(c.kind == ChunkKind::MachHeader || c.kind == ChunkKind::Symtab || c.kind == ChunkKind::Strtab
        || c.kind == ChunkKind::CodeSignature) && !c.hdr.zerofill()
}

/// The file with a chunk's contents at its place.
pub open spec fn with_chunk<E: Arch>(ctx: Context, t: Tables, buf: Seq<u8>, c: ChunkView) -> Result<
    Seq<u8>,
    CopyError,
> {
    if !is_copied(c) {
        Ok(buf)
    } else {
        match super::contents::chunk_bytes::<E>(ctx, t, c) {
            Err(e) => Err(e),
            Ok(b) => if b.len() > c.hdr.size {
                Err(CopyError::OutOfBounds)
            } else {
                match crate::output_chunks::eh_frame::put_at(buf, c.hdr.fileoff as int, b) {
                    Some(v) => Ok(v),
                    None => Err(CopyError::OutOfBounds),
                }
            },
        }
    }
}

/// The file with its first `n` chunks copied.
pub open spec fn chunks_to<E: Arch>(ctx: Context, t: Tables, n: int) -> Result<Seq<u8>, CopyError>
    decreases n,
{
    if n <= 0 {
        if ctx.layout.output_size > u32::MAX {
            Err(CopyError::TooLarge)
        } else {
            Ok(bytes::zeros(ctx.layout.output_size as int))
        }
    } else {
        match chunks_to::<E>(ctx, t, n - 1) {
            Err(e) => Err(e),
            Ok(buf) => with_chunk::<E>(ctx, t, buf, ctx.layout.chunks[n - 1]@),
        }
    }
}

proof fn lemma_chunks_err<E: Arch>(ctx: Context, t: Tables, e: CopyError, a: int, b: int)
    requires
        0 <= a <= b,
        chunks_to::<E>(ctx, t, a) == Err::<Seq<u8>, CopyError>(e),
    ensures
        chunks_to::<E>(ctx, t, b) == Err::<Seq<u8>, CopyError>(e),
    decreases b - a,
{
    if a < b {
        lemma_chunks_err::<E>(ctx, t, e, a, b - 1);
    }
}

fn write_chunk<E: Arch>(ctx: &Context, t: &Tables, buf: &mut Vec<u8>, c: &Chunk) -> (r: Result<
    (),
    CopyError,
>)
    requires
        super::contents::parts_exist(*ctx, *t),
        super::contents::chunk_ok(*ctx, *c),
    ensures
        match r {
            Ok(()) => with_chunk::<E>(*ctx, *t, old(buf)@, c@) == Ok::<Seq<u8>, CopyError>(
                final(buf)@,
            ),
            Err(e) => with_chunk::<E>(*ctx, *t, old(buf)@, c@) == Err::<Seq<u8>, CopyError>(e),
        },
{
    if c.kind == ChunkKind::MachHeader || c.kind == ChunkKind::Symtab || c.kind == ChunkKind::Strtab
        || c.kind == ChunkKind::CodeSignature || c.hdr.is_zerofill() {
        return Ok(());
    }
    match copy_chunk::<E>(ctx, t, c) {
        Ok(b) => {
            if b.len() as u64 <= c.hdr.size && write_at(buf, c.hdr.fileoff, b.as_slice()) {
                Ok(())
            } else {
                Err(CopyError::OutOfBounds)
            }
        },
        Err(e) => Err(e),
    }
}

fn write_chunks<E: Arch>(ctx: &Context, t: &Tables) -> (r: Result<Vec<u8>, CopyError>)
    requires
        super::contents::parts_exist(*ctx, *t),
    ensures
        match r {
            Ok(v) => chunks_to::<E>(*ctx, *t, ctx.layout.chunks.len() as int) == Ok::<
                Seq<u8>,
                CopyError,
            >(v@),
            Err(e) => chunks_to::<E>(*ctx, *t, ctx.layout.chunks.len() as int) == Err::<
                Seq<u8>,
                CopyError,
            >(e),
        },
{
    let ghost end = ctx.layout.chunks.len() as int;
    if ctx.layout.output_size > 0xffff_ffff {
        proof {
            lemma_chunks_err::<E>(*ctx, *t, CopyError::TooLarge, 0, end);
        }
        return Err(CopyError::TooLarge);
    }
    let mut buf: Vec<u8> = Vec::new();
    bytes::push_zeros(&mut buf, ctx.layout.output_size as usize);
    assert(buf@ =~= bytes::zeros(ctx.layout.output_size as int));
    let mut n: usize = 0;
    while n < ctx.layout.chunks.len()
        invariant
            super::contents::parts_exist(*ctx, *t),
            n <= ctx.layout.chunks.len(),
            end == ctx.layout.chunks.len(),
            chunks_to::<E>(*ctx, *t, n as int) == Ok::<Seq<u8>, CopyError>(buf@),
        decreases ctx.layout.chunks.len() - n,
    {
        assert(super::contents::chunk_ok(*ctx, ctx.layout.chunks[n as int]));
        match write_chunk::<E>(ctx, t, &mut buf, &ctx.layout.chunks[n]) {
            Ok(()) => {},
            Err(e) => {
                proof {
                    lemma_chunks_err::<E>(*ctx, *t, e, n + 1, end);
                }
                return Err(e);
            },
        }
        n += 1;
    }
    Ok(buf)
}

/// A symbol table entry with its final value.
pub open spec fn final_entry<E: Arch>(ctx: Context, e: (NList, Option<u32>)) -> NList {
    match e.1 {
        Some(id) => NList { n_value: ctx.addr_of_sym::<E>(id as int), ..e.0 },
        None => e.0,
    }
}

/// The first `n` symbol table entries.
pub open spec fn entry_bytes<E: Arch>(ctx: Context, es: Seq<(NList, Option<u32>)>, n: int) -> Seq<u8>
    decreases n,
{
    if n <= 0 {
        Seq::empty()
    } else {
        entry_bytes::<E>(ctx, es, n - 1) + final_entry::<E>(ctx, es[n - 1]).encoded()
    }
}

fn build_entries<E: Arch>(ctx: &Context, es: &Vec<(NList, Option<u32>)>) -> (r: Vec<u8>)
    requires
        ctx.wf(),
        forall|i: int|
            0 <= i < es.len() ==> ((#[trigger] es[i]).1 matches Some(id) ==> id
                < ctx.inputs.symtab.syms.len()),
    ensures
        r@ == entry_bytes::<E>(*ctx, es@, es.len() as int),
{
    let mut buf: Vec<u8> = Vec::new();
    assert(buf@ =~= Seq::empty());
    let mut n: usize = 0;
    while n < es.len()
        invariant
            ctx.wf(),
            forall|i: int|
                0 <= i < es.len() ==> ((#[trigger] es[i]).1 matches Some(id) ==> id
                    < ctx.inputs.symtab.syms.len()),
            n <= es.len(),
            buf@ == entry_bytes::<E>(*ctx, es@, n as int),
        decreases es.len() - n,
    {
        let mut e: NList = es[n].0;
        if let Some(id) = es[n].1 {
            assert(es[n as int].1 matches Some(id) ==> id < ctx.inputs.symtab.syms.len());
            e.n_value = ctx.sym_addr::<E>(id);
        }
        assert(e == final_entry::<E>(*ctx, es[n as int]));
        e.push_to(&mut buf);
        n += 1;
    }
    buf
}

/// The file with bytes at the place of the first chunk of a kind, if there
/// is one.
pub open spec fn with_table(ctx: Context, buf: Seq<u8>, kind: ChunkKind, b: Seq<u8>) -> Result<
    Seq<u8>,
    CopyError,
> {
    let chunks = crate::output_chunks::header::chunk_views(ctx.layout.chunks@);
    match crate::output_chunks::load_commands::extent_of(chunks, kind) {
        None => Ok(buf),
        Some(p) => match crate::output_chunks::eh_frame::put_at(buf, p.0 as int, b) {
            Some(v) => Ok(v),
            None => Err(CopyError::OutOfBounds),
        },
    }
}

fn write_table(ctx: &Context, buf: &mut Vec<u8>, kind: ChunkKind, b: &Vec<u8>) -> (r: Result<
    (),
    CopyError,
>)
    ensures
        match r {
            Ok(()) => with_table(*ctx, old(buf)@, kind, b@) == Ok::<Seq<u8>, CopyError>(
                final(buf)@,
            ),
            Err(e) => with_table(*ctx, old(buf)@, kind, b@) == Err::<Seq<u8>, CopyError>(e),
        },
{
    match find_extent(&ctx.layout.chunks, kind) {
        None => Ok(()),
        Some(p) => if write_at(buf, p.0, b.as_slice()) {
            Ok(())
        } else {
            Err(CopyError::OutOfBounds)
        },
    }
}

/// The file with its symbol table and string table.
pub open spec fn with_symtab<E: Arch>(ctx: Context, t: Tables, buf: Seq<u8>) -> Result<
    Seq<u8>,
    CopyError,
> {
    match with_table(
        ctx,
        buf,
        ChunkKind::Symtab,
        entry_bytes::<E>(ctx, t.symtab.entries@, t.symtab.entries.len() as int),
    ) {
        Err(e) => Err(e),
        Ok(b) => with_table(
            ctx,
            b,
            ChunkKind::Strtab,
            crate::output_chunks::string_table::string_table(
                crate::output_chunks::string_table::unique_views(t.symtab.strtab_uniques@),
            ),
        ),
    }
}

/// Writes the symbol table, whose entries get their final values, and the
/// string table.
pub fn copy_symtab<E: Arch>(ctx: &Context, t: &Tables, buf: &mut Vec<u8>) -> (r: Result<
    (),
    CopyError,
>)
    requires
        ctx.wf(),
        super::contents::tables_ok(*ctx, *t),
    ensures
        match r {
            Ok(()) => with_symtab::<E>(*ctx, *t, old(buf)@) == Ok::<Seq<u8>, CopyError>(
                final(buf)@,
            ),
            Err(e) => with_symtab::<E>(*ctx, *t, old(buf)@) == Err::<Seq<u8>, CopyError>(e),
        },
{
    let entries: Vec<u8> = build_entries::<E>(ctx, &t.symtab.entries);
    match write_table(ctx, buf, ChunkKind::Symtab, &entries) {
        Ok(()) => {},
        Err(e) => {
            return Err(e);
        },
    }
    let strings: Vec<u8> = encode_string_table(&t.symtab.strtab_uniques);
    write_table(ctx, buf, ChunkKind::Strtab, &strings)
}

/// The import table that the mach header's flags depend on: that of the
/// chained fixups.
pub open spec fn imports<E: Arch>(ctx: Context) -> Seq<(u64, u64, u64)> {
    if ctx.chained::<E>() {
        super::chained::imports_of(super::fixups::by_addr(super::fixups::all_fixups::<E>(ctx)))
    } else {
        Seq::empty()
    }
}

/// The file with its mach header and load commands.
pub open spec fn with_header<E: Arch>(ctx: Context, id: Identity, buf: Seq<u8>) -> Result<
    Seq<u8>,
    CopyError,
> {
    if crate::output_chunks::load_commands::text_of(ctx) is None {
        Err(CopyError::NoText)
    } else {
        match crate::output_chunks::eh_frame::put_at(
            buf,
            0,
            crate::output_chunks::load_commands::image_header::<E>(ctx, id, imports::<E>(ctx)),
        ) {
            Some(v) => Ok(v),
            None => Err(CopyError::OutOfBounds),
        }
    }
}

fn find_imports<E: Arch>(ctx: &Context) -> (r: Vec<(u64, u64, u64)>)
    requires
        ctx.wf(),
        super::fixups::slots_exist(*ctx),
    ensures
        r@ == imports::<E>(*ctx),
        super::chained::entries_exist(*ctx, r@),
{
    if ctx.use_chained_fixups::<E>() {
        let fixups: Vec<Fixup> = collect_fixups::<E>(ctx);
        proof {
            super::fixups::lemma_imports_exist::<E>(*ctx);
            assert(fixups.len() <= usize::MAX);
            super::chained::lemma_imports_exist(*ctx, fixups@);
        }
        list_imports(&fixups)
    } else {
        let none: Vec<(u64, u64, u64)> = Vec::new();
        assert(none@ =~= imports::<E>(*ctx));
        none
    }
}

/// Writes the mach header and the load commands. Called again once the
/// image's UUID is known.
pub fn copy_mach_header<E: Arch>(ctx: &Context, id: &Identity, buf: &mut Vec<u8>) -> (r: Result<
    (),
    CopyError,
>)
    requires
        ctx.wf(),
        super::fixups::slots_exist(*ctx),
        super::chunk_list::segs_ok(ctx.layout.segments@, ctx.layout.chunks.len() as int),
    ensures
        match r {
            Ok(()) => with_header::<E>(*ctx, *id, old(buf)@) == Ok::<Seq<u8>, CopyError>(
                final(buf)@,
            ),
            Err(e) => with_header::<E>(*ctx, *id, old(buf)@) == Err::<Seq<u8>, CopyError>(e),
        },
{
    let table: Vec<(u64, u64, u64)> = find_imports::<E>(ctx);
    assert forall|k: int| 0 <= k < table.len() implies (#[trigger] table[k]).0
        < ctx.inputs.symtab.syms.len() by {
        assert(table@[k].0 < ctx.inputs.symtab.syms.len());
    }
    match encode_mach_header::<E>(ctx, id, &table) {
        Some(h) => {
            if write_at(buf, 0, h.as_slice()) {
                Ok(())
            } else {
                Err(CopyError::OutOfBounds)
            }
        },
        None => Err(CopyError::NoText),
    }
}

/// The file with its fixup chains, where it has them.
pub open spec fn with_chains<E: Arch>(ctx: Context, buf: Seq<u8>) -> Result<Seq<u8>, CopyError> {
    if !ctx.chained::<E>() {
        Ok(buf)
    } else {
        let segs = crate::output_chunks::header::segment_views(ctx.layout.segments@);
        match super::chained::chains_to(
            buf,
            super::fixups::by_addr(super::fixups::all_fixups::<E>(ctx)),
            segs,
            E::info().page_size as int,
            segs.len() as int,
        ) {
            Ok(b) => Ok(b),
            Err(e) => Err(CopyError::Chain(e)),
        }
    }
}

fn write_chains<E: Arch>(ctx: &Context, buf: &mut Vec<u8>) -> (r: Result<(), CopyError>)
    requires
        ctx.wf(),
        super::fixups::slots_exist(*ctx),
    ensures
        match r {
            Ok(()) => with_chains::<E>(*ctx, old(buf)@) == Ok::<Seq<u8>, CopyError>(final(buf)@),
            Err(e) => with_chains::<E>(*ctx, old(buf)@) == Err::<Seq<u8>, CopyError>(e),
        },
{
    if !ctx.use_chained_fixups::<E>() {
        return Ok(());
    }
    let fixups: Vec<Fixup> = collect_fixups::<E>(ctx);
    match write_fixup_chains::<E>(ctx, &fixups, buf) {
        Ok(()) => Ok(()),
        Err(e) => Err(CopyError::Chain(e)),
    }
}

/// The output file but for its signature: its chunks, its fixup chains, its
/// symbol and string tables, and its mach header, each over what was written
/// before.
pub open spec fn output_file<E: Arch>(ctx: Context, t: Tables, id: Identity) -> Result<
    Seq<u8>,
    CopyError,
> {
    match chunks_to::<E>(ctx, t, ctx.layout.chunks.len() as int) {
        Err(e) => Err(e),
        Ok(b) => match with_chains::<E>(ctx, b) {
            Err(e) => Err(e),
            Ok(b) => match with_symtab::<E>(ctx, t, b) {
                Err(e) => Err(e),
                Ok(b) => with_header::<E>(ctx, id, b),
            },
        },
    }
}

/// Builds the output file but for its signature.
pub fn copy_chunks<E: Arch>(ctx: &Context, t: &Tables, id: &Identity) -> (r: Result<
    Vec<u8>,
    CopyError,
>)
    requires
        super::contents::parts_exist(*ctx, *t),
        super::chunk_list::segs_ok(ctx.layout.segments@, ctx.layout.chunks.len() as int),
    ensures
        match r {
            Ok(v) => output_file::<E>(*ctx, *t, *id) == Ok::<Seq<u8>, CopyError>(v@),
            Err(e) => output_file::<E>(*ctx, *t, *id) == Err::<Seq<u8>, CopyError>(e),
        },
{
    let mut buf: Vec<u8> = match write_chunks::<E>(ctx, t) {
        Ok(v) => v,
        Err(e) => {
            return Err(e);
        },
    };
    match write_chains::<E>(ctx, &mut buf) {
        Ok(()) => {},
        Err(e) => {
            return Err(e);
        },
    }
    match copy_symtab::<E>(ctx, t, &mut buf) {
        Ok(()) => {},
        Err(e) => {
            return Err(e);
        },
    }
    match copy_mach_header::<E>(ctx, id, &mut buf) {
        Ok(()) => Ok(buf),
        Err(e) => Err(e),
    }
}

/// The UUID made of a hash of the output: its first 16 bytes, stamped as a
/// version-4 UUID of the RFC 4122 variant.
pub open spec fn uuid_of(hash: Seq<u8>) -> Seq<u8> {
    hash.take(16).update(6, (hash[6] & 0x0f) | 0x40).update(8, (hash[8] & 0x3f) | 0x80)
}

/// Makes a UUID of a hash of the output.
pub fn make_uuid(hash: &[u8]) -> (r: Vec<u8>)
    requires
        hash.len() >= 16,
    ensures
        r@ == uuid_of(hash@),
        r.len() == 16,
{
    let mut r: Vec<u8> = bytes::copy_range(hash, 0, 16);
    let v: u8 = (hash[6] & 0x0f) | 0x40;
    let w: u8 = (hash[8] & 0x3f) | 0x80;
    r.set(6, v);
    r.set(8, w);
    assert(r@ =~= uuid_of(hash@));
    r
}

/// A UUID made of a hash is a version-4 UUID of the RFC 4122 variant.
pub proof fn lemma_uuid_version(hash: Seq<u8>)
    requires
        hash.len() >= 16,
    ensures
        uuid_of(hash).len() == 16,
        uuid_of(hash)[6] >> 4u8 == 4,
        uuid_of(hash)[8] >> 6u8 == 2,
{
    let a = hash[6];
    let b = hash[8];
    assert(((a & 0x0f) | 0x40) >> 4u8 == 4) by (bit_vector);
    assert(((b & 0x3f) | 0x80) >> 6u8 == 2) by (bit_vector);
}

/// True when two chunks share no byte of the file.
pub open spec fn apart_in_file(a: ChunkView, b: ChunkView) -> bool {
    a.hdr.fileoff + a.hdr.size <= b.hdr.fileoff || b.hdr.fileoff + b.hdr.size <= a.hdr.fileoff
}

proof fn lemma_patch_apart(buf: Seq<u8>, off: int, b: Seq<u8>, from: int, to: int)
    requires
        0 <= off,
        off + b.len() <= buf.len(),
        0 <= from <= to <= buf.len(),
        to <= off || off + b.len() <= from,
    ensures
        bytes::patched(buf, off, b).len() == buf.len(),
        bytes::patched(buf, off, b).subrange(from, to) == buf.subrange(from, to),
{
    bytes::lemma_patched_len(buf, off, b);
    assert(bytes::patched(buf, off, b).subrange(from, to) =~= buf.subrange(from, to));
}

proof fn lemma_chunk_kept<E: Arch>(ctx: Context, t: Tables, n: int, i: int)
    requires
        0 <= i < n <= ctx.layout.chunks.len(),
        is_copied(ctx.layout.chunks[i]@),
        chunks_to::<E>(ctx, t, n) is Ok,
        forall|j: int|
            0 <= j < ctx.layout.chunks.len() && j != i && is_copied(
                #[trigger] ctx.layout.chunks[j]@,
            ) ==> apart_in_file(ctx.layout.chunks[i]@, ctx.layout.chunks[j]@),
    ensures
        ({
            let c = ctx.layout.chunks[i]@;
            let buf = chunks_to::<E>(ctx, t, n)->Ok_0;
            &&& super::contents::chunk_bytes::<E>(ctx, t, c) matches Ok(b)
            &&& b.len() <= c.hdr.size
            &&& c.hdr.fileoff + b.len() <= buf.len()
            &&& buf.subrange(c.hdr.fileoff as int, c.hdr.fileoff + b.len()) == b
        }),
    decreases n,
{
    let c = ctx.layout.chunks[i]@;
    let before = chunks_to::<E>(ctx, t, n - 1)->Ok_0;
    let buf = chunks_to::<E>(ctx, t, n)->Ok_0;
    if i == n - 1 {
        let b = super::contents::chunk_bytes::<E>(ctx, t, c)->Ok_0;
        bytes::lemma_patched_len(before, c.hdr.fileoff as int, b);
        assert(buf.subrange(c.hdr.fileoff as int, c.hdr.fileoff + b.len()) =~= b);
    } else {
        lemma_chunk_kept::<E>(ctx, t, n - 1, i);
        let b = super::contents::chunk_bytes::<E>(ctx, t, c)->Ok_0;
        let d = ctx.layout.chunks[n - 1]@;
        if is_copied(d) {
            assert(apart_in_file(c, d));
            let e = super::contents::chunk_bytes::<E>(ctx, t, d)->Ok_0;
            lemma_patch_apart(
                before,
                d.hdr.fileoff as int,
                e,
                c.hdr.fileoff as int,
                c.hdr.fileoff + b.len(),
            );
        }
    }
}

/// Every chunk's contents stand at its place once all chunks were copied,
/// if no two chunks share a byte of the file.
pub proof fn lemma_chunk_in_file<E: Arch>(ctx: Context, t: Tables, i: int)
    requires
        0 <= i < ctx.layout.chunks.len(),
        is_copied(ctx.layout.chunks[i]@),
        chunks_to::<E>(ctx, t, ctx.layout.chunks.len() as int) is Ok,
        forall|j: int|
            0 <= j < ctx.layout.chunks.len() && j != i && is_copied(
                #[trigger] ctx.layout.chunks[j]@,
            ) ==> apart_in_file(ctx.layout.chunks[i]@, ctx.layout.chunks[j]@),
    ensures
        ({
            let c = ctx.layout.chunks[i]@;
            let buf = chunks_to::<E>(ctx, t, ctx.layout.chunks.len() as int)->Ok_0;
            &&& super::contents::chunk_bytes::<E>(ctx, t, c) matches Ok(b)
            &&& c.hdr.fileoff + b.len() <= buf.len()
            &&& buf.subrange(c.hdr.fileoff as int, c.hdr.fileoff + b.len()) == b
        }),
{
    lemma_chunk_kept::<E>(ctx, t, ctx.layout.chunks.len() as int, i);
}

} // verus!
