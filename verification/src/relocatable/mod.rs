//! -r: relocatable output.
//!
//! `ld -r` combines object files into one bigger object file instead of a
//! final image: sections are merged and laid out from address 0 in a single
//! nameless segment, symbols keep their definitions and undefined
//! references, and relocations are regenerated against the merged section
//! and symbol tables rather than applied.
//!
//! Section contents are copied raw, so fields that embed addends keep them.
//! Only relocations against sections need their embedded target addresses
//! rewritten into the merged address space. DWARF is not merged: the output
//! gets debug-note stabs naming the input objects, which a later link
//! carries through.

pub mod contents;
pub mod extras;
pub mod file;
pub mod options;
pub mod place;
pub mod record_laws;
pub mod symbols;

pub use extras::RelocatableError;

use crate::arch::Arch;
use crate::context::Context;
use crate::macho::MachRel;
use extras::{build_extras, ExtraSection, ExtraView};
use file::{assemble, Parts, PartsView};
use options::{encode_requests, list_requests};
use place::{
    append_extras, build_all_records, build_image, copy_all_sections, list_sections,
    number_sections, place_merged, Extended,
};
use symbols::{build_symbols, RelocatableSymbols};
use vstd::prelude::*;

verus! {

/// The parts of the output, from sections that are placed. `vmsize` is the
/// end of the last one.
pub open spec fn parts_of<E: Arch>(
    ctx: Context,
    list: Seq<usize>,
    vmsize: u64,
    cwd: Seq<u8>,
    image_flags: u32,
) -> Result<PartsView, RelocatableError> {
    let chunks = crate::output_chunks::header::chunk_views(ctx.layout.chunks@);
    let ords = place::ordinals_to(chunks.len() as int, list, list.len() as int);
    let entries = symbols::all_entries::<E>(ctx, ords, cwd);
    let indices = symbols::indices_to(
        ctx.inputs.symtab.syms.len() as int,
        entries,
        symbols::stab_part::<E>(ctx, ords, cwd).len() as int,
        entries.len() as int,
    );
    let requests = options::requests_to(ctx.inputs.objs@, ctx.inputs.objs.len() as int);
    if list.len() > 255 {
        Err(RelocatableError::TooManySections)
    } else if entries.len() > u32::MAX {
        Err(RelocatableError::TooLarge)
    } else {
        match extras::extras_of::<E>(ctx, ords, indices, image_flags) {
            Err(e) => Err(e),
            Ok(x) => match place::records_to::<E>(ctx, ords, indices, list, list.len() as int) {
                Err(e) => Err(e),
                Ok(rels) => match place::contents_to::<E>(ctx, list, list.len() as int) {
                    Err(e) => Err(e),
                    Ok(contents) => match place::image_to(
                        chunks,
                        list,
                        contents,
                        list.len() as int,
                    ) {
                        Err(e) => Err(e),
                        Ok(image) => match place::extended_to(image, vmsize, x, x.len() as int) {
                            Err(e) => Err(e),
                            Ok(placed) => if !options::requests_fit(
                                requests,
                                requests.len() as int,
                            ) {
                                Err(RelocatableError::TooLarge)
                            } else {
                                Ok(
                                    PartsView {
                                        list,
                                        extras: x,
                                        placed,
                                        rels: rels + x.map_values(|e: ExtraView| e.relocs),
                                        entries,
                                        nlocal: symbols::local_part::<E>(
                                            ctx,
                                            ords,
                                            cwd,
                                        ).len() as int,
                                        nextdef: symbols::defined_of(ctx).len() as int,
                                        requests: options::request_commands(
                                            requests,
                                            requests.len() as int,
                                        ),
                                        nrequests: requests.len() as int,
                                    },
                                )
                            },
                        },
                    },
                },
            },
        }
    }
}

/// The output file, from sections that are placed.
pub open spec fn linked<E: Arch>(
    ctx: Context,
    list: Seq<usize>,
    vmsize: u64,
    cwd: Seq<u8>,
    image_flags: u32,
) -> Result<Seq<u8>, RelocatableError> {
    match parts_of::<E>(ctx, list, vmsize, cwd, image_flags) {
        Err(e) => Err(e),
        Ok(p) => p.file::<E>(
            ctx.args,
            crate::output_chunks::header::chunk_views(ctx.layout.chunks@),
        ),
    }
}

/// Appends copies of the extra sections' relocations.
fn push_extra_rels(extras: &Vec<ExtraSection>, rels: &mut Vec<Vec<MachRel>>)
    ensures
        place::record_views(final(rels)@) == place::record_views(old(rels)@)
            + extras::extra_views(extras@).map_values(|e: ExtraView| e.relocs),
        final(rels).len() == old(rels).len() + extras.len(),
{
    let ghost start = place::record_views(rels@);
    let ghost n0 = rels.len();
    let ghost v = extras::extra_views(extras@).map_values(|e: ExtraView| e.relocs);
    let mut i: usize = 0;
    assert(start + v.take(0) =~= start);
    while i < extras.len()
        invariant
            i <= extras.len(),
            rels.len() == n0 + i,
            v == extras::extra_views(extras@).map_values(|e: ExtraView| e.relocs),
            place::record_views(rels@) == start + v.take(i as int),
        decreases extras.len() - i,
    {
        let mut copy: Vec<MachRel> = Vec::new();
        while copy.len() < extras[i].relocs.len()
            invariant
                i < extras.len(),
                copy.len() <= extras[i as int].relocs.len(),
                copy@ =~= extras[i as int].relocs@.take(copy.len() as int),
            decreases extras[i as int].relocs.len() - copy.len(),
        {
            let r: MachRel = extras[i].relocs[copy.len()];
            copy.push(r);
        }
        assert(copy@ =~= extras[i as int].relocs@);
        assert(v[i as int] == extras[i as int].relocs@);
        let ghost before = place::record_views(rels@);
        rels.push(copy);
        assert(place::record_views(rels@) =~= before.push(v[i as int]));
        assert(start + v.take(i + 1) =~= (start + v.take(i as int)).push(v[i as int]));
        i += 1;
    }
    assert(v.take(i as int) =~= v);
}

/// Builds the output from sections that are placed.
fn link_placed<E: Arch>(
    ctx: &Context,
    list: Vec<usize>,
    vmsize: u64,
    cwd: &[u8],
    image_flags: u32,
) -> (r: Result<Vec<u8>, RelocatableError>)
    requires
        ctx.wf(),
        crate::passes::sections::lists_ok(ctx.layout.chunks@, ctx.inputs.isecs.len() as int),
        forall|i: int| 0 <= i < list.len() ==> (#[trigger] list[i]) < ctx.layout.chunks.len(),
    ensures
        match r {
            Ok(v) => linked::<E>(*ctx, list@, vmsize, cwd@, image_flags) == Ok::<
                Seq<u8>,
                RelocatableError,
            >(v@),
            Err(e) => linked::<E>(*ctx, list@, vmsize, cwd@, image_flags) == Err::<
                Seq<u8>,
                RelocatableError,
            >(e),
        },
{
    let ghost cv = crate::output_chunks::header::chunk_views(ctx.layout.chunks@);
    if list.len() > 255 {
        return Err(RelocatableError::TooManySections);
    }
    let ords: Vec<u8> = number_sections(ctx.layout.chunks.len(), &list);
    assert(ords@ == place::ordinals_to(cv.len() as int, list@, list.len() as int));
    let syms: RelocatableSymbols = match build_symbols::<E>(ctx, &ords, cwd) {
        Some(s) => s,
        None => {
            return Err(RelocatableError::TooLarge);
        },
    };
    let extras: Vec<ExtraSection> = match build_extras::<E>(
        ctx,
        &ords,
        &syms.indices,
        image_flags,
    ) {
        Ok(x) => x,
        Err(e) => {
            return Err(e);
        },
    };
    let ghost xv = extras::extra_views(extras@);
    assert(xv.len() == extras.len());
    let mut rels: Vec<Vec<MachRel>> = match build_all_records::<E>(
        ctx,
        &ords,
        &syms.indices,
        &list,
    ) {
        Ok(v) => v,
        Err(e) => {
            return Err(e);
        },
    };
    let contents: Vec<Vec<u8>> = match copy_all_sections::<E>(ctx, &list) {
        Ok(v) => v,
        Err(e) => {
            return Err(e);
        },
    };
    let image: Vec<u8> = match build_image(&ctx.layout.chunks, &list, &contents) {
        Ok(v) => v,
        Err(e) => {
            return Err(e);
        },
    };
    let placed: Extended = match append_extras(image, vmsize, &extras) {
        Ok(p) => p,
        Err(e) => {
            return Err(e);
        },
    };
    let asked: Vec<&Vec<Vec<u8>>> = list_requests(&ctx.inputs.objs);
    let ghost rv = options::request_views(asked@);
    assert(rv.len() == asked.len());
    let requests: Vec<u8> = match encode_requests(&asked) {
        Some(b) => b,
        None => {
            return Err(RelocatableError::TooLarge);
        },
    };
    proof {
        options::lemma_requests_cover(rv, rv.len() as int);
    }
    push_extra_rels(&extras, &mut rels);
    let nrequests: usize = asked.len();
    let ghost es = symbols::all_entries::<E>(*ctx, ords@, cwd@);
    assert(es.len() == syms.entries.len());
    let parts = Parts {
        list,
        extras,
        placed,
        rels,
        entries: syms.entries,
        nlocal: syms.nlocal,
        nextdef: syms.nextdef,
        requests,
        nrequests,
    };
    assert(parts@ =~= parts_of::<E>(*ctx, parts.list@, vmsize, cwd@, image_flags)->Ok_0);
    assemble::<E>(&parts, &ctx.args, &ctx.layout.chunks)
}

/// Combines the inputs into one object file: places the output sections from
/// address 0 on and returns the bytes of the file. `cwd` is the current
/// directory, and `image_flags` are the merged Objective-C image flags.
pub fn link<E: Arch>(ctx: &mut Context, cwd: &[u8], image_flags: u32) -> (r: Result<
    Vec<u8>,
    RelocatableError,
>)
    requires
        old(ctx).wf(),
        crate::passes::sections::lists_ok(
            old(ctx).layout.chunks@,
            old(ctx).inputs.isecs.len() as int,
        ),
    ensures
        ({
            let chunks = crate::output_chunks::header::chunk_views(old(ctx).layout.chunks@);
            let list = place::section_list(chunks);
            match place::merged_to(chunks, list, list.len() as int) {
                None => r matches Err(e) && e == RelocatableError::TooLarge,
                Some(p) => {
                    &&& p.chunks == crate::output_chunks::header::chunk_views(
                        final(ctx).layout.chunks@,
                    )
                    &&& match r {
                        Ok(v) => linked::<E>(*final(ctx), list, p.at, cwd@, image_flags) == Ok::<
                            Seq<u8>,
                            RelocatableError,
                        >(v@),
                        Err(e) => linked::<E>(*final(ctx), list, p.at, cwd@, image_flags) == Err::<
                            Seq<u8>,
                            RelocatableError,
                        >(e),
                    }
                },
            }
        }),
        final(ctx).wf(),
        final(ctx).inputs == old(ctx).inputs,
        final(ctx).args == old(ctx).args,
{
    let list: Vec<usize> = list_sections(&ctx.layout.chunks);
    let placed: Option<u64> = place_merged(&mut ctx.layout.chunks, &list);
    proof {
        let a = old(ctx).layout.chunks@;
        let b = ctx.layout.chunks@;
        assert(a.len() == b.len());
        assert forall|i: int| 0 <= i < ctx.sym_aux.len() implies ctx.aux_ok(
            #[trigger] ctx.sym_aux[i],
        ) by {
            assert(old(ctx).aux_ok(old(ctx).sym_aux[i]));
        }
        assert forall|i: int| 0 <= i < ctx.inputs.symtab.syms.len() implies ctx.sym_ok(
            #[trigger] ctx.inputs.symtab.syms[i],
        ) by {
            assert(old(ctx).sym_ok(old(ctx).inputs.symtab.syms[i]));
        }
        assert(ctx.wf());
        assert forall|c: int, k: int|
            0 <= c < b.len() && 0 <= k < b[c].isecs.len() implies (#[trigger] b[c].isecs[k])
            < ctx.inputs.isecs.len() by {
            assert(b[c].isecs == a[c].isecs);
            assert(a[c].isecs[k] < ctx.inputs.isecs.len());
        }
    }
    match placed {
        None => Err(RelocatableError::TooLarge),
        Some(vmsize) => link_placed::<E>(ctx, list, vmsize, cwd, image_flags),
    }
}

} // verus!
