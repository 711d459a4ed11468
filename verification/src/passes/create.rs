//! The creation of output sections: all steps together.
use super::chunk_list::{
    add_empty_sections, add_file_sections, add_slot_sections, add_tables, group_segments,
    list_image_infos, merge_image_infos,
};
use super::eh_layout::{drop_folded, lay_out_eh_frame};
use super::offsets::{place_sections, Places};
use super::sections::{apply_ranks, apply_sectalign, assign_sections};
use crate::arch::Arch;
use crate::args::Args;
use crate::context::Slots;
use crate::input_files::eh_frame::{CieView, FdeView};
use crate::input_files::UnwindRecord;
use crate::input_sections::{InputSection, IsecView};
use crate::inputs::Inputs;
use crate::output_chunks::header::{
    Chunk, ChunkKind, ChunkView, OutputMachHeader, OutputSegment, SegmentView,
};
use crate::thunks::{apply_plan, Plan};
use crate::util::{bytes, lists};
use vstd::prelude::*;
use vstd::string::*;

verus! {

/// Why output sections cannot be made.
#[derive(Clone, Copy, Debug, PartialEq, Eq, Structural)]
pub enum SectionError {
    /// The output does not fit in the address space.
    TooLarge,
    /// Objects with different Swift versions.
    SwiftVersions,
}

/// The chunks and segments of the output.
#[derive(Debug)]
pub struct Sections {
    pub chunks: Vec<Chunk>,
    pub segments: Vec<OutputSegment>,
    /// The merged __objc_imageinfo flags, if objects have any.
    pub image_info: Option<u32>,
}

/// Everything that making output sections decides.
#[verifier::ext_equal]
pub struct SectionsView {
    pub chunks: Seq<ChunkView>,
    pub segments: Seq<SegmentView>,
    pub isecs: Seq<IsecView>,
    pub cies: Seq<CieView>,
    pub fdes: Seq<FdeView>,
    pub image_info: Option<u32>,
}

/// The output section of each subsection: the one that it is assigned to, or
/// what it had.
pub open spec fn osec_words(isecs: Seq<InputSection>, osecs: Seq<Option<u32>>) -> Seq<u32> {
    Seq::new(
        isecs.len(),
        |i: int|
            match osecs[i] {
                Some(c) => c,
                None => isecs[i].osec,
            },
    )
}

/// The subsections with their output sections.
pub open spec fn with_osecs(isecs: Seq<IsecView>, osecs: Seq<u32>) -> Seq<IsecView> {
    Seq::new(isecs.len(), |i: int| IsecView { osec: osecs[i], ..isecs[i] })
}

/// The output sections with their subsections in final order.
pub open spec fn collected(x: Inputs, args: Args, ranks: Option<Seq<u64>>) -> (
    Seq<ChunkView>,
    Seq<u32>,
) {
    let start = seq![
        crate::output_chunks::header::new_chunk(
            crate::output_chunks::header::mach_header_chunk(),
            ChunkKind::MachHeader,
        ),
    ];
    let a = super::sections::assigned_to(
        x,
        super::sections::flag_mask(args.sw.relocatable),
        start,
        x.isecs.len() as int,
    );
    let b = super::sections::sectaligned(
        a.chunks,
        super::sections::align_views(args.sectalign@),
        args.sectalign.len() as int,
    );
    (
        match ranks {
            Some(r) => super::sections::ranked(b, r),
            None => b,
        },
        osec_words(x.isecs@, a.osecs),
    )
}

/// The chunks behind the output sections that stand for slots, files and
/// names.
pub open spec fn with_named_sections<E: Arch>(
    chunks: Seq<ChunkView>,
    args: Args,
    slots: Slots,
    inits: int,
    files: Seq<Seq<u8>>,
    boundaries: Seq<(Seq<u8>, Seq<u8>)>,
) -> Seq<ChunkView> {
    let a = super::chunk_list::with_slot_sections::<E>(chunks, slots, inits);
    let b = super::chunk_list::with_files(
        a,
        super::chunk_list::first_names(args.sectcreate@),
        files,
        args.sectcreate.len() as int,
    );
    let c = super::chunk_list::with_empties(
        b,
        super::chunk_list::pair_names(args.add_empty_section@),
        false,
        args.add_empty_section.len() as int,
    );
    super::chunk_list::with_empties(c, boundaries, true, boundaries.len() as int)
}

/// The chunks with the sections for Objective-C and unwinding and the tables
/// added.
pub open spec fn with_last_chunks(
    chunks: Seq<ChunkView>,
    args: Args,
    slots: Slots,
    has_info: bool,
    has_unwind: bool,
    has_fdes: bool,
    eh_size: u32,
) -> Seq<ChunkView> {
    let a = super::chunk_list::add_if(
        chunks,
        has_info,
        super::chunk_list::synthetic(
            "__DATA_CONST".spec_bytes(),
            "__objc_imageinfo".spec_bytes(),
            ChunkKind::ObjcImageInfo,
            0,
            2,
            8,
        ),
    );
    let b = super::chunk_list::add_if(
        a,
        has_unwind,
        super::chunk_list::synthetic(
            "__TEXT".spec_bytes(),
            "__unwind_info".spec_bytes(),
            ChunkKind::UnwindInfo,
            0,
            2,
            0,
        ),
    );
    let c = super::chunk_list::add_if(
        b,
        has_fdes,
        super::chunk_list::synthetic(
            "__TEXT".spec_bytes(),
            "__eh_frame".spec_bytes(),
            ChunkKind::EhFrame,
            0,
            3,
            eh_size as int,
        ),
    );
    super::chunk_list::with_tables(
        c,
        args.sw.split_seg_info,
        args.sw.data_in_code_info,
        args.sw.adhoc_codesign,
        (slots.stub_syms.len() + slots.got_syms.len()) as int,
    )
}

/// The merged image info of the objects, if they have any.
pub open spec fn image_info_of(x: Inputs) -> Result<Option<u32>, SectionError> {
    let infos = super::chunk_list::image_infos(x.objs@, x.objs.len() as int);
    if infos.len() == 0 {
        Ok(None)
    } else {
        match super::chunk_list::merged_image_info(infos) {
            Some(f) => Ok(Some(f)),
            None => Err(SectionError::SwiftVersions),
        }
    }
}

/// Which FDEs reach the output: those whose function was not folded.
pub open spec fn frames_kept(x: Inputs) -> Seq<bool> {
    super::eh_layout::unfolded(x.fdes@, x.isecs@)
}

/// The unwind records, with the FDEs named that reach the output.
pub open spec fn records_left(x: Inputs) -> Seq<UnwindRecord> {
    super::eh_layout::renumbered(x.unwind_records@, frames_kept(x))
}

/// True when a record of `b` names the FDE that the record of `a` named,
/// wherever that FDE now stands, or none if it is gone.
pub open spec fn keeps_frame(a: Inputs, b: Inputs, k: int) -> bool {
    match a.unwind_records[k].fde {
        Some(f) if frames_kept(a)[f as int] => {
            &&& b.unwind_records[k].fde matches Some(g)
            &&& g < b.fdes.len()
            &&& b.fdes[g as int]@ == (FdeView {
                output_offset: b.fdes[g as int]@.output_offset,
                ..a.fdes[f as int]@
            })
        },
        _ => b.unwind_records[k].fde is None,
    }
}

/// The FDEs that reach the output.
pub open spec fn fdes_left(x: Inputs) -> Seq<FdeView> {
    crate::input_files::eh_frame::fde_views(
        lists::kept(x.fdes@, frames_kept(x)),
    )
}

/// Everything that making output sections decides.
pub open spec fn output_sections<E: Arch>(
    x: Inputs,
    args: Args,
    slots: Slots,
    inits: int,
    ranks: Option<Seq<u64>>,
    files: Seq<Seq<u8>>,
    boundaries: Seq<(Seq<u8>, Seq<u8>)>,
) -> Result<SectionsView, SectionError> {
    let (chunks, osecs) = collected(x, args, ranks);
    match super::offsets::all_placed::<E>(
        x,
        osecs,
        chunks,
        crate::thunks::offsets_of(x.isecs@),
    ) {
        None => Err(SectionError::TooLarge),
        Some(p) => match image_info_of(x) {
            Err(e) => Err(e),
            Ok(info) => match super::eh_layout::eh_layout(
                crate::input_files::eh_frame::cie_views(x.cies@),
                fdes_left(x),
            ) {
                None => Err(SectionError::TooLarge),
                Some((cies, fdes, eh_size)) => {
                    let named = with_named_sections::<E>(
                        p.chunks,
                        args,
                        slots,
                        inits,
                        files,
                        boundaries,
                    );
                    let all = with_last_chunks(
                        named,
                        args,
                        slots,
                        info is Some,
                        x.unwind_records.len() > 0,
                        fdes.len() > 0,
                        eh_size,
                    );
                    Ok(
                        SectionsView {
                            chunks: all,
                            segments: super::chunk_list::segments_of(
                                all,
                                args.sw.pagezero_size > 0,
                            ),
                            isecs: crate::thunks::with_entries(
                                crate::thunks::with_offsets(
                                    with_osecs(
                                        crate::input_sections::isec_views(x.isecs@),
                                        osecs,
                                    ),
                                    p.offs,
                                ),
                                p.entries,
                                p.entries.len() as int,
                            ),
                            cies,
                            fdes,
                            image_info: info,
                        },
                    )
                },
            },
        },
    }
}

/// Collects subsections in output sections.
fn collect_sections(x: &Inputs, args: &Args, ranks: &Option<Vec<u64>>) -> (r: (
    Vec<Chunk>,
    Vec<u32>,
))
    requires
        x.wf(),
        ranks matches Some(r) ==> r.len() == x.isecs.len(),
    ensures
        ({
            let rv = match *ranks {
                Some(r) => Some(r@),
                None => None,
            };
            &&& crate::output_chunks::header::chunk_views(r.0@) == collected(*x, *args, rv).0
            &&& r.1@ == collected(*x, *args, rv).1
        }),
        super::sections::lists_ok(r.0@, x.isecs.len() as int),
        r.1.len() == x.isecs.len(),
        forall|i: int|
            0 <= i < r.1.len() ==> (#[trigger] r.1[i]) < r.0.len() || r.1[i]
                == x.isecs[i].osec,
{
    let mut chunks: Vec<Chunk> = Vec::new();
    let c = Chunk::new(OutputMachHeader::new().hdr, ChunkKind::MachHeader);
    assert(c.isecs@ == c@.isecs);
    chunks.push(c);
    assert(crate::output_chunks::header::chunk_views(chunks@) =~= seq![
        crate::output_chunks::header::new_chunk(
            crate::output_chunks::header::mach_header_chunk(),
            ChunkKind::MachHeader,
        ),
    ]);
    let mask: u32 = if args.sw.relocatable {
        0xffff_ffff
    } else {
        !crate::macho::consts::S_ATTR_DEBUG
    };
    let options: Vec<Option<u32>> = assign_sections(x, mask, &mut chunks);
    apply_sectalign(&mut chunks, &args.sectalign);
    match ranks {
        Some(r) => apply_ranks(&mut chunks, r),
        None => {},
    }
    let mut osecs: Vec<u32> = Vec::new();
    while osecs.len() < x.isecs.len()
        invariant
            osecs.len() <= x.isecs.len(),
            options.len() == x.isecs.len(),
            forall|i: int|
                0 <= i < options.len() ==> (#[trigger] options[i] matches Some(c) ==> c
                    < chunks.len()),
            osecs@ =~= osec_words(x.isecs@, options@).take(osecs.len() as int),
            forall|i: int|
                0 <= i < osecs.len() ==> (#[trigger] osecs[i]) < chunks.len() || osecs[i]
                    == x.isecs[i].osec,
        decreases x.isecs.len() - osecs.len(),
    {
        let i: usize = osecs.len();
        match options[i] {
            Some(c) => osecs.push(c),
            None => osecs.push(x.isecs[i].osec),
        }
    }
    assert(osecs@ =~= osec_words(x.isecs@, options@));
    (chunks, osecs)
}

/// Sets the output section of each subsection.
fn set_osecs(isecs: &mut Vec<InputSection>, osecs: &Vec<u32>)
    requires
        osecs.len() == old(isecs).len(),
    ensures
        crate::input_sections::isec_views(final(isecs)@) == with_osecs(
            crate::input_sections::isec_views(old(isecs)@),
            osecs@,
        ),
        crate::thunks::placed_alike(old(isecs)@, final(isecs)@),
        forall|i: int|
            0 <= i < old(isecs).len() ==> (#[trigger] final(isecs)[i]).osec == osecs[i]
                && final(isecs)[i].relocs == old(isecs)[i].relocs,
{
    let ghost start = isecs@;
    let mut i: usize = 0;
    while i < isecs.len()
        invariant
            i <= isecs.len(),
            isecs.len() == start.len(),
            osecs.len() == start.len(),
            forall|k: int|
                0 <= k < i ==> #[trigger] isecs[k] == (InputSection {
                    osec: osecs[k],
                    ..start[k]
                }),
            forall|k: int| i <= k < isecs.len() ==> #[trigger] isecs[k] == start[k],
        decreases isecs.len() - i,
    {
        isecs[i].osec = osecs[i];
        i += 1;
    }
    assert(crate::input_sections::isec_views(isecs@) =~= with_osecs(
        crate::input_sections::isec_views(start),
        osecs@,
    ));
}

proof fn lemma_alike_chain(a: Seq<InputSection>, b: Seq<InputSection>, c: Seq<InputSection>)
    requires
        crate::thunks::placed_alike(a, b),
        crate::thunks::placed_alike(b, c),
    ensures
        crate::thunks::placed_alike(a, c),
{
    assert forall|i: int| 0 <= i < a.len() implies crate::thunks::alike(
        a[i],
        #[trigger] c[i],
    ) by {
        assert(crate::thunks::alike(a[i], b[i]));
        assert(crate::thunks::alike(b[i], c[i]));
        crate::thunks::lemma_alike_transitive(a[i], b[i], c[i]);
    }
}

/// Creates the output section chunks, places each subsection in its chunk,
/// adds the synthesized chunks and groups all chunks into segments.
pub fn create_output_sections<E: Arch>(
    x: &mut Inputs,
    args: &Args,
    slots: &Slots,
    inits: usize,
    ranks: &Option<Vec<u64>>,
    files: &Vec<Vec<u8>>,
    boundaries: &Vec<(Vec<u8>, Vec<u8>)>,
) -> (r: Result<Sections, SectionError>)
    requires
        old(x).wf(),
        old(x).fdes_exist(),
        ranks matches Some(r) ==> r.len() == old(x).isecs.len(),
        super::chunk_list::slots_fit(*slots, inits as int),
        files.len() == args.sectcreate.len(),
    ensures
        ({
            let rv = match *ranks {
                Some(r) => Some(r@),
                None => None,
            };
            let goal = output_sections::<E>(
                *old(x),
                *args,
                *slots,
                inits as int,
                rv,
                bytes::views(files@),
                super::chunk_list::pair_names(boundaries@),
            );
            match r {
                Ok(s) => goal == Ok::<SectionsView, SectionError>(
                    (SectionsView {
                        chunks: crate::output_chunks::header::chunk_views(s.chunks@),
                        segments: crate::output_chunks::header::segment_views(s.segments@),
                        isecs: crate::input_sections::isec_views(final(x).isecs@),
                        cies: crate::input_files::eh_frame::cie_views(final(x).cies@),
                        fdes: crate::input_files::eh_frame::fde_views(final(x).fdes@),
                        image_info: s.image_info,
                    }),
                ),
                Err(e) => goal == Err::<SectionsView, SectionError>(e),
            }
        }),
        final(x).objs == old(x).objs,
        final(x).symtab == old(x).symtab,
        final(x).synthetic_hdrs == old(x).synthetic_hdrs,
        r is Ok ==> final(x).unwind_records@ == records_left(*old(x)),
        r is Ok ==> final(x).fdes_exist() && forall|k: int|
            0 <= k < old(x).unwind_records.len() ==> #[trigger] keeps_frame(*old(x), *final(x), k),
        r is Ok ==> final(x).wf() && crate::thunks::placed_alike(old(x).isecs@, final(x).isecs@),
        r matches Ok(s) ==> {
            &&& super::sections::lists_ok(s.chunks@, final(x).isecs.len() as int)
            &&& super::chunk_list::segs_ok(s.segments@, s.chunks.len() as int)
            &&& forall|i: int|
                0 <= i < final(x).isecs.len() ==> (#[trigger] final(x).isecs[i]).osec
                    < s.chunks.len() || final(x).isecs[i].osec == old(x).isecs[i].osec
        },
{
    let ghost before = *x;
    let (mut chunks, osecs) = collect_sections(x, args, ranks);
    let mut offs: Vec<u64> = Vec::new();
    while offs.len() < x.isecs.len()
        invariant
            *x == before,
            offs.len() <= x.isecs.len(),
            offs@ =~= crate::thunks::offsets_of(x.isecs@).take(offs.len() as int),
        decreases x.isecs.len() - offs.len(),
    {
        let o: u64 = x.isecs[offs.len()].output_offset;
        offs.push(o);
    }
    assert(offs@ =~= crate::thunks::offsets_of(x.isecs@));
    let places: Places = match place_sections::<E>(x, &osecs, &mut chunks, offs) {
        Some(p) => p,
        None => {
            return Err(SectionError::TooLarge);
        },
    };
    let ghost nchunks = chunks.len();
    add_slot_sections::<E>(&mut chunks, slots, inits);
    add_file_sections(&mut chunks, &args.sectcreate, files);
    add_empty_sections(&mut chunks, &args.add_empty_section, false);
    add_empty_sections(&mut chunks, boundaries, true);
    let infos: Vec<u32> = list_image_infos(&x.objs);
    let mut image_info: Option<u32> = None;
    if infos.len() > 0 {
        match merge_image_infos(&infos) {
            Some(f) => {
                image_info = Some(f);
            },
            None => {
                return Err(SectionError::SwiftVersions);
            },
        }
    }
    super::chunk_list::add_section_if(
        &mut chunks,
        image_info.is_some(),
        "__DATA_CONST",
        "__objc_imageinfo",
        ChunkKind::ObjcImageInfo,
        2,
        8,
    );
    super::chunk_list::add_section_if(
        &mut chunks,
        x.unwind_records.len() > 0,
        "__TEXT",
        "__unwind_info",
        ChunkKind::UnwindInfo,
        2,
        0,
    );
    proof {
        assert forall|i: int| 0 <= i < x.fdes.len() implies (#[trigger] x.fdes[i]).isec
            < x.isecs.len() by {
            assert(x.fde_ok(x.fdes[i]));
        }
    }
    drop_folded(&mut x.fdes, &mut x.unwind_records, &x.isecs);
    let ghost left = x.fdes@;
    proof {
        lists::lemma_kept(
            before.fdes@,
            super::eh_layout::unfolded(before.fdes@, before.isecs@),
            before.fdes.len() as int,
        );
        assert forall|i: int| 0 <= i < left.len() implies before.fde_ok(#[trigger] left[i]) by {
            let j = choose|j: int|
                0 <= j < before.fdes.len() && #[trigger] before.fdes@[j] == left[i];
            assert(before.fde_ok(before.fdes[j]));
        }
        if before.fdes.len() > 0 {
            lists::lemma_count_kept(
                super::eh_layout::unfolded(before.fdes@, before.isecs@),
                0,
            );
        }
    }
    let eh_size: u32 = match lay_out_eh_frame(&mut x.cies, &mut x.fdes) {
        Some(s) => s,
        None => {
            return Err(SectionError::TooLarge);
        },
    };
    super::chunk_list::add_section_if(
        &mut chunks,
        x.fdes.len() > 0,
        "__TEXT",
        "__eh_frame",
        ChunkKind::EhFrame,
        3,
        eh_size as u64,
    );
    let nslots: u64 = slots.stub_syms.len() as u64 + slots.got_syms.len() as u64;
    add_tables(
        &mut chunks,
        args.sw.split_seg_info,
        args.sw.data_in_code_info,
        args.sw.adhoc_codesign,
        nslots,
    );
    let segments: Vec<OutputSegment> = group_segments(&chunks, args.sw.pagezero_size > 0);
    let ghost mid = *x;
    set_osecs(&mut x.isecs, &osecs);
    let ghost assigned = x.isecs@;
    let plan = Plan {
        offs: places.offs,
        off: 0,
        thunks: Vec::new(),
        entries: places.entries,
    };
    apply_plan(&mut x.isecs, &plan);
    proof {
        lemma_alike_chain(before.isecs@, assigned, x.isecs@);
        lemma_created_wf(before, *x, left);
        lemma_frames(before, *x);
    }
    Ok(Sections { chunks, segments, image_info })
}

/// A record's FDE is found under its new number.
proof fn lemma_keeps_frame(before: Inputs, x: Inputs, k: int)
    requires
        before.fdes_exist(),
        0 <= k < before.unwind_records.len(),
        x.unwind_records@ == records_left(before),
        super::eh_layout::eh_layout(
            crate::input_files::eh_frame::cie_views(before.cies@),
            fdes_left(before),
        ) matches Some(l) && l.1 == crate::input_files::eh_frame::fde_views(x.fdes@),
    ensures
        keeps_frame(before, x, k),
{
    let views = crate::input_files::eh_frame::fde_views(x.fdes@);
    assert(views.len() == x.fdes.len());
    assert(views.len() == fdes_left(before).len());
    let r = before.unwind_records[k];
    let kept = frames_kept(before);
    lists::lemma_kept(before.fdes@, kept, before.fdes.len() as int);
    assert(x.unwind_records@[k].fde == super::dead_strip::moved_fde(r.fde, kept));
    if let Some(f) = r.fde {
        lists::lemma_count_kept(kept, f as int);
        if kept[f as int] {
            let g = lists::count_kept(kept, f as int);
            assert(views[g] == x.fdes[g]@);
            assert(fdes_left(before)[g] == before.fdes[f as int]@);
        }
    }
}

/// Every record keeps its frame, and names one that exists.
proof fn lemma_frames(before: Inputs, x: Inputs)
    requires
        before.fdes_exist(),
        x.unwind_records@ == records_left(before),
        super::eh_layout::eh_layout(
            crate::input_files::eh_frame::cie_views(before.cies@),
            fdes_left(before),
        ) matches Some(l) && l.1 == crate::input_files::eh_frame::fde_views(x.fdes@),
    ensures
        x.fdes_exist(),
        forall|k: int|
            0 <= k < before.unwind_records.len() ==> #[trigger] keeps_frame(before, x, k),
{
    assert forall|k: int| 0 <= k < before.unwind_records.len() implies #[trigger] keeps_frame(
        before,
        x,
        k,
    ) by {
        lemma_keeps_frame(before, x, k);
    }
    assert forall|k: int| 0 <= k < x.unwind_records.len() implies ((
    #[trigger] x.unwind_records[k]).fde matches Some(f) ==> f < x.fdes.len()) by {
        assert(keeps_frame(before, x, k));
    }
}

proof fn lemma_created_wf(before: Inputs, x: Inputs, left: Seq<crate::input_files::Fde>)
    requires
        before.wf(),
        crate::thunks::placed_alike(before.isecs@, x.isecs@),
        x.objs == before.objs,
        x.symtab == before.symtab,
        x.synthetic_hdrs == before.synthetic_hdrs,
        x.unwind_records@ == records_left(before),
        x.cies.len() == before.cies.len(),
        forall|i: int|
            0 <= i < x.cies.len() ==> (#[trigger] x.cies[i]).personality
                == before.cies[i].personality,
        x.fdes.len() == left.len(),
        left.len() <= before.fdes.len(),
        forall|i: int| 0 <= i < left.len() ==> before.fde_ok(#[trigger] left[i]),
        forall|i: int|
            0 <= i < left.len() ==> (#[trigger] x.fdes[i]).isec == left[i].isec && x.fdes[i].cie
                == left[i].cie && x.fdes[i].lsda == left[i].lsda,
    ensures
        x.wf(),
{
    crate::thunks::lemma_placed_isecs(before, x);
    assert forall|i: int| 0 <= i < x.objs.len() implies x.obj_ok(#[trigger] x.objs[i]) by {
        assert(before.obj_ok(before.objs[i]));
    }
    assert forall|i: int| 0 <= i < x.fdes.len() implies x.fde_ok(#[trigger] x.fdes[i]) by {
        assert(before.fde_ok(left[i]));
    }
    assert forall|i: int| 0 <= i < x.unwind_records.len() implies x.record_ok(
        #[trigger] x.unwind_records[i],
    ) by {
        assert(before.record_ok(before.unwind_records[i]));
    }
    assert forall|i: int| 0 <= i < x.cies.len() implies x.cie_ok(#[trigger] x.cies[i]) by {
        assert(before.cie_ok(before.cies[i]));
    }
    assert forall|i: int| 0 <= i < x.symtab.syms.len() implies x.sym_ok(
        #[trigger] x.symtab.syms[i],
    ) by {
        assert(before.sym_ok(before.symtab.syms[i]));
    }
}

} // verus!
