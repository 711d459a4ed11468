//! The list of chunks that the linker synthesizes, and the grouping of all
//! chunks into segments.
use crate::arch::Arch;
use crate::context::Slots;
use crate::input_files::ObjectFile;
use crate::macho::consts::{
    S_ATTR_NO_DEAD_STRIP, S_ATTR_PURE_INSTRUCTIONS, S_ATTR_SOME_INSTRUCTIONS,
    S_CSTRING_LITERALS, S_INIT_FUNC_OFFSETS, S_LITERAL_POINTERS, S_NON_LAZY_SYMBOL_POINTERS,
    S_SYMBOL_STUBS, S_THREAD_LOCAL_VARIABLE_POINTERS,
};
use crate::output_chunks::header::{
    Chunk, ChunkHeader, ChunkKind, ChunkView, HeaderView, OutputSegment, SegmentView,
};
use crate::util::{bytes, order};
use vstd::prelude::*;
use vstd::string::*;

verus! {

/// The chunks with another one behind them, if it is wanted.
pub open spec fn add_if(chunks: Seq<ChunkView>, wanted: bool, c: ChunkView) -> Seq<ChunkView> {
    if wanted {
        chunks.push(c)
    } else {
        chunks
    }
}

fn push_if(chunks: &mut Vec<Chunk>, wanted: bool, c: Chunk)
    ensures
        crate::output_chunks::header::chunk_views(final(chunks)@) == add_if(
            crate::output_chunks::header::chunk_views(old(chunks)@),
            wanted,
            c@,
        ),
        final(chunks).len() <= old(chunks).len() + 1,
        old(chunks)@.is_prefix_of(final(chunks)@),
        c.isecs.len() == 0 ==> forall|n: int|
            super::sections::lists_ok(old(chunks)@, n) ==> super::sections::lists_ok(
                final(chunks)@,
                n,
            ),
{
    let ghost start = chunks@;
    if wanted {
        chunks.push(c);
        assert(crate::output_chunks::header::chunk_views(chunks@)
            =~= crate::output_chunks::header::chunk_views(start).push(c@));
        proof {
            assert forall|n: int| super::sections::lists_ok(start, n) && c.isecs.len()
                == 0 implies super::sections::lists_ok(chunks@, n) by {
                assert forall|d: int, k: int|
                    0 <= d < chunks@.len() && 0 <= k < chunks@[d].isecs.len() implies (
                #[trigger] chunks@[d].isecs[k]) < n by {
                    if d < start.len() {
                        assert(start[d].isecs[k] < n);
                    }
                }
            }
        }
    }
}

/// A synthesized section.
pub open spec fn synthetic(
    segname: Seq<u8>,
    sectname: Seq<u8>,
    kind: ChunkKind,
    flags: u32,
    p2align: u32,
    size: int,
) -> ChunkView {
    crate::output_chunks::header::new_chunk(
        HeaderView {
            flags,
            p2align,
            size: size as u64,
            ..crate::output_chunks::header::new_header(segname, sectname)
        },
        kind,
    )
}

fn make_synthetic(
    segname: &str,
    sectname: &str,
    kind: ChunkKind,
    flags: u32,
    p2align: u32,
    size: u64,
) -> (r: Chunk)
    ensures
        r@ == synthetic(
            segname.spec_bytes(),
            sectname.spec_bytes(),
            kind,
            flags,
            p2align,
            size as int,
        ),
        r.isecs.len() == 0,
{
    let mut h = ChunkHeader::new(segname.as_bytes(), sectname.as_bytes());
    h.flags = flags;
    h.p2align = p2align;
    h.size = size;
    let r = Chunk::new(h, kind);
    assert(r.isecs@ == r@.isecs);
    r
}

/// Adds a synthesized section without flags, if it is wanted.
pub fn add_section_if(
    chunks: &mut Vec<Chunk>,
    wanted: bool,
    segname: &str,
    sectname: &str,
    kind: ChunkKind,
    p2align: u32,
    size: u64,
)
    ensures
        crate::output_chunks::header::chunk_views(final(chunks)@) == add_if(
            crate::output_chunks::header::chunk_views(old(chunks)@),
            wanted,
            synthetic(
                segname.spec_bytes(),
                sectname.spec_bytes(),
                kind,
                0,
                p2align,
                size as int,
            ),
        ),
        forall|n: int|
            super::sections::lists_ok(old(chunks)@, n) ==> super::sections::lists_ok(
                final(chunks)@,
                n,
            ),
        old(chunks)@.is_prefix_of(final(chunks)@),
{
    let c = make_synthetic(segname, sectname, kind, 0, p2align, size);
    push_if(chunks, wanted, c);
}

/// The __stubs section.
pub open spec fn stubs_chunk<E: Arch>(n: int) -> ChunkView {
    let c = synthetic(
        "__TEXT".spec_bytes(),
        "__stubs".spec_bytes(),
        ChunkKind::Stubs,
        S_SYMBOL_STUBS | S_ATTR_PURE_INSTRUCTIONS | S_ATTR_SOME_INSTRUCTIONS,
        2,
        n * E::info().stub_size,
    );
    ChunkView { hdr: HeaderView { reserved2: E::info().stub_size as u32, ..c.hdr }, ..c }
}

/// The __got section. In the indirect symbol table its entries follow those
/// of the stubs.
pub open spec fn got_chunk(n: int, stubs: int) -> ChunkView {
    let c = synthetic(
        "__DATA_CONST".spec_bytes(),
        "__got".spec_bytes(),
        ChunkKind::Got,
        S_NON_LAZY_SYMBOL_POINTERS,
        3,
        n * 8,
    );
    ChunkView { hdr: HeaderView { reserved1: stubs as u32, ..c.hdr }, ..c }
}

/// The chunks with the sections of synthetic slots and initializers added.
pub open spec fn with_slot_sections<E: Arch>(
    chunks: Seq<ChunkView>,
    slots: Slots,
    inits: int,
) -> Seq<ChunkView> {
    let nstubs = slots.stub_syms.len() as int;
    let ngot = slots.got_syms.len() as int;
    let ntlv = slots.thread_ptr_syms.len() as int;
    let nobjc = slots.objc_stubs.len() as int;
    let code = S_ATTR_PURE_INSTRUCTIONS | S_ATTR_SOME_INSTRUCTIONS;
    let a = add_if(chunks, nstubs > 0, stubs_chunk::<E>(nstubs));
    let b = add_if(a, ngot > 0, got_chunk(ngot, nstubs));
    let c = add_if(
        b,
        inits > 0,
        synthetic(
            "__TEXT".spec_bytes(),
            "__init_offsets".spec_bytes(),
            ChunkKind::InitOffsets,
            S_INIT_FUNC_OFFSETS,
            2,
            inits * 4,
        ),
    );
    let d = add_if(
        c,
        ntlv > 0,
        synthetic(
            "__DATA".spec_bytes(),
            "__thread_ptrs".spec_bytes(),
            ChunkKind::ThreadPtrs,
            S_THREAD_LOCAL_VARIABLE_POINTERS,
            3,
            ntlv * 8,
        ),
    );
    let e = add_if(
        d,
        nobjc > 0,
        synthetic(
            "__TEXT".spec_bytes(),
            "__objc_stubs".spec_bytes(),
            ChunkKind::ObjcStubs,
            code,
            5,
            nobjc * E::info().objc_stub_size,
        ),
    );
    let f = add_if(
        e,
        nobjc > 0,
        synthetic(
            "__TEXT".spec_bytes(),
            "__objc_methname".spec_bytes(),
            ChunkKind::ObjcMethname,
            S_CSTRING_LITERALS,
            0,
            slots.objc_methname_data.len() as int,
        ),
    );
    add_if(
        f,
        nobjc > 0,
        synthetic(
            "__DATA".spec_bytes(),
            "__objc_selrefs".spec_bytes(),
            ChunkKind::ObjcSelrefs,
            S_LITERAL_POINTERS | S_ATTR_NO_DEAD_STRIP,
            3,
            nobjc * 8,
        ),
    )
}

/// True when there are no more slots than symbols can be.
pub open spec fn slots_fit(slots: Slots, inits: int) -> bool {
    &&& slots.stub_syms.len() <= u32::MAX
    &&& slots.got_syms.len() <= u32::MAX
    &&& slots.thread_ptr_syms.len() <= u32::MAX
    &&& slots.objc_stubs.len() <= u32::MAX
    &&& inits <= 0xffff_ffff_ffff
}

fn product(n: usize, size: u64) -> (r: u64)
    requires
        n <= u32::MAX,
        size <= 64,
    ensures
        r == n * size,
{
    assert(n * size <= 0xffff_ffff * 64) by (nonlinear_arith)
        requires
            n <= 0xffff_ffff,
            size <= 64,
    ;
    n as u64 * size
}

/// Adds the sections of synthetic slots and initializers.
pub fn add_slot_sections<E: Arch>(chunks: &mut Vec<Chunk>, slots: &Slots, inits: usize)
    requires
        slots_fit(*slots, inits as int),
    ensures
        crate::output_chunks::header::chunk_views(final(chunks)@) == with_slot_sections::<E>(
            crate::output_chunks::header::chunk_views(old(chunks)@),
            *slots,
            inits as int,
        ),
        forall|n: int|
            super::sections::lists_ok(old(chunks)@, n) ==> super::sections::lists_ok(
                final(chunks)@,
                n,
            ),
        old(chunks)@.is_prefix_of(final(chunks)@),
        final(chunks).len() <= old(chunks).len() + 7,
{
    let info = E::get_info();
    let nstubs: usize = slots.stub_syms.len();
    let ngot: usize = slots.got_syms.len();
    let ntlv: usize = slots.thread_ptr_syms.len();
    let nobjc: usize = slots.objc_stubs.len();
    let mut c = make_synthetic(
        "__TEXT",
        "__stubs",
        ChunkKind::Stubs,
        S_SYMBOL_STUBS | S_ATTR_PURE_INSTRUCTIONS | S_ATTR_SOME_INSTRUCTIONS,
        2,
        product(nstubs, info.stub_size),
    );
    c.hdr.reserved2 = info.stub_size as u32;
    push_if(chunks, nstubs > 0, c);
    let mut c = make_synthetic(
        "__DATA_CONST",
        "__got",
        ChunkKind::Got,
        S_NON_LAZY_SYMBOL_POINTERS,
        3,
        product(ngot, 8),
    );
    c.hdr.reserved1 = nstubs as u32;
    push_if(chunks, ngot > 0, c);
    let c = make_synthetic(
        "__TEXT",
        "__init_offsets",
        ChunkKind::InitOffsets,
        S_INIT_FUNC_OFFSETS,
        2,
        inits as u64 * 4,
    );
    push_if(chunks, inits > 0, c);
    let c = make_synthetic(
        "__DATA",
        "__thread_ptrs",
        ChunkKind::ThreadPtrs,
        S_THREAD_LOCAL_VARIABLE_POINTERS,
        3,
        product(ntlv, 8),
    );
    push_if(chunks, ntlv > 0, c);
    let c = make_synthetic(
        "__TEXT",
        "__objc_stubs",
        ChunkKind::ObjcStubs,
        S_ATTR_PURE_INSTRUCTIONS | S_ATTR_SOME_INSTRUCTIONS,
        5,
        product(nobjc, info.objc_stub_size),
    );
    push_if(chunks, nobjc > 0, c);
    let c = make_synthetic(
        "__TEXT",
        "__objc_methname",
        ChunkKind::ObjcMethname,
        S_CSTRING_LITERALS,
        0,
        slots.objc_methname_data.len() as u64,
    );
    push_if(chunks, nobjc > 0, c);
    let c = make_synthetic(
        "__DATA",
        "__objc_selrefs",
        ChunkKind::ObjcSelrefs,
        S_LITERAL_POINTERS | S_ATTR_NO_DEAD_STRIP,
        3,
        product(nobjc, 8),
    );
    push_if(chunks, nobjc > 0, c);
}

/// A section with the given contents.
pub open spec fn content_chunk(
    segname: Seq<u8>,
    sectname: Seq<u8>,
    contents: Seq<u8>,
) -> ChunkView {
    ChunkView {
        contents,
        ..synthetic(segname, sectname, ChunkKind::SectCreate, 0, 0, contents.len() as int)
    }
}

fn make_content(segname: &[u8], sectname: &[u8], contents: Vec<u8>) -> (r: Chunk)
    ensures
        r@ == content_chunk(segname@, sectname@, contents@),
        r.isecs.len() == 0,
{
    let mut h = ChunkHeader::new(segname, sectname);
    h.size = contents.len() as u64;
    let mut r = Chunk::new(h, ChunkKind::SectCreate);
    assert(r.isecs@ == r@.isecs);
    r.contents = contents;
    r
}

/// -sectcreate: a section for each file, in order.
pub open spec fn with_files(
    chunks: Seq<ChunkView>,
    names: Seq<(Seq<u8>, Seq<u8>)>,
    files: Seq<Seq<u8>>,
    n: int,
) -> Seq<ChunkView>
    decreases n,
{
    if n <= 0 {
        chunks
    } else {
        with_files(chunks, names, files, n - 1).push(
            content_chunk(names[n - 1].0, names[n - 1].1, files[n - 1]),
        )
    }
}

/// What pairs of names say.
pub open spec fn pair_names(v: Seq<(Vec<u8>, Vec<u8>)>) -> Seq<(Seq<u8>, Seq<u8>)> {
    v.map_values(|p: (Vec<u8>, Vec<u8>)| (p.0@, p.1@))
}

/// The first two of three names.
pub open spec fn first_names(v: Seq<(Vec<u8>, Vec<u8>, Vec<u8>)>) -> Seq<(Seq<u8>, Seq<u8>)> {
    v.map_values(|p: (Vec<u8>, Vec<u8>, Vec<u8>)| (p.0@, p.1@))
}

/// Adds a section for each file.
pub fn add_file_sections(
    chunks: &mut Vec<Chunk>,
    names: &Vec<(Vec<u8>, Vec<u8>, Vec<u8>)>,
    files: &Vec<Vec<u8>>,
)
    requires
        names.len() == files.len(),
    ensures
        crate::output_chunks::header::chunk_views(final(chunks)@) == with_files(
            crate::output_chunks::header::chunk_views(old(chunks)@),
            first_names(names@),
            bytes::views(files@),
            names.len() as int,
        ),
        forall|n: int|
            super::sections::lists_ok(old(chunks)@, n) ==> super::sections::lists_ok(
                final(chunks)@,
                n,
            ),
        old(chunks)@.is_prefix_of(final(chunks)@),
{
    let ghost start = crate::output_chunks::header::chunk_views(chunks@);
    let ghost first = chunks@;
    let ghost nv = first_names(names@);
    let ghost fv = bytes::views(files@);
    let mut i: usize = 0;
    while i < names.len()
        invariant
            i <= names.len(),
            names.len() == files.len(),
            nv == first_names(names@),
            fv == bytes::views(files@),
            crate::output_chunks::header::chunk_views(chunks@) == with_files(
                start,
                nv,
                fv,
                i as int,
            ),
            forall|n: int|
                super::sections::lists_ok(first, n) ==> super::sections::lists_ok(chunks@, n),
            first.is_prefix_of(chunks@),
        decreases names.len() - i,
    {
        let n: &(Vec<u8>, Vec<u8>, Vec<u8>) = &names[i];
        assert(nv[i as int] == (n.0@, n.1@));
        assert(fv[i as int] == files[i as int]@);
        let c = make_content(
            n.0.as_slice(),
            n.1.as_slice(),
            bytes::to_vec(files[i].as_slice()),
        );
        push_if(chunks, true, c);
        i += 1;
    }
}

/// True when one of the first `n` chunks is a section of the given names.
pub open spec fn has_section(
    chunks: Seq<ChunkView>,
    segname: Seq<u8>,
    sectname: Seq<u8>,
    n: int,
) -> bool
    decreases n,
{
    n > 0 && (chunks[n - 1].hdr.is_named(segname, sectname) || has_section(
        chunks,
        segname,
        sectname,
        n - 1,
    ))
}

fn find_named(chunks: &Vec<Chunk>, segname: &[u8], sectname: &[u8]) -> (r: bool)
    ensures
        r == has_section(
            crate::output_chunks::header::chunk_views(chunks@),
            segname@,
            sectname@,
            chunks.len() as int,
        ),
{
    let ghost cv = crate::output_chunks::header::chunk_views(chunks@);
    let mut found: bool = false;
    let mut i: usize = 0;
    while i < chunks.len()
        invariant
            i <= chunks.len(),
            cv == crate::output_chunks::header::chunk_views(chunks@),
            found == has_section(cv, segname@, sectname@, i as int),
        decreases chunks.len() - i,
    {
        assert(cv[i as int] == chunks[i as int]@);
        let hit: bool = chunks[i].hdr.has_names(segname, sectname);
        found = found || hit;
        i += 1;
    }
    found
}

/// The chunks with an empty section for each listed pair of names, or for
/// each that no section has.
pub open spec fn with_empties(
    chunks: Seq<ChunkView>,
    names: Seq<(Seq<u8>, Seq<u8>)>,
    only_missing: bool,
    n: int,
) -> Seq<ChunkView>
    decreases n,
{
    if n <= 0 {
        chunks
    } else {
        let before = with_empties(chunks, names, only_missing, n - 1);
        let p = names[n - 1];
        add_if(
            before,
            !(only_missing && has_section(before, p.0, p.1, before.len() as int)),
            content_chunk(p.0, p.1, Seq::empty()),
        )
    }
}

/// Adds empty sections.
pub fn add_empty_sections(
    chunks: &mut Vec<Chunk>,
    names: &Vec<(Vec<u8>, Vec<u8>)>,
    only_missing: bool,
)
    ensures
        crate::output_chunks::header::chunk_views(final(chunks)@) == with_empties(
            crate::output_chunks::header::chunk_views(old(chunks)@),
            pair_names(names@),
            only_missing,
            names.len() as int,
        ),
        forall|n: int|
            super::sections::lists_ok(old(chunks)@, n) ==> super::sections::lists_ok(
                final(chunks)@,
                n,
            ),
        old(chunks)@.is_prefix_of(final(chunks)@),
{
    let ghost start = crate::output_chunks::header::chunk_views(chunks@);
    let ghost first = chunks@;
    let ghost nv = pair_names(names@);
    let mut i: usize = 0;
    while i < names.len()
        invariant
            i <= names.len(),
            nv == pair_names(names@),
            crate::output_chunks::header::chunk_views(chunks@) == with_empties(
                start,
                nv,
                only_missing,
                i as int,
            ),
            forall|n: int|
                super::sections::lists_ok(first, n) ==> super::sections::lists_ok(chunks@, n),
            first.is_prefix_of(chunks@),
        decreases names.len() - i,
    {
        let n: &(Vec<u8>, Vec<u8>) = &names[i];
        assert(nv[i as int] == (n.0@, n.1@));
        let there: bool = only_missing && find_named(chunks, n.0.as_slice(), n.1.as_slice());
        let empty: Vec<u8> = Vec::new();
        assert(empty@ =~= Seq::empty());
        let c = make_content(n.0.as_slice(), n.1.as_slice(), empty);
        push_if(chunks, !there, c);
        i += 1;
    }
}

/// The __objc_imageinfo flags of the first `n` objects that are alive and
/// have any.
pub open spec fn image_infos(objs: Seq<ObjectFile>, n: int) -> Seq<u32>
    decreases n,
{
    if n <= 0 {
        Seq::empty()
    } else {
        let before = image_infos(objs, n - 1);
        match objs[n - 1].objc_image_info {
            Some(f) if objs[n - 1].is_alive => before.push(f),
            _ => before,
        }
    }
}

/// The Swift version that the first `n` records agree on: 0 if none states
/// one, `None` if they disagree.
pub open spec fn swift_version(infos: Seq<u32>, n: int) -> Option<u32>
    decreases n,
{
    if n <= 0 {
        Some(0)
    } else {
        let v = (infos[n - 1] >> 8u32) & 0xff;
        match swift_version(infos, n - 1) {
            None => None,
            Some(w) => if w == 0 {
                Some(v)
            } else if v != 0 && v != w {
                None
            } else {
                Some(w)
            },
        }
    }
}

/// The newest Swift language version of the first `n` records.
pub open spec fn newest_language(infos: Seq<u32>, n: int) -> u32
    decreases n,
{
    if n <= 0 {
        0
    } else {
        super::sections::larger(newest_language(infos, n - 1), infos[n - 1] >> 16u32)
    }
}

/// True when all of the first `n` records have category class properties.
pub open spec fn all_have_properties(infos: Seq<u32>, n: int) -> bool
    decreases n,
{
    n <= 0 || (infos[n - 1] & 0x40 != 0 && all_have_properties(infos, n - 1))
}

/// The merged flags of all records. `None` if the Swift versions disagree.
pub open spec fn merged_image_info(infos: Seq<u32>) -> Option<u32> {
    let n = infos.len() as int;
    match swift_version(infos, n) {
        None => None,
        Some(v) => Some(
            (newest_language(infos, n) << 16u32) | (v << 8u32) | if all_have_properties(
                infos,
                n,
            ) {
                0x40u32
            } else {
                0u32
            },
        ),
    }
}

/// Lists the flags of the objects that are alive and have any.
pub fn list_image_infos(objs: &Vec<ObjectFile>) -> (r: Vec<u32>)
    ensures
        r@ == image_infos(objs@, objs.len() as int),
{
    let mut r: Vec<u32> = Vec::new();
    let mut i: usize = 0;
    while i < objs.len()
        invariant
            i <= objs.len(),
            r@ == image_infos(objs@, i as int),
        decreases objs.len() - i,
    {
        if objs[i].is_alive {
            if let Some(f) = objs[i].objc_image_info {
                r.push(f);
            }
        }
        i += 1;
    }
    r
}

proof fn lemma_swift_none(infos: Seq<u32>, a: int, b: int)
    requires
        a <= b,
        swift_version(infos, a) is None,
    ensures
        swift_version(infos, b) is None,
    decreases b - a,
{
    if a < b && b > 0 {
        lemma_swift_none(infos, a, b - 1);
    }
}

/// Merges the objects' __objc_imageinfo records: the Swift version must
/// agree, the language version is the newest, and the category class
/// properties bit holds only if every record has it.
pub fn merge_image_infos(infos: &Vec<u32>) -> (r: Option<u32>)
    ensures
        r == merged_image_info(infos@),
{
    let mut swift: u32 = 0;
    let mut lang: u32 = 0;
    let mut cat: bool = true;
    let mut i: usize = 0;
    while i < infos.len()
        invariant
            i <= infos.len(),
            swift_version(infos@, i as int) == Some(swift),
            lang == newest_language(infos@, i as int),
            cat == all_have_properties(infos@, i as int),
        decreases infos.len() - i,
    {
        let f: u32 = infos[i];
        let v: u32 = (f >> 8u32) & 0xff;
        if swift == 0 {
            swift = v;
        } else if v != 0 && v != swift {
            proof {
                lemma_swift_none(infos@, i + 1, infos.len() as int);
            }
            return None;
        }
        let l: u32 = f >> 16u32;
        if lang < l {
            lang = l;
        }
        cat = cat && f & 0x40 != 0;
        i += 1;
    }
    let bit: u32 = if cat {
        0x40
    } else {
        0
    };
    Some((lang << 16u32) | (swift << 8u32) | bit)
}

/// A table in __LINKEDIT.
pub open spec fn table_chunk(kind: ChunkKind, size: int) -> ChunkView {
    crate::output_chunks::header::new_chunk(
        HeaderView {
            size: size as u64,
            ..crate::output_chunks::header::linkedit_header()
        },
        kind,
    )
}

fn make_table(kind: ChunkKind, size: u64) -> (r: Chunk)
    ensures
        r@ == table_chunk(kind, size as int),
        r.isecs.len() == 0,
{
    let mut h = ChunkHeader::linkedit();
    h.size = size;
    let r = Chunk::new(h, kind);
    assert(r.isecs@ == r@.isecs);
    r
}

/// The chunks with the tables of __LINKEDIT added.
pub open spec fn with_tables(
    chunks: Seq<ChunkView>,
    split_info: bool,
    data_in_code: bool,
    codesign: bool,
    nslots: int,
) -> Seq<ChunkView> {
    let a = chunks.push(table_chunk(ChunkKind::ChainedFixups, 0)).push(
        table_chunk(ChunkKind::RebaseInfo, 0),
    ).push(table_chunk(ChunkKind::BindInfo, 0)).push(table_chunk(ChunkKind::ExportTrie, 0));
    let s = add_if(a, split_info, table_chunk(ChunkKind::SplitInfo, 0)).push(
        table_chunk(ChunkKind::FunctionStarts, 0),
    );
    let b = add_if(s, data_in_code, table_chunk(ChunkKind::DataInCode, 0)).push(
        table_chunk(ChunkKind::Symtab, 0),
    );
    let c = add_if(b, nslots > 0, table_chunk(ChunkKind::IndirectSymtab, nslots * 4)).push(
        table_chunk(ChunkKind::Strtab, 0),
    );
    add_if(c, codesign, table_chunk(ChunkKind::CodeSignature, 0))
}

/// Adds the tables of __LINKEDIT.
pub fn add_tables(
    chunks: &mut Vec<Chunk>,
    split_info: bool,
    data_in_code: bool,
    codesign: bool,
    nslots: u64,
)
    requires
        nslots <= 0xffff_ffff_ffff,
    ensures
        crate::output_chunks::header::chunk_views(final(chunks)@) == with_tables(
            crate::output_chunks::header::chunk_views(old(chunks)@),
            split_info,
            data_in_code,
            codesign,
            nslots as int,
        ),
        forall|n: int|
            super::sections::lists_ok(old(chunks)@, n) ==> super::sections::lists_ok(
                final(chunks)@,
                n,
            ),
        old(chunks)@.is_prefix_of(final(chunks)@),
{
    push_if(chunks, true, make_table(ChunkKind::ChainedFixups, 0));
    push_if(chunks, true, make_table(ChunkKind::RebaseInfo, 0));
    push_if(chunks, true, make_table(ChunkKind::BindInfo, 0));
    push_if(chunks, true, make_table(ChunkKind::ExportTrie, 0));
    push_if(chunks, split_info, make_table(ChunkKind::SplitInfo, 0));
    push_if(chunks, true, make_table(ChunkKind::FunctionStarts, 0));
    push_if(chunks, data_in_code, make_table(ChunkKind::DataInCode, 0));
    push_if(chunks, true, make_table(ChunkKind::Symtab, 0));
    push_if(chunks, nslots > 0, make_table(ChunkKind::IndirectSymtab, nslots * 4));
    push_if(chunks, true, make_table(ChunkKind::Strtab, 0));
    push_if(chunks, codesign, make_table(ChunkKind::CodeSignature, 0));
}

/// How sections are ordered within their segment. The thread-local
/// initialization image must be contiguous: __thread_data is last among the
/// sections with contents, __thread_bss first among those without.
pub open spec fn section_rank(segname: Seq<u8>, sectname: Seq<u8>) -> u32 {
    if segname == "__TEXT".spec_bytes() {
        if sectname == "__text".spec_bytes() {
            0
        } else {
            1
        }
    } else if segname == "__DATA".spec_bytes() {
        if sectname == "__thread_vars".spec_bytes() {
            8
        } else if sectname == "__thread_data".spec_bytes() {
            9
        } else if sectname == "__thread_bss".spec_bytes() {
            0
        } else if sectname == "__bss".spec_bytes() {
            3
        } else if sectname == "__common".spec_bytes() {
            4
        } else {
            2
        }
    } else {
        2
    }
}

/// How sections are ordered within their segment.
pub fn output_section_rank(segname: &[u8], sectname: &[u8]) -> (r: u32)
    ensures
        r == section_rank(segname@, sectname@),
{
    if bytes::same(segname, "__TEXT".as_bytes()) {
        if bytes::same(sectname, "__text".as_bytes()) {
            0
        } else {
            1
        }
    } else if bytes::same(segname, "__DATA".as_bytes()) {
        if bytes::same(sectname, "__thread_vars".as_bytes()) {
            8
        } else if bytes::same(sectname, "__thread_data".as_bytes()) {
            9
        } else if bytes::same(sectname, "__thread_bss".as_bytes()) {
            0
        } else if bytes::same(sectname, "__bss".as_bytes()) {
            3
        } else if bytes::same(sectname, "__common".as_bytes()) {
            4
        } else {
            2
        }
    } else {
        2
    }
}

/// The standard order of segments.
pub open spec fn segment_rank(name: Seq<u8>) -> u64 {
    if name == "__TEXT".spec_bytes() {
        0
    } else if name == "__DATA_CONST".spec_bytes() {
        1
    } else if name == "__DATA".spec_bytes() {
        2
    } else if name == "__LINKEDIT".spec_bytes() {
        4
    } else {
        3
    }
}

fn find_segment_rank(name: &[u8]) -> (r: u64)
    ensures
        r == segment_rank(name@),
        r <= 4,
{
    if bytes::same(name, "__TEXT".as_bytes()) {
        0
    } else if bytes::same(name, "__DATA_CONST".as_bytes()) {
        1
    } else if bytes::same(name, "__DATA".as_bytes()) {
        2
    } else if bytes::same(name, "__LINKEDIT".as_bytes()) {
        4
    } else {
        3
    }
}

/// How a chunk is ordered within its segment.
pub open spec fn chunk_rank(c: ChunkView) -> u64 {
    match c.kind {
        ChunkKind::MachHeader => 0,
        ChunkKind::UnwindInfo => 100,
        ChunkKind::EhFrame => 101,
        ChunkKind::CodeSignature => u32::MAX as u64,
        _ => (1 + section_rank(c.hdr.segname, c.hdr.sectname)) as u64,
    }
}

/// What chunks are sorted by: segment, then sections without file contents
/// last, then rank.
pub open spec fn chunk_key(c: ChunkView) -> (u64, u64, u64) {
    (
        segment_rank(c.hdr.segname),
        if c.hdr.zerofill() {
            1
        } else {
            0
        },
        chunk_rank(c),
    )
}

fn find_chunk_key(c: &Chunk) -> (r: (u64, u64, u64))
    ensures
        r == chunk_key(c@),
{
    let rank: u64 = match c.kind {
        ChunkKind::MachHeader => 0,
        ChunkKind::UnwindInfo => 100,
        ChunkKind::EhFrame => 101,
        ChunkKind::CodeSignature => 0xffff_ffff,
        _ => 1 + output_section_rank(
            c.hdr.segname.as_slice(),
            c.hdr.sectname.as_slice(),
        ) as u64,
    };
    let zf: u64 = if c.hdr.is_zerofill() {
        1
    } else {
        0
    };
    (find_segment_rank(c.hdr.segname.as_slice()), zf, rank)
}

/// The keys of chunks.
pub open spec fn chunk_keys(chunks: Seq<ChunkView>) -> Seq<(u64, u64, u64)> {
    chunks.map_values(|c: ChunkView| chunk_key(c))
}

/// The segments after another chunk: it joins the last segment if that has
/// its name, and starts a new one if not.
pub open spec fn with_chunk(
    segs: Seq<SegmentView>,
    name: Seq<u8>,
    idx: usize,
) -> Seq<SegmentView> {
    let s = if segs.len() > 0 && segs.last().name == name {
        segs
    } else {
        segs.push(
            SegmentView {
                name,
                chunks: Seq::empty(),
                cmd: crate::output_chunks::header::no_place(),
            },
        )
    };
    s.update(
        s.len() - 1,
        SegmentView { chunks: s.last().chunks.push(idx), ..s.last() },
    )
}

/// The first `n` chunks, in the given order, grouped into segments.
pub open spec fn grouped_to(
    start: Seq<SegmentView>,
    chunks: Seq<ChunkView>,
    at: Seq<usize>,
    n: int,
) -> Seq<SegmentView>
    decreases n,
{
    if n <= 0 {
        start
    } else {
        with_chunk(
            grouped_to(start, chunks, at, n - 1),
            chunks[at[n - 1] as int].hdr.segname,
            at[n - 1],
        )
    }
}

/// The segments of the output.
pub open spec fn segments_of(chunks: Seq<ChunkView>, pagezero: bool) -> Seq<SegmentView> {
    let start = if pagezero {
        seq![
            SegmentView {
                name: "__PAGEZERO".spec_bytes(),
                chunks: Seq::empty(),
                cmd: crate::output_chunks::header::no_place(),
            },
        ]
    } else {
        Seq::empty()
    };
    grouped_to(
        start,
        chunks,
        order::stable_order_of(chunk_keys(chunks)),
        chunks.len() as int,
    )
}

fn add_chunk(segs: &mut Vec<OutputSegment>, name: &[u8], idx: usize)
    ensures
        crate::output_chunks::header::segment_views(final(segs)@) == with_chunk(
            crate::output_chunks::header::segment_views(old(segs)@),
            name@,
            idx,
        ),
        final(segs).len() <= old(segs).len() + 1,
        forall|n: int|
            segs_ok(old(segs)@, n) && idx < n ==> #[trigger] segs_ok(final(segs)@, n),
{
    let ghost start = segs@;
    let ghost sv = crate::output_chunks::header::segment_views(segs@);
    let n: usize = segs.len();
    let same: bool = n > 0 && bytes::same(segs[n - 1].name.as_slice(), name);
    proof {
        if n > 0 {
            assert(sv.last() == segs[n - 1]@);
        }
    }
    if !same {
        let s = OutputSegment::new(name);
        segs.push(s);
    }
    let ghost mid = segs@;
    let ghost mv = crate::output_chunks::header::segment_views(segs@);
    assert(mv =~= if same {
        sv
    } else {
        sv.push(
            SegmentView {
                name: name@,
                chunks: Seq::empty(),
                cmd: crate::output_chunks::header::no_place(),
            },
        )
    });
    let last: usize = segs.len() - 1;
    assert(mv.last() == segs[last as int]@);
    segs[last].chunks.push(idx);
    proof {
        assert(crate::output_chunks::header::segment_views(segs@) =~= mv.update(
            last as int,
            SegmentView { chunks: mv.last().chunks.push(idx), ..mv.last() },
        ));
        assert forall|m: int| segs_ok(start, m) && idx < m implies #[trigger] segs_ok(
            segs@,
            m,
        ) by {
            assert forall|s: int, k: int|
                0 <= s < segs@.len() && 0 <= k < segs@[s].chunks.len() implies (
            #[trigger] segs@[s].chunks[k]) < m by {
                if s < start.len() && k < start[s].chunks.len() {
                    assert(start[s].chunks[k] < m);
                } else if s == last {
                    assert(mid[s].chunks@.len() == k);
                }
            }
        }
    }
}

/// True when segments list existing chunks.
pub open spec fn segs_ok(segs: Seq<OutputSegment>, n: int) -> bool {
    forall|s: int, k: int|
        0 <= s < segs.len() && 0 <= k < segs[s].chunks.len() ==> (#[trigger] segs[s].chunks[k])
            < n
}

/// Groups chunks into segments, in the standard order.
pub fn group_segments(chunks: &Vec<Chunk>, pagezero: bool) -> (r: Vec<OutputSegment>)
    ensures
        crate::output_chunks::header::segment_views(r@) == segments_of(
            crate::output_chunks::header::chunk_views(chunks@),
            pagezero,
        ),
        segs_ok(r@, chunks.len() as int),
{
    let ghost cv = crate::output_chunks::header::chunk_views(chunks@);
    let mut keys: Vec<(u64, u64, u64)> = Vec::new();
    while keys.len() < chunks.len()
        invariant
            keys.len() <= chunks.len(),
            cv == crate::output_chunks::header::chunk_views(chunks@),
            keys@ =~= chunk_keys(cv).take(keys.len() as int),
        decreases chunks.len() - keys.len(),
    {
        let k: (u64, u64, u64) = find_chunk_key(&chunks[keys.len()]);
        assert(cv[keys.len() as int] == chunks[keys.len() as int]@);
        keys.push(k);
    }
    assert(keys@ =~= chunk_keys(cv));
    let at: Vec<usize> = order::stable_order(keys.as_slice());
    let mut segs: Vec<OutputSegment> = Vec::new();
    if pagezero {
        let s = OutputSegment::new("__PAGEZERO".as_bytes());
        segs.push(s);
    }
    let ghost start = crate::output_chunks::header::segment_views(segs@);
    assert(start =~= if pagezero {
        seq![
            SegmentView {
                name: "__PAGEZERO".spec_bytes(),
                chunks: Seq::empty(),
                cmd: crate::output_chunks::header::no_place(),
            },
        ]
    } else {
        Seq::empty()
    });
    let mut n: usize = 0;
    while n < at.len()
        invariant
            n <= at.len(),
            at.len() == chunks.len(),
            forall|i: int| 0 <= i < at.len() ==> (#[trigger] at[i]) < chunks.len(),
            cv == crate::output_chunks::header::chunk_views(chunks@),
            crate::output_chunks::header::segment_views(segs@) == grouped_to(
                start,
                cv,
                at@,
                n as int,
            ),
            segs_ok(segs@, chunks.len() as int),
        decreases at.len() - n,
    {
        let idx: usize = at[n];
        assert(cv[idx as int] == chunks[idx as int]@);
        add_chunk(&mut segs, chunks[idx].hdr.segname.as_slice(), idx);
        n += 1;
    }
    segs
}

} // verus!
