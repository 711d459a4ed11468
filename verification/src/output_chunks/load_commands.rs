//! The mach header and the load commands of an image.
use super::header::{segment_prot, Chunk, ChunkKind, ChunkView, HeaderView, OutputSegment};
use super::header::{ChunkHeader, SegmentView};
use crate::arch::Arch;
use crate::args::Args;
use crate::context::Context;
use crate::input_files::DylibFile;
use crate::macho::consts::{
    LC_BUILD_VERSION, LC_CODE_SIGNATURE, LC_DATA_IN_CODE, LC_DYLD_CHAINED_FIXUPS,
    LC_DYLD_EXPORTS_TRIE, LC_DYLD_INFO_ONLY, LC_DYSYMTAB, LC_FUNCTION_STARTS, LC_ID_DYLIB,
    LC_LOAD_DYLIB, LC_LOAD_DYLINKER, LC_LOAD_WEAK_DYLIB, LC_MAIN, LC_REEXPORT_DYLIB, LC_RPATH,
    LC_SEGMENT_64, LC_SEGMENT_SPLIT_INFO, LC_SOURCE_VERSION, LC_SUB_CLIENT, LC_SUB_FRAMEWORK, LC_SYMTAB,
    LC_UUID, MH_APP_EXTENSION_SAFE, MH_BINDS_TO_WEAK, MH_DEAD_STRIPPABLE_DYLIB, MH_DYLDLINK, MH_DYLIB,
    MH_EXECUTE, MH_HAS_TLV_DESCRIPTORS, MH_MAGIC_64, MH_NOUNDEFS, MH_NO_REEXPORTED_DYLIBS, MH_PIE,
    MH_TWOLEVEL, MH_WEAK_DEFINES, SECTION_TYPE, S_THREAD_LOCAL_VARIABLES,
};
use crate::macho::{MachHeader, MachSection, SectionView, SegmentCommand, SegmentCommandView};
use crate::symbol::Origin;
use crate::util::{bytes, order, text};
use vstd::prelude::*;
use vstd::string::*;

verus! {

/// The flag of a segment that dyld makes read-only once binds are applied.
pub const SG_READ_ONLY: u32 = 0x10;

/// The tool number by which this linker identifies itself.
pub const TOOL_NUMBER: u32 = 54321;

/// What the load commands say of the symbol table, and the image's UUID.
#[derive(Debug)]
pub struct Identity {
    pub nsyms: u32,
    pub nlocal: u32,
    pub nextdef: u32,
    pub nundef: u32,
    pub uuid: Vec<u8>,
}

/// The record of a section.
pub open spec fn section_record(h: HeaderView, segname: Seq<u8>) -> SectionView {
    SectionView {
        raw: crate::macho::names32(h.sectname, segname),
        sectname: h.sectname,
        segname,
        addr: h.addr,
        size: h.size,
        offset: if h.zerofill() {
            0
        } else {
            h.fileoff as u32
        },
        p2align: h.p2align,
        reloff: 0,
        nreloc: 0,
        flags: h.flags,
        reserved1: h.reserved1,
        reserved2: h.reserved2,
        reserved3: 0,
    }
}

/// The records of the sections among the first `n` listed chunks.
pub open spec fn section_records(
    chunks: Seq<ChunkView>,
    list: Seq<usize>,
    segname: Seq<u8>,
    n: int,
) -> Seq<u8>
    decreases n,
{
    if n <= 0 {
        Seq::empty()
    } else {
        let h = chunks[list[n - 1] as int].hdr;
        if h.is_sect {
            section_records(chunks, list, segname, n - 1) + section_record(h, segname).encoded()
        } else {
            section_records(chunks, list, segname, n - 1)
        }
    }
}

/// The number of sections among the first `n` listed chunks.
pub open spec fn section_count(chunks: Seq<ChunkView>, list: Seq<usize>, n: int) -> int
    decreases n,
{
    if n <= 0 {
        0
    } else if chunks[list[n - 1] as int].hdr.is_sect {
        section_count(chunks, list, n - 1) + 1
    } else {
        section_count(chunks, list, n - 1)
    }
}

/// A segment's command with the records of its sections.
pub open spec fn segment_cmd(chunks: Seq<ChunkView>, seg: SegmentView) -> Seq<u8> {
    let n = section_count(chunks, seg.chunks, seg.chunks.len() as int);
    SegmentCommandView {
        cmd: LC_SEGMENT_64,
        cmdsize: (72 + 80 * n) as u32,
        segname: seg.name,
        vmaddr: seg.cmd.vmaddr,
        vmsize: seg.cmd.vmsize,
        fileoff: seg.cmd.fileoff,
        filesize: seg.cmd.filesize,
        maxprot: crate::output_chunks::header::prot_of(seg.name),
        initprot: crate::output_chunks::header::prot_of(seg.name),
        nsects: n as u32,
        flags: if seg.name == "__DATA_CONST".spec_bytes() {
            SG_READ_ONLY
        } else {
            0
        },
    }.encoded() + section_records(chunks, seg.chunks, seg.name, seg.chunks.len() as int)
}

fn push_section(h: &ChunkHeader, segname: &[u8], buf: &mut Vec<u8>)
    ensures
        final(buf)@ == old(buf)@ + section_record(h@, segname@).encoded(),
{
    let sect = MachSection {
        raw: crate::macho::encode_names(h.sectname.as_slice(), segname),
        sectname: bytes::to_vec(h.sectname.as_slice()),
        segname: bytes::to_vec(segname),
        addr: h.addr,
        size: h.size,
        offset: if h.is_zerofill() {
            0
        } else {
            h.fileoff as u32
        },
        p2align: h.p2align,
        reloff: 0,
        nreloc: 0,
        flags: h.flags,
        reserved1: h.reserved1,
        reserved2: h.reserved2,
        reserved3: 0,
    };
    assert(sect@ =~= section_record(h@, segname@));
    sect.push_to(buf);
}

/// Encodes a segment's command with the records of its sections.
fn create_segment_cmd(chunks: &Vec<Chunk>, seg: &OutputSegment) -> (r: Vec<u8>)
    requires
        forall|i: int| 0 <= i < seg.chunks.len() ==> (#[trigger] seg.chunks[i]) < chunks.len(),
    ensures
        r@ == segment_cmd(crate::output_chunks::header::chunk_views(chunks@), seg@),
{
    let ghost cv = crate::output_chunks::header::chunk_views(chunks@);
    let mut records: Vec<u8> = Vec::new();
    assert(records@ =~= Seq::empty());
    let mut n: u128 = 0;
    let mut i: usize = 0;
    while i < seg.chunks.len()
        invariant
            i <= seg.chunks.len(),
            forall|i: int| 0 <= i < seg.chunks.len() ==> (#[trigger] seg.chunks[i]) < chunks.len(),
            cv == crate::output_chunks::header::chunk_views(chunks@),
            n <= i,
            n == section_count(cv, seg.chunks@, i as int),
            records@ == section_records(cv, seg.chunks@, seg.name@, i as int),
        decreases seg.chunks.len() - i,
    {
        let c: &Chunk = &chunks[seg.chunks[i]];
        assert(cv[seg.chunks[i as int] as int] == c@);
        if c.hdr.is_sect {
            push_section(&c.hdr, seg.name.as_slice(), &mut records);
            n = n + 1;
        }
        i += 1;
    }
    let prot: u32 = segment_prot(seg.name.as_slice());
    let cmd = SegmentCommand {
        cmd: LC_SEGMENT_64,
        cmdsize: (72 + 80 * n) as u32,
        segname: bytes::to_vec(seg.name.as_slice()),
        vmaddr: seg.cmd.vmaddr,
        vmsize: seg.cmd.vmsize,
        fileoff: seg.cmd.fileoff,
        filesize: seg.cmd.filesize,
        maxprot: prot,
        initprot: prot,
        nsects: n as u32,
        flags: if bytes::same(seg.name.as_slice(), "__DATA_CONST".as_bytes()) {
            SG_READ_ONLY
        } else {
            0
        },
    };
    let mut buf: Vec<u8> = Vec::new();
    cmd.push_to(&mut buf);
    bytes::append(&mut buf, records.as_slice());
    assert(buf@ =~= segment_cmd(cv, seg@));
    buf
}

/// The first chunk of a kind at or behind `i`.
pub open spec fn chunk_of(chunks: Seq<ChunkView>, kind: ChunkKind, i: int) -> Option<HeaderView>
    decreases chunks.len() - i,
{
    if i < 0 || i >= chunks.len() {
        None
    } else if chunks[i].kind == kind {
        Some(chunks[i].hdr)
    } else {
        chunk_of(chunks, kind, i + 1)
    }
}

/// The place of the first chunk of a kind in the file, if there is one: its
/// offset and its size.
pub open spec fn extent_of(chunks: Seq<ChunkView>, kind: ChunkKind) -> Option<(u64, u64)> {
    match chunk_of(chunks, kind, 0) {
        Some(h) => Some((h.fileoff, h.size)),
        None => None,
    }
}

/// Finds the place of the first chunk of a kind in the file.
pub fn find_extent(chunks: &Vec<Chunk>, kind: ChunkKind) -> (r: Option<(u64, u64)>)
    ensures
        r == extent_of(crate::output_chunks::header::chunk_views(chunks@), kind),
{
    let ghost cv = crate::output_chunks::header::chunk_views(chunks@);
    let mut i: usize = 0;
    while i < chunks.len()
        invariant
            i <= chunks.len(),
            cv == crate::output_chunks::header::chunk_views(chunks@),
            chunk_of(cv, kind, i as int) == chunk_of(cv, kind, 0),
        decreases chunks.len() - i,
    {
        assert(cv[i as int] == chunks[i as int]@);
        if chunks[i].kind == kind {
            return Some((chunks[i].hdr.fileoff, chunks[i].hdr.size));
        }
        i += 1;
    }
    None
}

/// The place that a command states: nothing for an empty chunk.
pub open spec fn stated(e: Option<(u64, u64)>) -> (u32, u32) {
    match e {
        Some(p) if p.1 > 0 => (p.0 as u32, p.1 as u32),
        _ => (0, 0),
    }
}

fn state(e: Option<(u64, u64)>) -> (r: (u32, u32))
    ensures
        r == stated(e),
{
    match e {
        Some(p) => if p.1 > 0 {
            (p.0 as u32, p.1 as u32)
        } else {
            (0, 0)
        },
        None => (0, 0),
    }
}

/// Encodes words.
fn words_of(words: &[u32]) -> (r: Vec<u8>)
    ensures
        r@ == bytes::le32s(words@),
{
    let mut buf: Vec<u8> = Vec::new();
    bytes::push32s(&mut buf, words);
    assert(buf@ =~= bytes::le32s(words@));
    buf
}

/// The LC_DYLD_INFO_ONLY command.
pub open spec fn dyld_info_cmd(chunks: Seq<ChunkView>) -> Seq<u8> {
    let rebase = stated(extent_of(chunks, ChunkKind::RebaseInfo));
    let bind = stated(extent_of(chunks, ChunkKind::BindInfo));
    let export = stated(extent_of(chunks, ChunkKind::ExportTrie));
    bytes::le32s(
        seq![
            LC_DYLD_INFO_ONLY,
            48,
            rebase.0,
            rebase.1,
            bind.0,
            bind.1,
            0,
            0,
            0,
            0,
            export.0,
            export.1,
        ],
    )
}

fn create_dyld_info_cmd(chunks: &Vec<Chunk>) -> (r: Vec<u8>)
    ensures
        r@ == dyld_info_cmd(crate::output_chunks::header::chunk_views(chunks@)),
{
    let rebase: (u32, u32) = state(find_extent(chunks, ChunkKind::RebaseInfo));
    let bind: (u32, u32) = state(find_extent(chunks, ChunkKind::BindInfo));
    let export: (u32, u32) = state(find_extent(chunks, ChunkKind::ExportTrie));
    let words: [u32; 12] = [
        LC_DYLD_INFO_ONLY,
        48,
        rebase.0,
        rebase.1,
        bind.0,
        bind.1,
        0,
        0,
        0,
        0,
        export.0,
        export.1,
    ];
    assert(words@ =~= seq![
        LC_DYLD_INFO_ONLY,
        48u32,
        rebase.0,
        rebase.1,
        bind.0,
        bind.1,
        0u32,
        0u32,
        0u32,
        0u32,
        export.0,
        export.1,
    ]);
    words_of(words.as_slice())
}

/// The place of a chunk, or zeros.
pub open spec fn extent_or_zero(e: Option<(u64, u64)>) -> (u64, u64) {
    match e {
        Some(p) => p,
        None => (0, 0),
    }
}

fn get_extent(chunks: &Vec<Chunk>, kind: ChunkKind) -> (r: (u64, u64))
    ensures
        r == extent_or_zero(
            extent_of(crate::output_chunks::header::chunk_views(chunks@), kind),
        ),
{
    match find_extent(chunks, kind) {
        Some(p) => p,
        None => (0, 0),
    }
}

/// The LC_SYMTAB command.
pub open spec fn symtab_cmd(chunks: Seq<ChunkView>, id: Identity) -> Seq<u8> {
    let sym = extent_or_zero(extent_of(chunks, ChunkKind::Symtab));
    let str = extent_or_zero(extent_of(chunks, ChunkKind::Strtab));
    bytes::le32s(seq![LC_SYMTAB, 24, sym.0 as u32, id.nsyms, str.0 as u32, str.1 as u32])
}

fn create_symtab_cmd(chunks: &Vec<Chunk>, id: &Identity) -> (r: Vec<u8>)
    ensures
        r@ == symtab_cmd(crate::output_chunks::header::chunk_views(chunks@), *id),
{
    let sym: (u64, u64) = get_extent(chunks, ChunkKind::Symtab);
    let strings: (u64, u64) = get_extent(chunks, ChunkKind::Strtab);
    let words: [u32; 6] = [
        LC_SYMTAB,
        24,
        sym.0 as u32,
        id.nsyms,
        strings.0 as u32,
        strings.1 as u32,
    ];
    assert(words@ =~= seq![
        LC_SYMTAB,
        24u32,
        sym.0 as u32,
        id.nsyms,
        strings.0 as u32,
        strings.1 as u32,
    ]);
    words_of(words.as_slice())
}

/// The LC_DYSYMTAB command.
pub open spec fn dysymtab_cmd(chunks: Seq<ChunkView>, id: Identity) -> Seq<u8> {
    let ind = extent_or_zero(extent_of(chunks, ChunkKind::IndirectSymtab));
    bytes::le32s(
        seq![
            LC_DYSYMTAB,
            80,
            0,
            id.nlocal,
            id.nlocal,
            id.nextdef,
            bytes::word32(id.nlocal + id.nextdef),
            id.nundef,
            0,
            0,
            0,
            0,
            0,
            0,
            ind.0 as u32,
            (ind.1 / 4) as u32,
            0,
            0,
            0,
            0,
        ],
    )
}

fn create_dysymtab_cmd(chunks: &Vec<Chunk>, id: &Identity) -> (r: Vec<u8>)
    ensures
        r@ == dysymtab_cmd(crate::output_chunks::header::chunk_views(chunks@), *id),
{
    let ind: (u64, u64) = get_extent(chunks, ChunkKind::IndirectSymtab);
    let undef: u32 = bytes::low32(id.nlocal as u64 + id.nextdef as u64);
    let words: [u32; 20] = [
        LC_DYSYMTAB,
        80,
        0,
        id.nlocal,
        id.nlocal,
        id.nextdef,
        undef,
        id.nundef,
        0,
        0,
        0,
        0,
        0,
        0,
        ind.0 as u32,
        (ind.1 / 4) as u32,
        0,
        0,
        0,
        0,
    ];
    assert(words@ =~= seq![
        LC_DYSYMTAB,
        80u32,
        0u32,
        id.nlocal,
        id.nlocal,
        id.nextdef,
        bytes::word32(id.nlocal + id.nextdef),
        id.nundef,
        0u32,
        0u32,
        0u32,
        0u32,
        0u32,
        0u32,
        ind.0 as u32,
        (ind.1 / 4) as u32,
        0u32,
        0u32,
        0u32,
        0u32,
    ]);
    words_of(words.as_slice())
}

/// A command that names a place in __LINKEDIT.
pub open spec fn linkedit_cmd(cmd: u32, e: (u64, u64)) -> Seq<u8> {
    bytes::le32s(seq![cmd, 16, e.0 as u32, e.1 as u32])
}

fn create_linkedit_cmd(cmd: u32, e: (u64, u64)) -> (r: Vec<u8>)
    ensures
        r@ == linkedit_cmd(cmd, e),
{
    let words: [u32; 4] = [cmd, 16, e.0 as u32, e.1 as u32];
    assert(words@ =~= seq![cmd, 16u32, e.0 as u32, e.1 as u32]);
    words_of(words.as_slice())
}

/// A command with a string behind its words: the second word is the size of
/// the whole command, which a NUL and padding end.
pub open spec fn string_cmd(cmd: u32, rest: Seq<u32>, s: Seq<u8>) -> Seq<u8> {
    let size = crate::util::aligned(8int + 4 * rest.len() + s.len() + 1, 8);
    bytes::padded8(bytes::le32s(seq![cmd, size as u32] + rest) + s.push(0))
}

fn create_string_cmd(cmd: u32, rest: &[u32], s: &[u8]) -> (r: Vec<u8>)
    requires
        rest.len() <= 16,
    ensures
        r@ == string_cmd(cmd, rest@, s@),
{
    let mut strings: Vec<u8> = bytes::to_vec(s);
    strings.push(0);
    let mut words: Vec<u32> = Vec::new();
    words.push(cmd);
    let len: u128 = 8 + 4 * rest.len() as u128 + s.len() as u128 + 1;
    let padded: u128 = (len + 7) / 8 * 8;
    proof {
        assert(padded == crate::util::aligned(len as int, 8));
    }
    words.push(padded as u32);
    let mut i: usize = 0;
    while i < rest.len()
        invariant
            i <= rest.len(),
            words@ =~= seq![cmd, padded as u32] + rest@.take(i as int),
        decreases rest.len() - i,
    {
        words.push(rest[i]);
        i += 1;
    }
    assert(words@ =~= seq![cmd, padded as u32] + rest@);
    let mut buf: Vec<u8> = words_of(words.as_slice());
    bytes::append(&mut buf, strings.as_slice());
    bytes::pad8(&mut buf);
    assert(strings@ =~= s@.push(0));
    buf
}

/// The name of a dylib's identity: -install_name, else -final_output, else
/// the output's path.
pub open spec fn identity_name(args: Args) -> Seq<u8> {
    match args.install_name {
        Some(n) => n@,
        None => match args.final_output {
            Some(n) => n@,
            None => args.output@,
        },
    }
}

/// The LC_ID_DYLIB command.
pub open spec fn id_dylib_cmd(args: Args) -> Seq<u8> {
    string_cmd(
        LC_ID_DYLIB,
        seq![24, 0, args.sw.current_version, args.sw.compatibility_version],
        identity_name(args),
    )
}

fn create_id_dylib_cmd(args: &Args) -> (r: Vec<u8>)
    ensures
        r@ == id_dylib_cmd(*args),
{
    let name: &Vec<u8> = match &args.install_name {
        Some(n) => n,
        None => match &args.final_output {
            Some(n) => n,
            None => &args.output,
        },
    };
    let rest: [u32; 4] = [24, 0, args.sw.current_version, args.sw.compatibility_version];
    assert(rest@ =~= seq![24u32, 0u32, args.sw.current_version, args.sw.compatibility_version]);
    create_string_cmd(LC_ID_DYLIB, rest.as_slice(), name.as_slice())
}

/// The command that loads a library.
pub open spec fn load_dylib_cmd(d: DylibFile) -> Seq<u8> {
    string_cmd(
        if d.is_reexported {
            LC_REEXPORT_DYLIB
        } else if d.is_weak {
            LC_LOAD_WEAK_DYLIB
        } else {
            LC_LOAD_DYLIB
        },
        seq![24, 2, d.current_version, d.compatibility_version],
        d.install_name@,
    )
}

fn create_load_dylib_cmd(d: &DylibFile) -> (r: Vec<u8>)
    ensures
        r@ == load_dylib_cmd(*d),
{
    let cmd: u32 = if d.is_reexported {
        LC_REEXPORT_DYLIB
    } else if d.is_weak {
        LC_LOAD_WEAK_DYLIB
    } else {
        LC_LOAD_DYLIB
    };
    let rest: [u32; 4] = [24, 2, d.current_version, d.compatibility_version];
    assert(rest@ =~= seq![24u32, 2u32, d.current_version, d.compatibility_version]);
    create_string_cmd(cmd, rest.as_slice(), d.install_name.as_slice())
}

/// A command with nothing but a string.
pub open spec fn path_cmd(cmd: u32, path: Seq<u8>) -> Seq<u8> {
    string_cmd(cmd, seq![12], path)
}

fn create_path_cmd(cmd: u32, path: &[u8]) -> (r: Vec<u8>)
    ensures
        r@ == path_cmd(cmd, path@),
{
    let rest: [u32; 1] = [12];
    assert(rest@ =~= seq![12u32]);
    create_string_cmd(cmd, rest.as_slice(), path)
}

/// A path command for each string.
pub open spec fn path_cmds(cmd: u32, paths: Seq<Seq<u8>>) -> Seq<Seq<u8>> {
    paths.map_values(|p: Seq<u8>| path_cmd(cmd, p))
}

/// Appends a command.
fn push_cmd(list: &mut Vec<Vec<u8>>, cmd: Vec<u8>)
    ensures
        bytes::views(final(list)@) == bytes::views(old(list)@).push(cmd@),
{
    let ghost c = cmd@;
    list.push(cmd);
    assert(bytes::views(list@) =~= bytes::views(old(list)@).push(c));
}

fn push_path_cmds(list: &mut Vec<Vec<u8>>, cmd: u32, paths: &Vec<Vec<u8>>)
    ensures
        bytes::views(final(list)@) == bytes::views(old(list)@) + path_cmds(
            cmd,
            bytes::views(paths@),
        ),
{
    let ghost start = bytes::views(list@);
    let ghost v = path_cmds(cmd, bytes::views(paths@));
    assert(start + v.take(0) =~= start);
    let mut i: usize = 0;
    while i < paths.len()
        invariant
            i <= paths.len(),
            v == path_cmds(cmd, bytes::views(paths@)),
            bytes::views(list@) == start + v.take(i as int),
        decreases paths.len() - i,
    {
        assert(bytes::views(paths@)[i as int] == paths[i as int]@);
        assert(v[i as int] == path_cmd(cmd, paths[i as int]@));
        push_cmd(list, create_path_cmd(cmd, paths[i].as_slice()));
        assert(start + v.take(i + 1) =~= (start + v.take(i as int)).push(v[i as int]));
        i += 1;
    }
    assert(v.take(i as int) =~= v);
}

/// The LC_UUID command.
pub open spec fn uuid_cmd(id: Identity) -> Seq<u8> {
    bytes::le32s(seq![LC_UUID, 24]) + id.uuid@
}

/// The LC_BUILD_VERSION command, which says which tool made the image.
pub open spec fn build_version_cmd(args: Args) -> Seq<u8> {
    bytes::le32s(
        seq![
            LC_BUILD_VERSION,
            32,
            args.sw.platform,
            args.sw.platform_minos,
            args.sw.platform_sdk,
            1,
            TOOL_NUMBER,
            1,
        ],
    )
}

/// The LC_SOURCE_VERSION command.
pub open spec fn source_version_cmd() -> Seq<u8> {
    bytes::le32s(seq![LC_SOURCE_VERSION, 16]) + bytes::le64(0)
}

/// The address of a segment, from the `i`th on.
pub open spec fn segment_addr(segs: Seq<SegmentView>, name: Seq<u8>, i: int) -> Option<u64>
    decreases segs.len() - i,
{
    if i < 0 || i >= segs.len() {
        None
    } else if segs[i].name == name {
        Some(segs[i].cmd.vmaddr)
    } else {
        segment_addr(segs, name, i + 1)
    }
}

/// Finds the address of a segment.
pub fn find_segment_addr(segs: &Vec<OutputSegment>, name: &[u8]) -> (r: Option<u64>)
    ensures
        r == segment_addr(crate::output_chunks::header::segment_views(segs@), name@, 0),
{
    let ghost sv = crate::output_chunks::header::segment_views(segs@);
    let mut i: usize = 0;
    while i < segs.len()
        invariant
            i <= segs.len(),
            sv == crate::output_chunks::header::segment_views(segs@),
            segment_addr(sv, name@, i as int) == segment_addr(sv, name@, 0),
        decreases segs.len() - i,
    {
        assert(sv[i as int] == segs[i as int]@);
        if bytes::same(segs[i].name.as_slice(), name) {
            return Some(segs[i].cmd.vmaddr);
        }
        i += 1;
    }
    None
}

/// The LC_MAIN command: the entry point is a file offset into __TEXT, whose
/// own file offset is zero.
pub open spec fn main_cmd(args: Args, entry: u64, text: u64) -> Seq<u8> {
    bytes::le32s(seq![LC_MAIN, 24]) + bytes::le64(bytes::word64(entry - text)) + bytes::le64(
        args.sw.stack_size,
    )
}

fn create_uuid_cmd(id: &Identity) -> (r: Vec<u8>)
    ensures
        r@ == uuid_cmd(*id),
{
    let words: [u32; 2] = [LC_UUID, 24];
    assert(words@ =~= seq![LC_UUID, 24u32]);
    let mut buf: Vec<u8> = words_of(words.as_slice());
    bytes::append(&mut buf, id.uuid.as_slice());
    buf
}

fn create_build_version_cmd(args: &Args) -> (r: Vec<u8>)
    ensures
        r@ == build_version_cmd(*args),
{
    let words: [u32; 8] = [
        LC_BUILD_VERSION,
        32,
        args.sw.platform,
        args.sw.platform_minos,
        args.sw.platform_sdk,
        1,
        TOOL_NUMBER,
        1,
    ];
    assert(words@ =~= seq![
        LC_BUILD_VERSION,
        32u32,
        args.sw.platform,
        args.sw.platform_minos,
        args.sw.platform_sdk,
        1u32,
        TOOL_NUMBER,
        1u32,
    ]);
    words_of(words.as_slice())
}

fn create_source_version_cmd() -> (r: Vec<u8>)
    ensures
        r@ == source_version_cmd(),
{
    let words: [u32; 2] = [LC_SOURCE_VERSION, 16];
    assert(words@ =~= seq![LC_SOURCE_VERSION, 16u32]);
    let mut buf: Vec<u8> = words_of(words.as_slice());
    bytes::push64(&mut buf, 0);
    buf
}

fn create_main_cmd(args: &Args, entry: u64, text: u64) -> (r: Vec<u8>)
    ensures
        r@ == main_cmd(*args, entry, text),
{
    let words: [u32; 2] = [LC_MAIN, 24];
    assert(words@ =~= seq![LC_MAIN, 24u32]);
    let mut buf: Vec<u8> = words_of(words.as_slice());
    bytes::push64(&mut buf, bytes::distance(entry, text));
    bytes::push64(&mut buf, args.sw.stack_size);
    buf
}

/// The keys by which libraries are listed: their ordinals.
pub open spec fn ordinal_keys(dylibs: Seq<DylibFile>) -> Seq<u64> {
    dylibs.map_values(|d: DylibFile| (d.dylib_idx + 0x8000_0000) as u64)
}

/// The commands of the libraries among the first `n` in an order, but for
/// the bundle loader.
pub open spec fn dylib_cmds_to(dylibs: Seq<DylibFile>, ord: Seq<usize>, n: int) -> Seq<Seq<u8>>
    decreases n,
{
    if n <= 0 {
        Seq::empty()
    } else {
        let d = dylibs[ord[n - 1] as int];
        if d.is_bundle_loader {
            dylib_cmds_to(dylibs, ord, n - 1)
        } else {
            dylib_cmds_to(dylibs, ord, n - 1).push(load_dylib_cmd(d))
        }
    }
}

/// The commands of all libraries, in the order of their ordinals.
pub open spec fn dylib_cmds(dylibs: Seq<DylibFile>) -> Seq<Seq<u8>> {
    let ord = order::stable_order_of(ordinal_keys(dylibs));
    dylib_cmds_to(dylibs, ord, ord.len() as int)
}

fn push_dylib_cmds(list: &mut Vec<Vec<u8>>, dylibs: &Vec<DylibFile>)
    ensures
        bytes::views(final(list)@) == bytes::views(old(list)@) + dylib_cmds(dylibs@),
{
    let ghost start = bytes::views(list@);
    let mut keys: Vec<u64> = Vec::new();
    while keys.len() < dylibs.len()
        invariant
            keys.len() <= dylibs.len(),
            forall|i: int|
                0 <= i < keys.len() ==> #[trigger] keys[i] == dylibs[i].dylib_idx + 0x8000_0000,
        decreases dylibs.len() - keys.len(),
    {
        let k: i64 = dylibs[keys.len()].dylib_idx as i64 + 0x8000_0000;
        keys.push(k as u64);
    }
    assert(keys@ =~= ordinal_keys(dylibs@));
    let ord: Vec<usize> = order::stable_order(keys.as_slice());
    assert(start + Seq::<Seq<u8>>::empty() =~= start);
    let mut n: usize = 0;
    while n < ord.len()
        invariant
            n <= ord.len(),
            forall|i: int| 0 <= i < ord.len() ==> (#[trigger] ord[i]) < dylibs.len(),
            bytes::views(list@) == start + dylib_cmds_to(dylibs@, ord@, n as int),
        decreases ord.len() - n,
    {
        let d: &DylibFile = &dylibs[ord[n]];
        let ghost a = dylib_cmds_to(dylibs@, ord@, n as int);
        if !d.is_bundle_loader {
            push_cmd(list, create_load_dylib_cmd(d));
            assert((start + a).push(load_dylib_cmd(*d)) =~= start + a.push(load_dylib_cmd(*d)));
        }
        n += 1;
    }
}

/// A command, if a condition holds.
pub open spec fn cmd_if(wanted: bool, cmd: Seq<u8>) -> Seq<Seq<u8>> {
    if wanted {
        seq![cmd]
    } else {
        Seq::empty()
    }
}

/// The commands of a dylib's own identity.
pub open spec fn identity_cmds(args: Args) -> Seq<Seq<u8>> {
    if args.sw.output_type != MH_DYLIB {
        Seq::empty()
    } else {
        seq![id_dylib_cmd(args)] + (match args.umbrella {
            Some(n) => seq![path_cmd(LC_SUB_FRAMEWORK, n@)],
            None => Seq::empty(),
        }) + path_cmds(LC_SUB_CLIENT, bytes::views(args.allowable_clients@))
    }
}

/// The commands of the dyld tables: chained fixups replace the opcode
/// streams, and the export trie then has a command of its own.
pub open spec fn dyld_cmds(chunks: Seq<ChunkView>) -> Seq<Seq<u8>> {
    let chained = extent_or_zero(extent_of(chunks, ChunkKind::ChainedFixups));
    let trie = extent_or_zero(extent_of(chunks, ChunkKind::ExportTrie));
    if chained.1 > 0 {
        seq![linkedit_cmd(LC_DYLD_CHAINED_FIXUPS, chained)] + cmd_if(
            trie.1 > 0,
            linkedit_cmd(LC_DYLD_EXPORTS_TRIE, trie),
        )
    } else {
        seq![dyld_info_cmd(chunks)]
    }
}

/// The load commands in front of the one that holds the UUID: the segments; a
/// dylib's identity; the dyld tables; the symbol tables; the dynamic linker.
#[verifier::opaque]
pub open spec fn cmds_before_uuid(ctx: Context, id: Identity) -> Seq<Seq<u8>> {
    let chunks = crate::output_chunks::header::chunk_views(ctx.layout.chunks@);
    let segs = crate::output_chunks::header::segment_views(ctx.layout.segments@);
    segs.map_values(|s: SegmentView| segment_cmd(chunks, s)) + identity_cmds(ctx.args) + dyld_cmds(
        chunks,
    ) + seq![symtab_cmd(chunks, id), dysymtab_cmd(chunks, id)] + cmd_if(
        ctx.args.sw.output_type == MH_EXECUTE,
        path_cmd(LC_LOAD_DYLINKER, "/usr/lib/dyld".spec_bytes()),
    )
}

/// The load commands: those in front of the UUID; identification; the entry
/// point; the libraries; the run-path list; the code tables; the signature.
#[verifier::opaque]
pub open spec fn load_commands(ctx: Context, id: Identity, text: u64) -> Seq<Seq<u8>> {
    let chunks = crate::output_chunks::header::chunk_views(ctx.layout.chunks@);
    let exe = ctx.args.sw.output_type == MH_EXECUTE;
    let starts = extent_or_zero(extent_of(chunks, ChunkKind::FunctionStarts));
    let split = extent_of(chunks, ChunkKind::SplitInfo);
    let dice = extent_of(chunks, ChunkKind::DataInCode);
    let sig = extent_of(chunks, ChunkKind::CodeSignature);
    cmds_before_uuid(ctx, id) + seq![uuid_cmd(id), build_version_cmd(ctx.args), source_version_cmd()] + cmd_if(
        exe,
        main_cmd(ctx.args, ctx.layout.entry_addr, text),
    ) + dylib_cmds(ctx.dylibs@) + path_cmds(LC_RPATH, bytes::views(ctx.args.rpaths@)) + cmd_if(
        split is Some,
        linkedit_cmd(LC_SEGMENT_SPLIT_INFO, extent_or_zero(split)),
    ) + cmd_if(
        starts.1 > 0,
        linkedit_cmd(LC_FUNCTION_STARTS, starts),
    ) + cmd_if(dice is Some, linkedit_cmd(LC_DATA_IN_CODE, extent_or_zero(dice))) + cmd_if(
        sig is Some,
        linkedit_cmd(LC_CODE_SIGNATURE, extent_or_zero(sig)),
    )
}

/// Appends the commands of the segments.
fn push_segment_cmds(list: &mut Vec<Vec<u8>>, chunks: &Vec<Chunk>, segs: &Vec<OutputSegment>)
    requires
        crate::passes::chunk_list::segs_ok(segs@, chunks.len() as int),
    ensures
        bytes::views(final(list)@) == bytes::views(old(list)@)
            + crate::output_chunks::header::segment_views(segs@).map_values(
            |s: SegmentView|
                segment_cmd(crate::output_chunks::header::chunk_views(chunks@), s),
        ),
{
    let ghost cv = crate::output_chunks::header::chunk_views(chunks@);
    let ghost start = bytes::views(list@);
    let ghost v = crate::output_chunks::header::segment_views(segs@).map_values(
        |s: SegmentView| segment_cmd(cv, s),
    );
    assert(start + v.take(0) =~= start);
    let mut i: usize = 0;
    while i < segs.len()
        invariant
            i <= segs.len(),
            crate::passes::chunk_list::segs_ok(segs@, chunks.len() as int),
            cv == crate::output_chunks::header::chunk_views(chunks@),
            v == crate::output_chunks::header::segment_views(segs@).map_values(
                |s: SegmentView| segment_cmd(cv, s),
            ),
            bytes::views(list@) == start + v.take(i as int),
        decreases segs.len() - i,
    {
        assert forall|k: int| 0 <= k < segs[i as int].chunks.len() implies (
        #[trigger] segs[i as int].chunks[k]) < chunks.len() by {
            assert(segs@[i as int].chunks[k] < chunks.len());
        }
        push_cmd(list, create_segment_cmd(chunks, &segs[i]));
        assert(v[i as int] == segment_cmd(cv, segs[i as int]@));
        assert(start + v.take(i + 1) =~= (start + v.take(i as int)).push(v[i as int]));
        i += 1;
    }
    assert(v.take(i as int) =~= v);
}

/// Appends the commands of a dylib's own identity.
fn push_identity_cmds(list: &mut Vec<Vec<u8>>, args: &Args)
    ensures
        bytes::views(final(list)@) == bytes::views(old(list)@) + identity_cmds(*args),
{
    let ghost start = bytes::views(list@);
    assert(start + Seq::<Seq<u8>>::empty() =~= start);
    if args.sw.output_type != MH_DYLIB {
        return ;
    }
    push_cmd(list, create_id_dylib_cmd(args));
    if let Some(n) = &args.umbrella {
        push_cmd(list, create_path_cmd(LC_SUB_FRAMEWORK, n.as_slice()));
    }
    push_path_cmds(list, LC_SUB_CLIENT, &args.allowable_clients);
    assert(bytes::views(list@) =~= start + identity_cmds(*args));
}

/// Appends the commands of the dyld tables.
fn push_dyld_cmds(list: &mut Vec<Vec<u8>>, chunks: &Vec<Chunk>)
    ensures
        bytes::views(final(list)@) == bytes::views(old(list)@) + dyld_cmds(
            crate::output_chunks::header::chunk_views(chunks@),
        ),
{
    let ghost start = bytes::views(list@);
    let chained: (u64, u64) = get_extent(chunks, ChunkKind::ChainedFixups);
    if chained.1 > 0 {
        push_cmd(list, create_linkedit_cmd(LC_DYLD_CHAINED_FIXUPS, chained));
        let trie: (u64, u64) = get_extent(chunks, ChunkKind::ExportTrie);
        if trie.1 > 0 {
            push_cmd(list, create_linkedit_cmd(LC_DYLD_EXPORTS_TRIE, trie));
        }
    } else {
        push_cmd(list, create_dyld_info_cmd(chunks));
    }
    assert(bytes::views(list@) =~= start + dyld_cmds(
        crate::output_chunks::header::chunk_views(chunks@),
    ));
}

/// Appends a command, if a condition holds.
fn push_cmd_if(list: &mut Vec<Vec<u8>>, wanted: bool, cmd: Vec<u8>)
    ensures
        bytes::views(final(list)@) == bytes::views(old(list)@) + cmd_if(wanted, cmd@),
{
    let ghost start = bytes::views(list@);
    let ghost c = cmd@;
    if wanted {
        push_cmd(list, cmd);
        assert(start.push(c) =~= start + seq![c]);
    } else {
        assert(start + Seq::<Seq<u8>>::empty() =~= start);
    }
}

/// Encodes the load commands. `text` is the address of __TEXT.
fn encode_load_commands(ctx: &Context, id: &Identity, text: u64) -> (r: Vec<Vec<u8>>)
    requires
        crate::passes::chunk_list::segs_ok(
            ctx.layout.segments@,
            ctx.layout.chunks.len() as int,
        ),
    ensures
        bytes::views(r@) == load_commands(*ctx, *id, text),
{
    let chunks: &Vec<Chunk> = &ctx.layout.chunks;
    let ghost cv = crate::output_chunks::header::chunk_views(chunks@);
    let exe: bool = ctx.args.sw.output_type == MH_EXECUTE;
    let mut list: Vec<Vec<u8>> = Vec::new();
    assert(bytes::views(list@) =~= Seq::empty());
    push_segment_cmds(&mut list, chunks, &ctx.layout.segments);
    push_identity_cmds(&mut list, &ctx.args);
    push_dyld_cmds(&mut list, chunks);
    let ghost p0 = bytes::views(list@);
    push_cmd(&mut list, create_symtab_cmd(chunks, id));
    push_cmd(&mut list, create_dysymtab_cmd(chunks, id));
    assert(bytes::views(list@) =~= p0 + seq![symtab_cmd(cv, *id), dysymtab_cmd(cv, *id)]);
    push_cmd_if(
        &mut list,
        exe,
        create_path_cmd(LC_LOAD_DYLINKER, "/usr/lib/dyld".as_bytes()),
    );
    let ghost p1 = bytes::views(list@);
    push_cmd(&mut list, create_uuid_cmd(id));
    push_cmd(&mut list, create_build_version_cmd(&ctx.args));
    push_cmd(&mut list, create_source_version_cmd());
    assert(bytes::views(list@) =~= p1 + seq![
        uuid_cmd(*id),
        build_version_cmd(ctx.args),
        source_version_cmd(),
    ]);
    push_cmd_if(&mut list, exe, create_main_cmd(&ctx.args, ctx.layout.entry_addr, text));
    push_dylib_cmds(&mut list, &ctx.dylibs);
    push_path_cmds(&mut list, LC_RPATH, &ctx.args.rpaths);
    let split: Option<(u64, u64)> = find_extent(chunks, ChunkKind::SplitInfo);
    push_cmd_if(
        &mut list,
        split.is_some(),
        create_linkedit_cmd(LC_SEGMENT_SPLIT_INFO, get_extent(chunks, ChunkKind::SplitInfo)),
    );
    let starts: (u64, u64) = get_extent(chunks, ChunkKind::FunctionStarts);
    push_cmd_if(&mut list, starts.1 > 0, create_linkedit_cmd(LC_FUNCTION_STARTS, starts));
    let dice: Option<(u64, u64)> = find_extent(chunks, ChunkKind::DataInCode);
    push_cmd_if(
        &mut list,
        dice.is_some(),
        create_linkedit_cmd(LC_DATA_IN_CODE, get_extent(chunks, ChunkKind::DataInCode)),
    );
    let sig: Option<(u64, u64)> = find_extent(chunks, ChunkKind::CodeSignature);
    push_cmd_if(
        &mut list,
        sig.is_some(),
        create_linkedit_cmd(LC_CODE_SIGNATURE, get_extent(chunks, ChunkKind::CodeSignature)),
    );
    proof {
        reveal(cmds_before_uuid);
        reveal(load_commands);
    }
    list
}

/// True when an image can have an entry point: an executable needs __TEXT.
pub open spec fn text_of(ctx: Context) -> Option<u64> {
    let segs = crate::output_chunks::header::segment_views(ctx.layout.segments@);
    match segment_addr(segs, "__TEXT".spec_bytes(), 0) {
        Some(a) => Some(a),
        None => if ctx.args.sw.output_type == MH_EXECUTE {
            None
        } else {
            Some(0)
        },
    }
}

/// Creates the load commands. `None` for an executable without __TEXT.
pub fn create_load_commands(ctx: &Context, id: &Identity) -> (r: Option<Vec<Vec<u8>>>)
    requires
        crate::passes::chunk_list::segs_ok(
            ctx.layout.segments@,
            ctx.layout.chunks.len() as int,
        ),
    ensures
        match r {
            Some(v) => text_of(*ctx) is Some && bytes::views(v@) == load_commands(
                *ctx,
                *id,
                text_of(*ctx)->0,
            ),
            None => text_of(*ctx) is None,
        },
{
    let text: u64 = match find_segment_addr(&ctx.layout.segments, "__TEXT".as_bytes()) {
        Some(a) => a,
        None => {
            if ctx.args.sw.output_type == MH_EXECUTE {
                return None;
            }
            0
        },
    };
    Some(encode_load_commands(ctx, id, text))
}

/// All commands one behind the other.
pub open spec fn joined(cmds: Seq<Seq<u8>>, n: int) -> Seq<u8>
    decreases n,
{
    if n <= 0 {
        Seq::empty()
    } else {
        joined(cmds, n - 1) + cmds[n - 1]
    }
}

/// Joins commands.
fn join(cmds: &Vec<Vec<u8>>) -> (r: Vec<u8>)
    ensures
        r@ == joined(bytes::views(cmds@), cmds.len() as int),
{
    let ghost v = bytes::views(cmds@);
    let mut buf: Vec<u8> = Vec::new();
    assert(buf@ =~= Seq::empty());
    let mut i: usize = 0;
    while i < cmds.len()
        invariant
            i <= cmds.len(),
            v == bytes::views(cmds@),
            buf@ == joined(v, i as int),
        decreases cmds.len() - i,
    {
        assert(v[i as int] == cmds[i as int]@);
        bytes::append(&mut buf, cmds[i].as_slice());
        i += 1;
    }
    buf
}

/// The size of the chunk that holds the mach header: the header, the load
/// commands and the padding behind them.
pub open spec fn header_size(ctx: Context, id: Identity) -> int {
    let cmds = load_commands(ctx, id, text_of(ctx)->0);
    32 + joined(cmds, cmds.len() as int).len() + ctx.args.sw.headerpad
}

/// Finds the size of the chunk that holds the mach header. `None` when there
/// is none, or it does not fit in 64 bits.
pub fn mach_header_size(ctx: &Context, id: &Identity) -> (r: Option<u64>)
    requires
        crate::passes::chunk_list::segs_ok(
            ctx.layout.segments@,
            ctx.layout.chunks.len() as int,
        ),
    ensures
        match r {
            Some(n) => text_of(*ctx) is Some && n == header_size(*ctx, *id),
            None => text_of(*ctx) is None || header_size(*ctx, *id) > u64::MAX,
        },
{
    let cmds: Vec<Vec<u8>> = match create_load_commands(ctx, id) {
        Some(v) => v,
        None => {
            return None;
        },
    };
    let all: Vec<u8> = join(&cmds);
    assert(bytes::views(cmds@).len() == cmds.len());
    let total: u128 = 32 + all.len() as u128 + ctx.args.sw.headerpad as u128;
    if total > u64::MAX as u128 {
        return None;
    }
    Some(total as u64)
}

/// True when the image uses a symbol that its library exports as a weak
/// definition.
pub open spec fn uses_weak_export(ctx: Context, id: int) -> bool {
    let s = ctx.inputs.symtab.syms[id];
    match s.defined_by() {
        Origin::Dylib(d) => d != crate::input_sections::UNSET && s.flags.is_used && bytes::views(
            ctx.dylibs[d as int].weak_exports@,
        ).contains(s.name@),
        _ => false,
    }
}

/// True for a weak definition that other images can see.
pub open spec fn defines_weakly(ctx: Context, id: int) -> bool {
    let s = ctx.inputs.symtab.syms[id];
    s.flags.is_weak_def && s.flags.is_extern && !s.flags.is_private_extern && s.section() is Some
        && ctx.inputs.isecs[s.isec as int].is_alive
}

/// True when the image binds to weak definitions: to a library's, or by
/// looking up one of its own.
pub open spec fn binds_to_weak(ctx: Context, imports: Seq<(u64, u64, u64)>) -> bool {
    ||| exists|i: int| 0 <= i < ctx.inputs.symtab.syms.len() && #[trigger] uses_weak_export(ctx, i)
    ||| exists|k: int|
        0 <= k < imports.len() && #[trigger] ctx.weak_lookup(imports[k].0 as int)
}

/// True for a weak definition that other images can see, or a definition that
/// overrides a library's weak one.
pub open spec fn seen_weakly(ctx: Context, id: int) -> bool {
    defines_weakly(ctx, id) || ctx.overrides_weak(id)
}

/// True when the image has weak definitions, or overrides a library's.
pub open spec fn weak_defines(ctx: Context) -> bool {
    exists|i: int| 0 <= i < ctx.inputs.symtab.syms.len() && #[trigger] seen_weakly(ctx, i)
}

/// True when a section describes thread-local variables.
pub open spec fn has_tlv(chunks: Seq<ChunkView>) -> bool {
    exists|i: int|
        0 <= i < chunks.len() && (#[trigger] chunks[i]).hdr.flags & SECTION_TYPE
            == S_THREAD_LOCAL_VARIABLES
}

/// True when a library is re-exported.
pub open spec fn reexports(dylibs: Seq<DylibFile>) -> bool {
    exists|i: int| 0 <= i < dylibs.len() && (#[trigger] dylibs[i]).is_reexported
}

/// A flag, if a condition holds.
pub open spec fn flag_if(wanted: bool, flag: u32) -> u32 {
    if wanted {
        flag
    } else {
        0
    }
}

/// The flags of the mach header.
pub open spec fn header_flags(ctx: Context, imports: Seq<(u64, u64, u64)>) -> u32 {
    let t = ctx.args.sw.output_type;
    let chunks = crate::output_chunks::header::chunk_views(ctx.layout.chunks@);
    MH_NOUNDEFS | MH_DYLDLINK | flag_if(!ctx.args.sw.flat_namespace, MH_TWOLEVEL) | flag_if(
        t == MH_EXECUTE,
        MH_PIE,
    ) | flag_if(t == MH_DYLIB && !reexports(ctx.dylibs@), MH_NO_REEXPORTED_DYLIBS) | flag_if(
        t == MH_DYLIB && ctx.args.sw.mark_dead_strippable_dylib,
        MH_DEAD_STRIPPABLE_DYLIB,
    ) | flag_if(binds_to_weak(ctx, imports), MH_BINDS_TO_WEAK) | flag_if(
        weak_defines(ctx),
        MH_WEAK_DEFINES,
    ) | flag_if(ctx.args.sw.application_extension, MH_APP_EXTENSION_SAFE) | flag_if(
        has_tlv(chunks),
        MH_HAS_TLV_DESCRIPTORS,
    )
}

fn pick_flag(wanted: bool, flag: u32) -> (r: u32)
    ensures
        r == flag_if(wanted, flag),
{
    if wanted {
        flag
    } else {
        0
    }
}

fn find_binds_to_weak(ctx: &Context, imports: &Vec<(u64, u64, u64)>) -> (r: bool)
    requires
        ctx.wf(),
        forall|k: int|
            0 <= k < imports.len() ==> (#[trigger] imports[k]).0 < ctx.inputs.symtab.syms.len(),
    ensures
        r == binds_to_weak(*ctx, imports@),
{
    let mut i: usize = 0;
    while i < ctx.inputs.symtab.syms.len()
        invariant
            ctx.wf(),
            i <= ctx.inputs.symtab.syms.len(),
            forall|k: int| 0 <= k < i ==> !#[trigger] uses_weak_export(*ctx, k),
        decreases ctx.inputs.symtab.syms.len() - i,
    {
        proof {
            assert(ctx.sym_ok(ctx.inputs.symtab.syms[i as int]));
        }
        let s = &ctx.inputs.symtab.syms[i];
        let hit: bool = match s.origin() {
            Origin::Dylib(d) => d != crate::input_sections::UNSET && s.flags.is_used && text::holds(
                &ctx.dylibs[d as usize].weak_exports,
                s.name.as_slice(),
            ),
            _ => false,
        };
        if hit {
            assert(uses_weak_export(*ctx, i as int));
            return true;
        }
        i += 1;
    }
    let mut k: usize = 0;
    while k < imports.len()
        invariant
            ctx.wf(),
            k <= imports.len(),
            forall|k: int|
                0 <= k < imports.len() ==> (#[trigger] imports[k]).0
                    < ctx.inputs.symtab.syms.len(),
            forall|j: int|
                0 <= j < ctx.inputs.symtab.syms.len() ==> !#[trigger] uses_weak_export(*ctx, j),
            forall|j: int| 0 <= j < k ==> !#[trigger] ctx.weak_lookup(imports[j].0 as int),
        decreases imports.len() - k,
    {
        assert(imports[k as int].0 < ctx.inputs.symtab.syms.len());
        if ctx.binds_weak_lookup(imports[k].0 as u32) {
            assert(ctx.weak_lookup(imports[k as int].0 as int));
            return true;
        }
        k += 1;
    }
    false
}

fn find_weak_defines(ctx: &Context) -> (r: bool)
    requires
        ctx.wf(),
    ensures
        r == weak_defines(*ctx),
{
    let mut i: usize = 0;
    while i < ctx.inputs.symtab.syms.len()
        invariant
            ctx.wf(),
            i <= ctx.inputs.symtab.syms.len(),
            forall|k: int| 0 <= k < i ==> !#[trigger] seen_weakly(*ctx, k),
        decreases ctx.inputs.symtab.syms.len() - i,
    {
        proof {
            assert(ctx.inputs.sym_ok(ctx.inputs.symtab.syms[i as int]));
        }
        let s = &ctx.inputs.symtab.syms[i];
        let own: bool = s.flags.is_weak_def && s.flags.is_extern && !s.flags.is_private_extern
            && match s.isec() {
            Some(k) => ctx.inputs.isecs[k as usize].is_alive,
            None => false,
        };
        if own || ctx.overrides_weak_export(i as u32) {
            assert(seen_weakly(*ctx, i as int));
            return true;
        }
        i += 1;
    }
    false
}

fn find_tlv(chunks: &Vec<Chunk>) -> (r: bool)
    ensures
        r == has_tlv(crate::output_chunks::header::chunk_views(chunks@)),
{
    let ghost cv = crate::output_chunks::header::chunk_views(chunks@);
    let mut i: usize = 0;
    while i < chunks.len()
        invariant
            i <= chunks.len(),
            cv == crate::output_chunks::header::chunk_views(chunks@),
            forall|k: int|
                0 <= k < i ==> (#[trigger] cv[k]).hdr.flags & SECTION_TYPE
                    != S_THREAD_LOCAL_VARIABLES,
        decreases chunks.len() - i,
    {
        assert(cv[i as int] == chunks[i as int]@);
        if chunks[i].hdr.flags & SECTION_TYPE == S_THREAD_LOCAL_VARIABLES {
            return true;
        }
        i += 1;
    }
    false
}

fn find_reexports(dylibs: &Vec<DylibFile>) -> (r: bool)
    ensures
        r == reexports(dylibs@),
{
    let mut i: usize = 0;
    while i < dylibs.len()
        invariant
            i <= dylibs.len(),
            forall|k: int| 0 <= k < i ==> !(#[trigger] dylibs[k]).is_reexported,
        decreases dylibs.len() - i,
    {
        if dylibs[i].is_reexported {
            return true;
        }
        i += 1;
    }
    false
}

/// The mach header in front of `ncmds` load commands of a size.
pub open spec fn mach_header<E: Arch>(
    ctx: Context,
    imports: Seq<(u64, u64, u64)>,
    ncmds: int,
    size: int,
) -> MachHeader {
    MachHeader {
        magic: MH_MAGIC_64,
        cputype: E::info().cputype,
        cpusubtype: E::info().cpusubtype,
        filetype: ctx.args.sw.output_type,
        ncmds: ncmds as u32,
        sizeofcmds: size as u32,
        flags: header_flags(ctx, imports),
        reserved: 0,
    }
}

/// The mach header and the load commands.
pub open spec fn image_header<E: Arch>(ctx: Context, id: Identity, imports: Seq<(u64, u64, u64)>) -> Seq<
    u8,
> {
    let cmds = load_commands(ctx, id, text_of(ctx)->0);
    let all = joined(cmds, cmds.len() as int);
    mach_header::<E>(ctx, imports, cmds.len() as int, all.len() as int).encoded() + all
}

/// Encodes the mach header and the load commands. `imports` is the chained
/// fixups' import table. `None` for an executable without __TEXT.
pub fn encode_mach_header<E: Arch>(ctx: &Context, id: &Identity, imports: &Vec<(u64, u64, u64)>) -> (
    r: Option<Vec<u8>>)
    requires
        ctx.wf(),
        crate::passes::chunk_list::segs_ok(
            ctx.layout.segments@,
            ctx.layout.chunks.len() as int,
        ),
        forall|k: int|
            0 <= k < imports.len() ==> (#[trigger] imports[k]).0 < ctx.inputs.symtab.syms.len(),
    ensures
        match r {
            Some(b) => text_of(*ctx) is Some && b@ == image_header::<E>(*ctx, *id, imports@),
            None => text_of(*ctx) is None,
        },
{
    let cmds: Vec<Vec<u8>> = match create_load_commands(ctx, id) {
        Some(v) => v,
        None => {
            return None;
        },
    };
    let all: Vec<u8> = join(&cmds);
    assert(bytes::views(cmds@).len() == cmds.len());
    let info = E::get_info();
    let t: u32 = ctx.args.sw.output_type;
    let flags: u32 = MH_NOUNDEFS | MH_DYLDLINK | pick_flag(
        !ctx.args.sw.flat_namespace,
        MH_TWOLEVEL,
    ) | pick_flag(t == MH_EXECUTE, MH_PIE) | pick_flag(
        t == MH_DYLIB && !find_reexports(&ctx.dylibs),
        MH_NO_REEXPORTED_DYLIBS,
    ) | pick_flag(
        t == MH_DYLIB && ctx.args.sw.mark_dead_strippable_dylib,
        MH_DEAD_STRIPPABLE_DYLIB,
    ) | pick_flag(find_binds_to_weak(ctx, imports), MH_BINDS_TO_WEAK) | pick_flag(
        find_weak_defines(ctx),
        MH_WEAK_DEFINES,
    ) | pick_flag(ctx.args.sw.application_extension, MH_APP_EXTENSION_SAFE) | pick_flag(
        find_tlv(&ctx.layout.chunks),
        MH_HAS_TLV_DESCRIPTORS,
    );
    let hdr = MachHeader {
        magic: MH_MAGIC_64,
        cputype: info.cputype,
        cpusubtype: info.cpusubtype,
        filetype: t,
        ncmds: cmds.len() as u32,
        sizeofcmds: all.len() as u32,
        flags,
        reserved: 0,
    };
    let mut buf: Vec<u8> = Vec::new();
    hdr.push_to(&mut buf);
    assert(buf@ =~= hdr.encoded());
    bytes::append(&mut buf, all.as_slice());
    Some(buf)
}

} // verus!
