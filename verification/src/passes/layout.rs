//! The addresses and file offsets of all chunks and segments.
use crate::arch::Arch;
use crate::context::Layout;
use crate::macho::consts::{SECTION_TYPE, S_THREAD_LOCAL_REGULAR, S_THREAD_LOCAL_ZEROFILL};
use crate::output_chunks::header::{
    Chunk, ChunkKind, ChunkView, HeaderView, OutputSegment, SegmentPlace, SegmentView,
};
use crate::util::{self, align_to, bytes, find_place};
use vstd::prelude::*;
use vstd::string::*;

verus! {

/// The sizes of chunks that are encoded apart from their layout.
#[derive(Clone, Copy, Debug, PartialEq, Eq, Structural)]
pub struct TableSizes {
    pub header: u64,
    pub unwind: u64,
    pub symtab: u64,
    pub strtab: u64,
    pub chained: u64,
    pub rebase: u64,
    pub bind: u64,
    pub trie: u64,
    pub split: u64,
    pub starts: u64,
    pub dice: u64,
    pub signature: u64,
}

/// The size of a chunk: that of its encoding, or the one that it has.
pub open spec fn size_of(c: ChunkView, t: TableSizes) -> u64 {
    match c.kind {
        ChunkKind::MachHeader => t.header,
        ChunkKind::Symtab => t.symtab,
        ChunkKind::Strtab => t.strtab,
        ChunkKind::UnwindInfo => t.unwind,
        ChunkKind::ChainedFixups => t.chained,
        ChunkKind::RebaseInfo => t.rebase,
        ChunkKind::BindInfo => t.bind,
        ChunkKind::ExportTrie => t.trie,
        ChunkKind::SplitInfo => t.split,
        ChunkKind::FunctionStarts => t.starts,
        ChunkKind::DataInCode => t.dice,
        ChunkKind::CodeSignature => t.signature,
        _ => c.hdr.size,
    }
}

fn find_size(c: &Chunk, t: &TableSizes) -> (r: u64)
    ensures
        r == size_of(c@, *t),
{
    match c.kind {
        ChunkKind::MachHeader => t.header,
        ChunkKind::Symtab => t.symtab,
        ChunkKind::Strtab => t.strtab,
        ChunkKind::UnwindInfo => t.unwind,
        ChunkKind::ChainedFixups => t.chained,
        ChunkKind::RebaseInfo => t.rebase,
        ChunkKind::BindInfo => t.bind,
        ChunkKind::ExportTrie => t.trie,
        ChunkKind::SplitInfo => t.split,
        ChunkKind::FunctionStarts => t.starts,
        ChunkKind::DataInCode => t.dice,
        ChunkKind::CodeSignature => t.signature,
        _ => c.hdr.size,
    }
}

/// The alignment of a chunk in the file: tables have a fixed one.
pub open spec fn p2align_of(c: ChunkView) -> u32 {
    match c.kind {
        ChunkKind::Symtab => 3,
        ChunkKind::Strtab => 3,
        ChunkKind::RebaseInfo => 3,
        ChunkKind::BindInfo => 3,
        ChunkKind::ChainedFixups => 3,
        ChunkKind::ExportTrie => 3,
        ChunkKind::SplitInfo => 3,
        ChunkKind::FunctionStarts => 3,
        ChunkKind::DataInCode => 3,
        ChunkKind::IndirectSymtab => 2,
        ChunkKind::CodeSignature => 4,
        _ => c.hdr.p2align,
    }
}

fn find_p2align(c: &Chunk) -> (r: u32)
    ensures
        r == p2align_of(c@),
{
    match c.kind {
        ChunkKind::Symtab => 3,
        ChunkKind::Strtab => 3,
        ChunkKind::RebaseInfo => 3,
        ChunkKind::BindInfo => 3,
        ChunkKind::ChainedFixups => 3,
        ChunkKind::ExportTrie => 3,
        ChunkKind::SplitInfo => 3,
        ChunkKind::FunctionStarts => 3,
        ChunkKind::DataInCode => 3,
        ChunkKind::IndirectSymtab => 2,
        ChunkKind::CodeSignature => 4,
        _ => c.hdr.p2align,
    }
}

/// Where something can stand at or behind `off`, if anywhere.
pub open spec fn place(off: u64, p2align: u32) -> Option<u64> {
    if p2align < 64 {
        util::place_at(off, p2align as u8)
    } else {
        None
    }
}

fn find(off: u64, p2align: u32) -> (r: Option<u64>)
    ensures
        r == place(off, p2align),
        r matches Some(a) ==> off <= a,
{
    if p2align < 64 {
        find_place(off, p2align as u8)
    } else {
        None
    }
}

/// A chunk with its place and size.
pub open spec fn placed(c: ChunkView, addr: int, fileoff: u64, size: u64) -> ChunkView {
    ChunkView { hdr: HeaderView { addr: addr as u64, fileoff, size, ..c.hdr }, ..c }
}

fn set_place(c: &mut Chunk, addr: u64, fileoff: u64, size: u64)
    ensures
        final(c)@ == placed(old(c)@, addr as int, fileoff, size),
        final(c).isecs == old(c).isecs,
{
    c.hdr.addr = addr;
    c.hdr.fileoff = fileoff;
    c.hdr.size = size;
}

/// Chunks, and the cursor behind what is placed.
#[verifier::ext_equal]
pub struct Cursor {
    pub chunks: Seq<ChunkView>,
    pub at: u64,
}

/// The first `n` listed chunks with file contents placed one behind the
/// other in a segment that starts at `vmaddr` and `fileoff`.
pub open spec fn regular_to(
    chunks: Seq<ChunkView>,
    idxs: Seq<usize>,
    vmaddr: u64,
    fileoff: u64,
    t: TableSizes,
    n: int,
) -> Option<Cursor>
    decreases n,
{
    if n <= 0 {
        Some(Cursor { chunks, at: fileoff })
    } else {
        match regular_to(chunks, idxs, vmaddr, fileoff, t, n - 1) {
            None => None,
            Some(p) => {
                let i = idxs[n - 1] as int;
                let c = p.chunks[i];
                if c.hdr.zerofill() {
                    Some(p)
                } else {
                    match place(p.at, p2align_of(c)) {
                        None => None,
                        Some(at) => if at + size_of(c, t) > u64::MAX || vmaddr + (at - fileoff)
                            > u64::MAX {
                            None
                        } else {
                            Some(
                                Cursor {
                                    chunks: p.chunks.update(
                                        i,
                                        placed(c, vmaddr + (at - fileoff), at, size_of(c, t)),
                                    ),
                                    at: (at + size_of(c, t)) as u64,
                                },
                            )
                        },
                    }
                }
            },
        }
    }
}

/// The first `n` listed chunks without file contents placed one behind the
/// other from `start` on.
pub open spec fn zerofill_to(
    chunks: Seq<ChunkView>,
    idxs: Seq<usize>,
    start: u64,
    n: int,
) -> Option<Cursor>
    decreases n,
{
    if n <= 0 {
        Some(Cursor { chunks, at: start })
    } else {
        match zerofill_to(chunks, idxs, start, n - 1) {
            None => None,
            Some(p) => {
                let i = idxs[n - 1] as int;
                let c = p.chunks[i];
                if !c.hdr.zerofill() {
                    Some(p)
                } else {
                    match place(p.at, c.hdr.p2align) {
                        None => None,
                        Some(at) => if at + c.hdr.size > u64::MAX {
                            None
                        } else {
                            Some(
                                Cursor {
                                    chunks: p.chunks.update(
                                        i,
                                        placed(c, at as int, 0, c.hdr.size),
                                    ),
                                    at: (at + c.hdr.size) as u64,
                                },
                            )
                        },
                    }
                }
            },
        }
    }
}

proof fn lemma_regular_none(
    chunks: Seq<ChunkView>,
    idxs: Seq<usize>,
    vmaddr: u64,
    fileoff: u64,
    t: TableSizes,
    a: int,
    b: int,
)
    requires
        a <= b,
        regular_to(chunks, idxs, vmaddr, fileoff, t, a) is None,
    ensures
        regular_to(chunks, idxs, vmaddr, fileoff, t, b) is None,
    decreases b - a,
{
    if a < b && b > 0 {
        lemma_regular_none(chunks, idxs, vmaddr, fileoff, t, a, b - 1);
    }
}

proof fn lemma_zerofill_none(
    chunks: Seq<ChunkView>,
    idxs: Seq<usize>,
    start: u64,
    a: int,
    b: int,
)
    requires
        a <= b,
        zerofill_to(chunks, idxs, start, a) is None,
    ensures
        zerofill_to(chunks, idxs, start, b) is None,
    decreases b - a,
{
    if a < b && b > 0 {
        lemma_zerofill_none(chunks, idxs, start, a, b - 1);
    }
}

/// True when two lists of chunks have the same subsections.
pub open spec fn same_lists(a: Seq<Chunk>, b: Seq<Chunk>) -> bool {
    a.len() == b.len() && forall|i: int|
        0 <= i < a.len() ==> (#[trigger] b[i]).isecs == a[i].isecs
}

/// Places the listed chunks with file contents. Returns the cursor.
fn place_regular(
    chunks: &mut Vec<Chunk>,
    idxs: &Vec<usize>,
    vmaddr: u64,
    fileoff: u64,
    t: &TableSizes,
) -> (r: Option<u64>)
    requires
        forall|i: int| 0 <= i < idxs.len() ==> (#[trigger] idxs[i]) < old(chunks).len(),
    ensures
        match r {
            Some(at) => regular_to(
                crate::output_chunks::header::chunk_views(old(chunks)@),
                idxs@,
                vmaddr,
                fileoff,
                *t,
                idxs.len() as int,
            ) == Some(
                (Cursor { chunks: crate::output_chunks::header::chunk_views(final(chunks)@), at }),
            ) && fileoff <= at,
            None => regular_to(
                crate::output_chunks::header::chunk_views(old(chunks)@),
                idxs@,
                vmaddr,
                fileoff,
                *t,
                idxs.len() as int,
            ) is None,
        },
        same_lists(old(chunks)@, final(chunks)@),
{
    let ghost start = crate::output_chunks::header::chunk_views(chunks@);
    let ghost first = chunks@;
    let mut at: u64 = fileoff;
    let mut n: usize = 0;
    while n < idxs.len()
        invariant
            n <= idxs.len(),
            fileoff <= at,
            start == crate::output_chunks::header::chunk_views(old(chunks)@),
            first == old(chunks)@,
            same_lists(first, chunks@),
            forall|i: int| 0 <= i < idxs.len() ==> (#[trigger] idxs[i]) < chunks.len(),
            regular_to(start, idxs@, vmaddr, fileoff, *t, n as int) == Some(
                (Cursor { chunks: crate::output_chunks::header::chunk_views(chunks@), at }),
            ),
        decreases idxs.len() - n,
    {
        let i: usize = idxs[n];
        let ghost before = crate::output_chunks::header::chunk_views(chunks@);
        assert(before[i as int] == chunks[i as int]@);
        if !chunks[i].hdr.is_zerofill() {
            let p2: u32 = find_p2align(&chunks[i]);
            let size: u64 = find_size(&chunks[i], t);
            match find(at, p2) {
                None => {
                    proof {
                        lemma_regular_none(
                            start,
                            idxs@,
                            vmaddr,
                            fileoff,
                            *t,
                            n + 1,
                            idxs.len() as int,
                        );
                    }
                    return None;
                },
                Some(p) => {
                    if size > u64::MAX - p || p - fileoff > u64::MAX - vmaddr {
                        proof {
                            lemma_regular_none(
                                start,
                                idxs@,
                                vmaddr,
                                fileoff,
                                *t,
                                n + 1,
                                idxs.len() as int,
                            );
                        }
                        return None;
                    }
                    set_place(&mut chunks[i], vmaddr + (p - fileoff), p, size);
                    assert(crate::output_chunks::header::chunk_views(chunks@) =~= before.update(
                        i as int,
                        placed(before[i as int], vmaddr + (p - fileoff), p, size),
                    ));
                    at = p + size;
                },
            }
        }
        n += 1;
    }
    Some(at)
}

/// Places the listed chunks without file contents. Returns the end.
fn place_zerofill(chunks: &mut Vec<Chunk>, idxs: &Vec<usize>, start_addr: u64) -> (r: Option<u64>)
    requires
        forall|i: int| 0 <= i < idxs.len() ==> (#[trigger] idxs[i]) < old(chunks).len(),
    ensures
        match r {
            Some(at) => zerofill_to(
                crate::output_chunks::header::chunk_views(old(chunks)@),
                idxs@,
                start_addr,
                idxs.len() as int,
            ) == Some(
                (Cursor { chunks: crate::output_chunks::header::chunk_views(final(chunks)@), at }),
            ) && start_addr <= at,
            None => zerofill_to(
                crate::output_chunks::header::chunk_views(old(chunks)@),
                idxs@,
                start_addr,
                idxs.len() as int,
            ) is None,
        },
        same_lists(old(chunks)@, final(chunks)@),
{
    let ghost start = crate::output_chunks::header::chunk_views(chunks@);
    let ghost first = chunks@;
    let mut at: u64 = start_addr;
    let mut n: usize = 0;
    while n < idxs.len()
        invariant
            n <= idxs.len(),
            start_addr <= at,
            start == crate::output_chunks::header::chunk_views(old(chunks)@),
            first == old(chunks)@,
            same_lists(first, chunks@),
            forall|i: int| 0 <= i < idxs.len() ==> (#[trigger] idxs[i]) < chunks.len(),
            zerofill_to(start, idxs@, start_addr, n as int) == Some(
                (Cursor { chunks: crate::output_chunks::header::chunk_views(chunks@), at }),
            ),
        decreases idxs.len() - n,
    {
        let i: usize = idxs[n];
        let ghost before = crate::output_chunks::header::chunk_views(chunks@);
        assert(before[i as int] == chunks[i as int]@);
        if chunks[i].hdr.is_zerofill() {
            let size: u64 = chunks[i].hdr.size;
            match find(at, chunks[i].hdr.p2align) {
                None => {
                    proof {
                        lemma_zerofill_none(start, idxs@, start_addr, n + 1, idxs.len() as int);
                    }
                    return None;
                },
                Some(p) => {
                    if size > u64::MAX - p {
                        proof {
                            lemma_zerofill_none(
                                start,
                                idxs@,
                                start_addr,
                                n + 1,
                                idxs.len() as int,
                            );
                        }
                        return None;
                    }
                    set_place(&mut chunks[i], p, 0, size);
                    assert(crate::output_chunks::header::chunk_views(chunks@) =~= before.update(
                        i as int,
                        placed(before[i as int], p as int, 0, size),
                    ));
                    at = p + size;
                },
            }
        }
        n += 1;
    }
    Some(at)
}

/// Chunks and segments, and where the next segment starts.
#[verifier::ext_equal]
pub struct ImageView {
    pub chunks: Seq<ChunkView>,
    pub segments: Seq<SegmentView>,
    pub addr: u64,
    pub fileoff: u64,
}

/// The page at or behind a size, if there is one.
pub open spec fn page_up(size: int, page: u64) -> Option<u64> {
    if size + page - 1 <= u64::MAX {
        Some(util::aligned(size, page as int) as u64)
    } else {
        None
    }
}

/// A segment's place: its file contents are padded to a page, but for those
/// of the last segment, and its memory covers them.
pub open spec fn segment_place(
    name: Seq<u8>,
    vmaddr: u64,
    fileoff: u64,
    filesize: u64,
    vm_end: u64,
    page: u64,
) -> Option<SegmentPlace> {
    let padded = if name == "__LINKEDIT".spec_bytes() {
        Some(filesize)
    } else {
        page_up(filesize as int, page)
    };
    match (padded, page_up(vm_end - vmaddr, page)) {
        (Some(f), Some(v)) => Some(
            SegmentPlace {
                vmaddr,
                vmsize: if v < f {
                    f
                } else {
                    v
                },
                fileoff,
                filesize: f,
            },
        ),
        _ => None,
    }
}

/// One more segment placed.
pub open spec fn segment_placed(
    p: ImageView,
    i: int,
    t: TableSizes,
    page: u64,
    pagezero: u64,
) -> Option<ImageView> {
    let s = p.segments[i];
    if s.name == "__PAGEZERO".spec_bytes() {
        Some(
            ImageView {
                segments: p.segments.update(
                    i,
                    SegmentView {
                        cmd: SegmentPlace { vmaddr: 0, vmsize: pagezero, ..s.cmd },
                        ..s
                    },
                ),
                addr: pagezero,
                ..p
            },
        )
    } else {
        match regular_to(p.chunks, s.chunks, p.addr, p.fileoff, t, s.chunks.len() as int) {
            None => None,
            Some(a) => {
                let filesize = (a.at - p.fileoff) as u64;
                if p.addr + filesize > u64::MAX {
                    None
                } else {
                    match zerofill_to(
                        a.chunks,
                        s.chunks,
                        (p.addr + filesize) as u64,
                        s.chunks.len() as int,
                    ) {
                        None => None,
                        Some(z) => match segment_place(
                            s.name,
                            p.addr,
                            p.fileoff,
                            filesize,
                            z.at,
                            page,
                        ) {
                            None => None,
                            Some(cmd) => if cmd.vmaddr + cmd.vmsize > u64::MAX || cmd.fileoff
                                + cmd.filesize > u64::MAX {
                                None
                            } else {
                                Some(
                                    ImageView {
                                        chunks: z.chunks,
                                        segments: p.segments.update(i, SegmentView { cmd, ..s }),
                                        addr: (cmd.vmaddr + cmd.vmsize) as u64,
                                        fileoff: (cmd.fileoff + cmd.filesize) as u64,
                                    },
                                )
                            },
                        },
                    }
                }
            },
        }
    }
}

/// The first `n` segments placed.
pub open spec fn image_to(
    start: ImageView,
    t: TableSizes,
    page: u64,
    pagezero: u64,
    n: int,
) -> Option<ImageView>
    decreases n,
{
    if n <= 0 {
        Some(start)
    } else {
        match image_to(start, t, page, pagezero, n - 1) {
            None => None,
            Some(p) => segment_placed(p, n - 1, t, page, pagezero),
        }
    }
}

proof fn lemma_image_none(
    start: ImageView,
    t: TableSizes,
    page: u64,
    pagezero: u64,
    a: int,
    b: int,
)
    requires
        a <= b,
        image_to(start, t, page, pagezero, a) is None,
    ensures
        image_to(start, t, page, pagezero, b) is None,
    decreases b - a,
{
    if a < b && b > 0 {
        lemma_image_none(start, t, page, pagezero, a, b - 1);
    }
}

fn find_page_up(size: u64, page: u64) -> (r: Option<u64>)
    requires
        page > 0,
    ensures
        r == page_up(size as int, page),
{
    if size > u64::MAX - (page - 1) {
        return None;
    }
    Some(align_to(size, page))
}

fn find_segment_place(
    name: &[u8],
    vmaddr: u64,
    fileoff: u64,
    filesize: u64,
    vm_end: u64,
    page: u64,
) -> (r: Option<SegmentPlace>)
    requires
        page > 0,
        vmaddr <= vm_end,
    ensures
        r == segment_place(name@, vmaddr, fileoff, filesize, vm_end, page),
{
    let padded: Option<u64> = if bytes::same(name, "__LINKEDIT".as_bytes()) {
        Some(filesize)
    } else {
        find_page_up(filesize, page)
    };
    match (padded, find_page_up(vm_end - vmaddr, page)) {
        (Some(f), Some(v)) => Some(
            SegmentPlace {
                vmaddr,
                vmsize: if v < f {
                    f
                } else {
                    v
                },
                fileoff,
                filesize: f,
            },
        ),
        _ => None,
    }
}

fn copy_indices(v: &Vec<usize>) -> (r: Vec<usize>)
    ensures
        r@ == v@,
{
    let mut r: Vec<usize> = Vec::new();
    while r.len() < v.len()
        invariant
            r.len() <= v.len(),
            r@ =~= v@.take(r.len() as int),
        decreases v.len() - r.len(),
    {
        let i: usize = v[r.len()];
        r.push(i);
    }
    assert(r@ =~= v@);
    r
}

fn set_cmd(s: &mut OutputSegment, cmd: SegmentPlace)
    ensures
        final(s)@ == (SegmentView { cmd, ..old(s)@ }),
        final(s).chunks == old(s).chunks,
{
    s.cmd = cmd;
}

/// Places one segment. Returns where the next one starts.
fn place_segment(
    chunks: &mut Vec<Chunk>,
    segments: &mut Vec<OutputSegment>,
    i: usize,
    addr: u64,
    fileoff: u64,
    t: &TableSizes,
    page: u64,
    pagezero: u64,
) -> (r: Option<(u64, u64)>)
    requires
        page > 0,
        i < old(segments).len(),
        super::chunk_list::segs_ok(old(segments)@, old(chunks).len() as int),
    ensures
        ({
            let start = ImageView {
                chunks: crate::output_chunks::header::chunk_views(old(chunks)@),
                segments: crate::output_chunks::header::segment_views(old(segments)@),
                addr,
                fileoff,
            };
            let end = segment_placed(start, i as int, *t, page, pagezero);
            match r {
                Some(p) => end == Some(
                    (ImageView {
                        chunks: crate::output_chunks::header::chunk_views(final(chunks)@),
                        segments: crate::output_chunks::header::segment_views(final(segments)@),
                        addr: p.0,
                        fileoff: p.1,
                    }),
                ),
                None => end is None,
            }
        }),
        same_lists(old(chunks)@, final(chunks)@),
        final(segments).len() == old(segments).len(),
        super::chunk_list::segs_ok(final(segments)@, final(chunks).len() as int),
{
    let ghost sv = crate::output_chunks::header::segment_views(segments@);
    let ghost before = segments@;
    let ghost nchunks = chunks.len() as int;
    assert(sv[i as int] == segments[i as int]@);
    if bytes::same(segments[i].name.as_slice(), "__PAGEZERO".as_bytes()) {
        let mut cmd: SegmentPlace = segments[i].cmd;
        cmd.vmaddr = 0;
        cmd.vmsize = pagezero;
        set_cmd(&mut segments[i], cmd);
        assert(crate::output_chunks::header::segment_views(segments@) =~= sv.update(
            i as int,
            SegmentView { cmd, ..sv[i as int] },
        ));
        proof {
            lemma_segs_same(before, segments@, nchunks);
        }
        return Some((pagezero, fileoff));
    }
    let idxs: Vec<usize> = copy_indices(&segments[i].chunks);
    proof {
        assert forall|k: int| 0 <= k < idxs.len() implies (#[trigger] idxs[k]) < nchunks by {
            assert(segments[i as int].chunks[k] < nchunks);
        }
    }
    let at: u64 = match place_regular(chunks, &idxs, addr, fileoff, t) {
        Some(at) => at,
        None => {
            return None;
        },
    };
    let filesize: u64 = at - fileoff;
    if filesize > u64::MAX - addr {
        return None;
    }
    let end: u64 = match place_zerofill(chunks, &idxs, addr + filesize) {
        Some(e) => e,
        None => {
            return None;
        },
    };
    let cmd: SegmentPlace = match find_segment_place(
        segments[i].name.as_slice(),
        addr,
        fileoff,
        filesize,
        end,
        page,
    ) {
        Some(c) => c,
        None => {
            return None;
        },
    };
    if cmd.vmsize > u64::MAX - cmd.vmaddr || cmd.filesize > u64::MAX - cmd.fileoff {
        return None;
    }
    set_cmd(&mut segments[i], cmd);
    assert(crate::output_chunks::header::segment_views(segments@) =~= sv.update(
        i as int,
        SegmentView { cmd, ..sv[i as int] },
    ));
    proof {
        lemma_segs_same(before, segments@, nchunks);
    }
    Some((cmd.vmaddr + cmd.vmsize, cmd.fileoff + cmd.filesize))
}

proof fn lemma_segs_same(a: Seq<OutputSegment>, b: Seq<OutputSegment>, n: int)
    requires
        super::chunk_list::segs_ok(a, n),
        a.len() == b.len(),
        forall|i: int| 0 <= i < a.len() ==> (#[trigger] b[i]).chunks == a[i].chunks,
    ensures
        super::chunk_list::segs_ok(b, n),
{
    assert forall|s: int, k: int| 0 <= s < b.len() && 0 <= k < b[s].chunks.len() implies (
    #[trigger] b[s].chunks[k]) < n by {
        assert(a[s].chunks[k] < n);
    }
}

/// The last chunk of a kind among the first `n`, or `default`.
pub open spec fn last_of(chunks: Seq<ChunkView>, kind: ChunkKind, default: usize, n: int) -> usize
    decreases n,
{
    if n <= 0 {
        default
    } else if chunks[n - 1].kind == kind {
        (n - 1) as usize
    } else {
        last_of(chunks, kind, default, n - 1)
    }
}

pub fn find_last(chunks: &Vec<Chunk>, kind: ChunkKind, default: usize) -> (r: usize)
    ensures
        r == last_of(
            crate::output_chunks::header::chunk_views(chunks@),
            kind,
            default,
            chunks.len() as int,
        ),
{
    let ghost cv = crate::output_chunks::header::chunk_views(chunks@);
    let mut r: usize = default;
    let mut i: usize = 0;
    while i < chunks.len()
        invariant
            i <= chunks.len(),
            cv == crate::output_chunks::header::chunk_views(chunks@),
            r == last_of(cv, kind, default, i as int),
        decreases chunks.len() - i,
    {
        assert(cv[i as int] == chunks[i as int]@);
        if chunks[i].kind == kind {
            r = i;
        }
        i += 1;
    }
    r
}

/// True for a section of thread-local data.
pub open spec fn is_tls(c: ChunkView) -> bool {
    let kind = c.hdr.flags & SECTION_TYPE;
    kind == S_THREAD_LOCAL_REGULAR || kind == S_THREAD_LOCAL_ZEROFILL
}

/// The least address of thread-local data among the first `n` chunks.
pub open spec fn first_tls(chunks: Seq<ChunkView>, n: int) -> Option<u64>
    decreases n,
{
    if n <= 0 {
        None
    } else {
        let before = first_tls(chunks, n - 1);
        let c = chunks[n - 1];
        if !is_tls(c) {
            before
        } else {
            match before {
                Some(a) if a <= c.hdr.addr => Some(a),
                _ => Some(c.hdr.addr),
            }
        }
    }
}

fn find_tls(chunks: &Vec<Chunk>) -> (r: Option<u64>)
    ensures
        r == first_tls(
            crate::output_chunks::header::chunk_views(chunks@),
            chunks.len() as int,
        ),
{
    let ghost cv = crate::output_chunks::header::chunk_views(chunks@);
    let mut r: Option<u64> = None;
    let mut i: usize = 0;
    while i < chunks.len()
        invariant
            i <= chunks.len(),
            cv == crate::output_chunks::header::chunk_views(chunks@),
            r == first_tls(cv, i as int),
        decreases chunks.len() - i,
    {
        assert(cv[i as int] == chunks[i as int]@);
        let kind: u32 = chunks[i].hdr.flags & SECTION_TYPE;
        if kind == S_THREAD_LOCAL_REGULAR || kind == S_THREAD_LOCAL_ZEROFILL {
            let a: u64 = chunks[i].hdr.addr;
            r = match r {
                Some(b) => if b <= a {
                    Some(b)
                } else {
                    Some(a)
                },
                None => Some(a),
            };
        }
        i += 1;
    }
    r
}

/// Places all segments and chunks: assigns addresses and file offsets, finds
/// the sections of synthetic slots and the start of thread-local data.
/// Returns false if the output does not fit in the address space.
pub fn set_osec_offsets<E: Arch>(layout: &mut Layout, t: &TableSizes, pagezero: u64) -> (ok: bool)
    requires
        super::chunk_list::segs_ok(old(layout).segments@, old(layout).chunks.len() as int),
    ensures
        ({
            let start = ImageView {
                chunks: crate::output_chunks::header::chunk_views(old(layout).chunks@),
                segments: crate::output_chunks::header::segment_views(old(layout).segments@),
                addr: 0,
                fileoff: 0,
            };
            let end = image_to(
                start,
                *t,
                E::info().page_size,
                pagezero,
                old(layout).segments.len() as int,
            );
            if ok {
                let n = old(layout).chunks.len() as int;
                &&& end matches Some(p) && p.chunks
                    == crate::output_chunks::header::chunk_views(final(layout).chunks@)
                    && p.segments == crate::output_chunks::header::segment_views(
                    final(layout).segments@,
                ) && p.fileoff == final(layout).output_size
                &&& final(layout).stubs_chunk == last_of(
                    start.chunks,
                    ChunkKind::Stubs,
                    old(layout).stubs_chunk,
                    n,
                )
                &&& final(layout).got_chunk == last_of(
                    start.chunks,
                    ChunkKind::Got,
                    old(layout).got_chunk,
                    n,
                )
                &&& final(layout).thread_ptrs_chunk == last_of(
                    start.chunks,
                    ChunkKind::ThreadPtrs,
                    old(layout).thread_ptrs_chunk,
                    n,
                )
                &&& final(layout).objc_stubs_chunk == last_of(
                    start.chunks,
                    ChunkKind::ObjcStubs,
                    old(layout).objc_stubs_chunk,
                    n,
                )
                &&& final(layout).objc_methname_chunk == last_of(
                    start.chunks,
                    ChunkKind::ObjcMethname,
                    old(layout).objc_methname_chunk,
                    n,
                )
                &&& final(layout).objc_selrefs_chunk == last_of(
                    start.chunks,
                    ChunkKind::ObjcSelrefs,
                    old(layout).objc_selrefs_chunk,
                    n,
                )
                &&& final(layout).tls_begin == (match first_tls(
                    crate::output_chunks::header::chunk_views(final(layout).chunks@),
                    n,
                ) {
                    Some(a) => a,
                    None => 0,
                })
            } else {
                end is None
            }
        }),
        same_lists(old(layout).chunks@, final(layout).chunks@),
        final(layout).segments.len() == old(layout).segments.len(),
        super::chunk_list::segs_ok(
            final(layout).segments@,
            final(layout).chunks.len() as int,
        ),
        final(layout).stub_helper_chunk == old(layout).stub_helper_chunk,
        final(layout).lazy_ptrs_chunk == old(layout).lazy_ptrs_chunk,
        final(layout).entry_addr == old(layout).entry_addr,
{
    let page: u64 = E::get_info().page_size;
    layout.stubs_chunk = find_last(&layout.chunks, ChunkKind::Stubs, layout.stubs_chunk);
    layout.got_chunk = find_last(&layout.chunks, ChunkKind::Got, layout.got_chunk);
    layout.thread_ptrs_chunk = find_last(
        &layout.chunks,
        ChunkKind::ThreadPtrs,
        layout.thread_ptrs_chunk,
    );
    layout.objc_stubs_chunk = find_last(
        &layout.chunks,
        ChunkKind::ObjcStubs,
        layout.objc_stubs_chunk,
    );
    layout.objc_methname_chunk = find_last(
        &layout.chunks,
        ChunkKind::ObjcMethname,
        layout.objc_methname_chunk,
    );
    layout.objc_selrefs_chunk = find_last(
        &layout.chunks,
        ChunkKind::ObjcSelrefs,
        layout.objc_selrefs_chunk,
    );
    let ghost named = *layout;
    let ghost start = ImageView {
        chunks: crate::output_chunks::header::chunk_views(layout.chunks@),
        segments: crate::output_chunks::header::segment_views(layout.segments@),
        addr: 0,
        fileoff: 0,
    };
    let mut addr: u64 = 0;
    let mut fileoff: u64 = 0;
    let mut n: usize = 0;
    while n < layout.segments.len()
        invariant
            n <= layout.segments.len(),
            page > 0,
            page == E::info().page_size,
            start.chunks == crate::output_chunks::header::chunk_views(old(layout).chunks@),
            start.segments == crate::output_chunks::header::segment_views(old(layout).segments@),
            start.addr == 0,
            start.fileoff == 0,
            layout.segments.len() == old(layout).segments.len(),
            same_lists(old(layout).chunks@, layout.chunks@),
            super::chunk_list::segs_ok(layout.segments@, layout.chunks.len() as int),
            image_to(start, *t, page, pagezero, n as int) == Some(
                (ImageView {
                    chunks: crate::output_chunks::header::chunk_views(layout.chunks@),
                    segments: crate::output_chunks::header::segment_views(layout.segments@),
                    addr,
                    fileoff,
                }),
            ),
            *layout == (Layout {
                chunks: layout.chunks,
                segments: layout.segments,
                ..named
            }),
            named.stub_helper_chunk == old(layout).stub_helper_chunk,
            named.lazy_ptrs_chunk == old(layout).lazy_ptrs_chunk,
            named.entry_addr == old(layout).entry_addr,
        decreases layout.segments.len() - n,
    {
        match place_segment(
            &mut layout.chunks,
            &mut layout.segments,
            n,
            addr,
            fileoff,
            t,
            page,
            pagezero,
        ) {
            Some(p) => {
                addr = p.0;
                fileoff = p.1;
            },
            None => {
                proof {
                    lemma_image_none(
                        start,
                        *t,
                        page,
                        pagezero,
                        n + 1,
                        layout.segments.len() as int,
                    );
                }
                return false;
            },
        }
        n += 1;
    }
    layout.output_size = fileoff;
    layout.tls_begin = match find_tls(&layout.chunks) {
        Some(a) => a,
        None => 0,
    };
    true
}

} // verus!
