//! What holds of every layout: chunks are aligned, do not overlap and lie
//! within their segments.
use super::layout::{ImageView, TableSizes};
use crate::output_chunks::header::{ChunkView, HeaderView, SegmentView};
use crate::util::{self, order};
use vstd::arithmetic::power2;
use vstd::prelude::*;
use vstd::string::*;

verus! {

/// True when a list names existing chunks, each once.
pub open spec fn lists_once(idxs: Seq<usize>, n: int) -> bool {
    &&& forall|k: int| 0 <= k < idxs.len() ==> (#[trigger] idxs[k]) < n
    &&& forall|j: int, k: int|
        0 <= j < k < idxs.len() ==> #[trigger] idxs[j] != #[trigger] idxs[k]
}

/// True when a chunk is among the first `n` of a list.
pub open spec fn is_listed(idxs: Seq<usize>, i: int, n: int) -> bool {
    exists|k: int| 0 <= k < n && #[trigger] idxs[k] == i
}

/// The file offset behind a chunk.
pub open spec fn file_end(h: HeaderView) -> int {
    h.fileoff + h.size
}

/// The address behind a chunk.
pub open spec fn addr_end(h: HeaderView) -> int {
    h.addr + h.size
}

proof fn lemma_place(off: u64, p2align: u32)
    ensures
        super::layout::place(off, p2align) matches Some(at) ==> off <= at && at as int
            % power2::pow2(p2align as nat) as int == 0,
{
    if let Some(at) = super::layout::place(off, p2align) {
        power2::lemma_pow2_pos(p2align as nat);
        util::lemma_aligned(off as int, power2::pow2(p2align as nat) as int);
    }
}

/// True when a chunk with file contents is placed in a segment that starts
/// at `vmaddr` and `fileoff`.
pub open spec fn regular_ok(c: ChunkView, vmaddr: u64, fileoff: u64, end: int) -> bool {
    &&& fileoff <= c.hdr.fileoff
    &&& file_end(c.hdr) <= end
    &&& c.hdr.addr == vmaddr + (c.hdr.fileoff - fileoff)
    &&& c.hdr.fileoff as int % power2::pow2(super::layout::p2align_of(c) as nat) as int == 0
}

/// True when a chunk without file contents is placed behind `start`.
pub open spec fn zero_ok(c: ChunkView, start: u64, end: int) -> bool {
    &&& start <= c.hdr.addr
    &&& addr_end(c.hdr) <= end
    &&& c.hdr.addr as int % power2::pow2(c.hdr.p2align as nat) as int == 0
}

proof fn lemma_regular(
    chunks: Seq<ChunkView>,
    idxs: Seq<usize>,
    vmaddr: u64,
    fileoff: u64,
    t: TableSizes,
    n: int,
)
    requires
        lists_once(idxs, chunks.len() as int),
        0 <= n <= idxs.len(),
        super::layout::regular_to(chunks, idxs, vmaddr, fileoff, t, n) is Some,
    ensures
        ({
            let c = super::layout::regular_to(chunks, idxs, vmaddr, fileoff, t, n)->Some_0;
            &&& c.chunks.len() == chunks.len()
            &&& fileoff <= c.at
            &&& forall|i: int|
                0 <= i < chunks.len() && (chunks[i].hdr.zerofill() || !is_listed(idxs, i, n))
                    ==> #[trigger] c.chunks[i] == chunks[i]
            &&& forall|i: int|
                0 <= i < chunks.len() ==> (#[trigger] c.chunks[i]).hdr.zerofill()
                    == chunks[i].hdr.zerofill()
            &&& forall|k: int|
                0 <= k < n && !chunks[(#[trigger] idxs[k]) as int].hdr.zerofill() ==> regular_ok(
                    c.chunks[idxs[k] as int],
                    vmaddr,
                    fileoff,
                    c.at as int,
                )
            &&& forall|j: int, k: int|
                0 <= j < k < n && !chunks[idxs[j] as int].hdr.zerofill()
                    && !chunks[idxs[k] as int].hdr.zerofill() ==> file_end(
                    c.chunks[(#[trigger] idxs[j]) as int].hdr,
                ) <= c.chunks[(#[trigger] idxs[k]) as int].hdr.fileoff
        }),
    decreases n,
{
    if n > 0 {
        lemma_regular(chunks, idxs, vmaddr, fileoff, t, n - 1);
        let p = super::layout::regular_to(chunks, idxs, vmaddr, fileoff, t, n - 1)->Some_0;
        let c = super::layout::regular_to(chunks, idxs, vmaddr, fileoff, t, n)->Some_0;
        let i = idxs[n - 1] as int;
        assert(idxs[n - 1] < chunks.len());
        assert(!is_listed(idxs, i, n - 1)) by {
            if is_listed(idxs, i, n - 1) {
                let k = choose|k: int| 0 <= k < n - 1 && #[trigger] idxs[k] == i;
                assert(idxs[k] != idxs[n - 1]);
            }
        }
        assert(p.chunks[i] == chunks[i]);
        if !p.chunks[i].hdr.zerofill() {
            lemma_place(p.at, super::layout::p2align_of(p.chunks[i]));
        }
        assert forall|x: int|
            0 <= x < chunks.len() && (chunks[x].hdr.zerofill() || !is_listed(
                idxs,
                x,
                n,
            )) implies #[trigger] c.chunks[x] == chunks[x] by {
            if is_listed(idxs, x, n - 1) {
                let k = choose|k: int| 0 <= k < n - 1 && #[trigger] idxs[k] == x;
                assert(idxs[k] == x);
                assert(is_listed(idxs, x, n));
            }
            assert(p.chunks[x] == chunks[x]);
            assert(idxs[n - 1] == i);
        }
        assert forall|k: int|
            0 <= k < n && !chunks[(#[trigger] idxs[k]) as int].hdr.zerofill() implies regular_ok(
            c.chunks[idxs[k] as int],
            vmaddr,
            fileoff,
            c.at as int,
        ) by {
            if k < n - 1 {
                assert(idxs[k] != idxs[n - 1]);
                assert(regular_ok(p.chunks[idxs[k] as int], vmaddr, fileoff, p.at as int));
            }
        }
        assert forall|j: int, k: int|
            0 <= j < k < n && !chunks[idxs[j] as int].hdr.zerofill()
                && !chunks[idxs[k] as int].hdr.zerofill() implies file_end(
            c.chunks[(#[trigger] idxs[j]) as int].hdr,
        ) <= c.chunks[(#[trigger] idxs[k]) as int].hdr.fileoff by {
            assert(idxs[j] != idxs[n - 1]);
            assert(regular_ok(p.chunks[idxs[j] as int], vmaddr, fileoff, p.at as int));
            if k < n - 1 {
                assert(idxs[k] != idxs[n - 1]);
            }
        }
    }
}

proof fn lemma_zerofill(chunks: Seq<ChunkView>, idxs: Seq<usize>, start: u64, n: int)
    requires
        lists_once(idxs, chunks.len() as int),
        0 <= n <= idxs.len(),
        super::layout::zerofill_to(chunks, idxs, start, n) is Some,
    ensures
        ({
            let c = super::layout::zerofill_to(chunks, idxs, start, n)->Some_0;
            &&& c.chunks.len() == chunks.len()
            &&& start <= c.at
            &&& forall|i: int|
                0 <= i < chunks.len() && (!chunks[i].hdr.zerofill() || !is_listed(idxs, i, n))
                    ==> #[trigger] c.chunks[i] == chunks[i]
            &&& forall|i: int|
                0 <= i < chunks.len() ==> (#[trigger] c.chunks[i]).hdr.zerofill()
                    == chunks[i].hdr.zerofill()
            &&& forall|k: int|
                0 <= k < n && chunks[(#[trigger] idxs[k]) as int].hdr.zerofill() ==> zero_ok(
                    c.chunks[idxs[k] as int],
                    start,
                    c.at as int,
                )
            &&& forall|j: int, k: int|
                0 <= j < k < n && chunks[idxs[j] as int].hdr.zerofill()
                    && chunks[idxs[k] as int].hdr.zerofill() ==> addr_end(
                    c.chunks[(#[trigger] idxs[j]) as int].hdr,
                ) <= c.chunks[(#[trigger] idxs[k]) as int].hdr.addr
        }),
    decreases n,
{
    if n > 0 {
        lemma_zerofill(chunks, idxs, start, n - 1);
        let p = super::layout::zerofill_to(chunks, idxs, start, n - 1)->Some_0;
        let c = super::layout::zerofill_to(chunks, idxs, start, n)->Some_0;
        let i = idxs[n - 1] as int;
        assert(idxs[n - 1] < chunks.len());
        assert(!is_listed(idxs, i, n - 1)) by {
            if is_listed(idxs, i, n - 1) {
                let k = choose|k: int| 0 <= k < n - 1 && #[trigger] idxs[k] == i;
                assert(idxs[k] != idxs[n - 1]);
            }
        }
        assert(p.chunks[i] == chunks[i]);
        if p.chunks[i].hdr.zerofill() {
            lemma_place(p.at, p.chunks[i].hdr.p2align);
        }
        assert forall|x: int|
            0 <= x < chunks.len() && (!chunks[x].hdr.zerofill() || !is_listed(
                idxs,
                x,
                n,
            )) implies #[trigger] c.chunks[x] == chunks[x] by {
            if is_listed(idxs, x, n - 1) {
                let k = choose|k: int| 0 <= k < n - 1 && #[trigger] idxs[k] == x;
                assert(idxs[k] == x);
                assert(is_listed(idxs, x, n));
            }
            assert(p.chunks[x] == chunks[x]);
            assert(idxs[n - 1] == i);
        }
        assert forall|k: int|
            0 <= k < n && chunks[(#[trigger] idxs[k]) as int].hdr.zerofill() implies zero_ok(
            c.chunks[idxs[k] as int],
            start,
            c.at as int,
        ) by {
            if k < n - 1 {
                assert(idxs[k] != idxs[n - 1]);
                assert(zero_ok(p.chunks[idxs[k] as int], start, p.at as int));
            }
        }
        assert forall|j: int, k: int|
            0 <= j < k < n && chunks[idxs[j] as int].hdr.zerofill()
                && chunks[idxs[k] as int].hdr.zerofill() implies addr_end(
            c.chunks[(#[trigger] idxs[j]) as int].hdr,
        ) <= c.chunks[(#[trigger] idxs[k]) as int].hdr.addr by {
            assert(idxs[j] != idxs[n - 1]);
            assert(zero_ok(p.chunks[idxs[j] as int], start, p.at as int));
            if k < n - 1 {
                assert(idxs[k] != idxs[n - 1]);
            }
        }
    }
}

/// True when a chunk lies within a segment: in memory, and in the file if it
/// has contents there, as far from the start of both.
pub open spec fn lies_in(c: ChunkView, s: SegmentView) -> bool {
    &&& s.cmd.vmaddr <= c.hdr.addr
    &&& addr_end(c.hdr) <= s.cmd.vmaddr + s.cmd.vmsize
    &&& !c.hdr.zerofill() ==> {
        &&& s.cmd.fileoff <= c.hdr.fileoff
        &&& file_end(c.hdr) <= s.cmd.fileoff + s.cmd.filesize
        &&& c.hdr.addr - s.cmd.vmaddr == c.hdr.fileoff - s.cmd.fileoff
        &&& c.hdr.fileoff as int % power2::pow2(super::layout::p2align_of(c) as nat) as int == 0
    }
    &&& c.hdr.zerofill() ==> c.hdr.addr as int % power2::pow2(c.hdr.p2align as nat) as int == 0
}

/// True when two chunks share no address, and no byte of the file if both
/// have contents there.
pub open spec fn are_apart(a: ChunkView, b: ChunkView) -> bool {
    &&& addr_end(a.hdr) <= b.hdr.addr || addr_end(b.hdr) <= a.hdr.addr
    &&& !a.hdr.zerofill() && !b.hdr.zerofill() ==> file_end(a.hdr) <= b.hdr.fileoff || file_end(
        b.hdr,
    ) <= a.hdr.fileoff
}

/// True for a segment that holds chunks: __PAGEZERO only reserves addresses.
pub open spec fn holds_chunks(s: SegmentView) -> bool {
    s.name != "__PAGEZERO".spec_bytes()
}

/// True when the chunks of a segment lie within it, apart from each other.
pub open spec fn segment_ok(p: ImageView, i: int) -> bool {
    let s = p.segments[i];
    holds_chunks(s) ==> {
        &&& forall|k: int|
            0 <= k < s.chunks.len() ==> lies_in(p.chunks[(#[trigger] s.chunks[k]) as int], s)
        &&& forall|j: int, k: int|
            0 <= j < k < s.chunks.len() ==> are_apart(
                p.chunks[(#[trigger] s.chunks[j]) as int],
                p.chunks[(#[trigger] s.chunks[k]) as int],
            )
    }
}

/// True when each chunk is in at most one segment, once, and only the first
/// segment may be __PAGEZERO.
pub open spec fn segments_once(p: ImageView) -> bool {
    &&& forall|s: int|
        0 <= s < p.segments.len() ==> lists_once(
            (#[trigger] p.segments[s]).chunks,
            p.chunks.len() as int,
        )
    &&& forall|a: int, b: int, j: int, k: int|
        0 <= a < b < p.segments.len() && 0 <= j < p.segments[a].chunks.len() && 0 <= k
            < p.segments[b].chunks.len() ==> #[trigger] p.segments[a].chunks[j] != #[trigger] p.segments[b].chunks[k]
    &&& forall|s: int| 0 < s < p.segments.len() ==> holds_chunks(#[trigger] p.segments[s])
}

proof fn lemma_page_up(size: int, page: u64)
    requires
        0 <= size,
        0 < page,
    ensures
        super::layout::page_up(size, page) matches Some(r) ==> size <= r,
{
    if super::layout::page_up(size, page) is Some {
        util::lemma_aligned(size, page as int);
    }
}

proof fn lemma_segment(p: ImageView, i: int, t: TableSizes, page: u64, pagezero: u64)
    requires
        segments_once(p),
        0 <= i < p.segments.len(),
        0 < page,
        holds_chunks(p.segments[i]),
        super::layout::segment_placed(p, i, t, page, pagezero) is Some,
    ensures
        ({
            let q = super::layout::segment_placed(p, i, t, page, pagezero)->Some_0;
            let s = p.segments[i];
            &&& q.chunks.len() == p.chunks.len()
            &&& q.segments == p.segments.update(i, SegmentView { cmd: q.segments[i].cmd, ..s })
            &&& q.segments[i].cmd.vmaddr == p.addr
            &&& q.segments[i].cmd.fileoff == p.fileoff
            &&& q.addr == p.addr + q.segments[i].cmd.vmsize
            &&& q.fileoff == p.fileoff + q.segments[i].cmd.filesize
            &&& segment_ok(q, i)
            &&& forall|x: int|
                0 <= x < p.chunks.len() && !is_listed(s.chunks, x, s.chunks.len() as int)
                    ==> #[trigger] q.chunks[x] == p.chunks[x]
        }),
{
    let q = super::layout::segment_placed(p, i, t, page, pagezero)->Some_0;
    let s = p.segments[i];
    let n = s.chunks.len() as int;
    let a = super::layout::regular_to(p.chunks, s.chunks, p.addr, p.fileoff, t, n)->Some_0;
    let filesize = (a.at - p.fileoff) as u64;
    lemma_regular(p.chunks, s.chunks, p.addr, p.fileoff, t, n);
    let mid = (p.addr + filesize) as u64;
    let z = super::layout::zerofill_to(a.chunks, s.chunks, mid, n)->Some_0;
    lemma_zerofill(a.chunks, s.chunks, mid, n);
    lemma_page_up(filesize as int, page);
    lemma_page_up(z.at - p.addr, page);
    let w = q.segments[i];
    assert(w.cmd.filesize >= filesize);
    assert(p.addr + w.cmd.vmsize >= z.at);
    assert forall|k: int| 0 <= k < n implies lies_in(
        q.chunks[(#[trigger] w.chunks[k]) as int],
        w,
    ) by {
        let x = s.chunks[k] as int;
        if p.chunks[x].hdr.zerofill() {
            assert(a.chunks[x].hdr.zerofill());
            assert(zero_ok(z.chunks[s.chunks[k] as int], mid, z.at as int));
        } else {
            assert(regular_ok(a.chunks[s.chunks[k] as int], p.addr, p.fileoff, a.at as int));
            assert(z.chunks[x] == a.chunks[x]);
        }
    }
    assert forall|j: int, k: int| 0 <= j < k < n implies are_apart(
        q.chunks[(#[trigger] w.chunks[j]) as int],
        q.chunks[(#[trigger] w.chunks[k]) as int],
    ) by {
        let x = s.chunks[j] as int;
        let y = s.chunks[k] as int;
        if p.chunks[x].hdr.zerofill() {
            assert(zero_ok(z.chunks[s.chunks[j] as int], mid, z.at as int));
        } else {
            assert(regular_ok(a.chunks[s.chunks[j] as int], p.addr, p.fileoff, a.at as int));
            assert(z.chunks[x] == a.chunks[x]);
        }
        if p.chunks[y].hdr.zerofill() {
            assert(zero_ok(z.chunks[s.chunks[k] as int], mid, z.at as int));
        } else {
            assert(regular_ok(a.chunks[s.chunks[k] as int], p.addr, p.fileoff, a.at as int));
            assert(z.chunks[y] == a.chunks[y]);
        }
        if !p.chunks[x].hdr.zerofill() && !p.chunks[y].hdr.zerofill() {
            assert(file_end(a.chunks[s.chunks[j] as int].hdr)
                <= a.chunks[s.chunks[k] as int].hdr.fileoff);
        }
        if p.chunks[x].hdr.zerofill() && p.chunks[y].hdr.zerofill() {
            assert(addr_end(z.chunks[s.chunks[j] as int].hdr)
                <= z.chunks[s.chunks[k] as int].hdr.addr);
        }
    }
}

/// True when the first `n` segments of an image stand one behind the other,
/// and their chunks lie within them.
pub open spec fn image_ok(p: ImageView, n: int) -> bool {
    &&& forall|s: int| 0 <= s < n ==> #[trigger] segment_ok(p, s)
    &&& forall|s: int|
        0 <= s < n && holds_chunks(#[trigger] p.segments[s]) ==> p.segments[s].cmd.vmaddr
            + p.segments[s].cmd.vmsize <= p.addr && p.segments[s].cmd.fileoff
            + p.segments[s].cmd.filesize <= p.fileoff
    &&& forall|a: int, b: int|
        0 <= a < b < n && holds_chunks(#[trigger] p.segments[a]) && holds_chunks(
            #[trigger] p.segments[b],
        ) ==> p.segments[a].cmd.vmaddr + p.segments[a].cmd.vmsize <= p.segments[b].cmd.vmaddr
            && p.segments[a].cmd.fileoff + p.segments[a].cmd.filesize
            <= p.segments[b].cmd.fileoff
}

proof fn lemma_image(start: ImageView, t: TableSizes, page: u64, pagezero: u64, n: int)
    requires
        segments_once(start),
        0 < page,
        0 <= n <= start.segments.len(),
        super::layout::image_to(start, t, page, pagezero, n) is Some,
    ensures
        ({
            let p = super::layout::image_to(start, t, page, pagezero, n)->Some_0;
            &&& p.chunks.len() == start.chunks.len()
            &&& p.segments.len() == start.segments.len()
            &&& forall|s: int|
                0 <= s < start.segments.len() ==> (#[trigger] p.segments[s]).chunks
                    == start.segments[s].chunks && p.segments[s].name == start.segments[s].name
            &&& image_ok(p, n)
        }),
    decreases n,
{
    if n > 0 {
        lemma_image(start, t, page, pagezero, n - 1);
        let p = super::layout::image_to(start, t, page, pagezero, n - 1)->Some_0;
        let q = super::layout::image_to(start, t, page, pagezero, n)->Some_0;
        let i = n - 1;
        assert(segments_once(p)) by {
            assert forall|s: int| 0 <= s < p.segments.len() implies lists_once(
                (#[trigger] p.segments[s]).chunks,
                p.chunks.len() as int,
            ) by {
                assert(lists_once(start.segments[s].chunks, start.chunks.len() as int));
            }
            assert forall|a: int, b: int, j: int, k: int|
                0 <= a < b < p.segments.len() && 0 <= j < p.segments[a].chunks.len() && 0 <= k
                    < p.segments[b].chunks.len() implies #[trigger] p.segments[a].chunks[j]
                != #[trigger] p.segments[b].chunks[k] by {
                assert(start.segments[a].chunks[j] != start.segments[b].chunks[k]);
            }
            assert forall|s: int| 0 < s < p.segments.len() implies holds_chunks(
                #[trigger] p.segments[s],
            ) by {
                assert(holds_chunks(start.segments[s]));
            }
        }
        if holds_chunks(p.segments[i]) {
            lemma_segment(p, i, t, page, pagezero);
            let list = p.segments[i].chunks;
            assert forall|s: int| 0 <= s < n implies #[trigger] segment_ok(q, s) by {
                if s < i {
                    assert(segment_ok(p, s));
                    let l = p.segments[s].chunks;
                    assert(q.segments[s] == p.segments[s]);
                    assert forall|k: int| 0 <= k < l.len() implies q.chunks[(
                    #[trigger] l[k]) as int] == p.chunks[l[k] as int] by {
                        let x = l[k] as int;
                        assert(l[k] < p.chunks.len());
                        if is_listed(list, x, list.len() as int) {
                            let m = choose|m: int|
                                0 <= m < list.len() && #[trigger] list[m] == x;
                            assert(p.segments[s].chunks[k] != p.segments[i].chunks[m]);
                        }
                    }
                }
            }
            assert forall|s: int| 0 <= s < n && holds_chunks(#[trigger] q.segments[s]) implies
                q.segments[s].cmd.vmaddr + q.segments[s].cmd.vmsize <= q.addr
                && q.segments[s].cmd.fileoff + q.segments[s].cmd.filesize <= q.fileoff by {
                if s < i {
                    assert(q.segments[s] == p.segments[s]);
                }
            }
            assert forall|a: int, b: int|
                0 <= a < b < n && holds_chunks(#[trigger] q.segments[a]) && holds_chunks(
                    #[trigger] q.segments[b],
                ) implies q.segments[a].cmd.vmaddr + q.segments[a].cmd.vmsize
                <= q.segments[b].cmd.vmaddr && q.segments[a].cmd.fileoff
                + q.segments[a].cmd.filesize <= q.segments[b].cmd.fileoff by {
                assert(q.segments[a] == p.segments[a]);
                if b < i {
                    assert(q.segments[b] == p.segments[b]);
                }
            }
        } else {
            assert(i == 0) by {
                if i > 0 {
                    assert(holds_chunks(p.segments[i]));
                }
            }
        }
    }
}

/// Every chunk lies within its segment: at an aligned place, and as far
/// from the segment's start in the file as in memory.
pub proof fn lemma_chunks_in_segments(
    start: ImageView,
    t: TableSizes,
    page: u64,
    pagezero: u64,
    s: int,
    k: int,
)
    requires
        segments_once(start),
        0 < page,
        super::layout::image_to(start, t, page, pagezero, start.segments.len() as int) is Some,
        0 <= s < start.segments.len(),
        holds_chunks(start.segments[s]),
        0 <= k < start.segments[s].chunks.len(),
    ensures
        ({
            let p = super::layout::image_to(
                start,
                t,
                page,
                pagezero,
                start.segments.len() as int,
            )->Some_0;
            lies_in(p.chunks[start.segments[s].chunks[k] as int], p.segments[s])
        }),
{
    lemma_image(start, t, page, pagezero, start.segments.len() as int);
    let p = super::layout::image_to(start, t, page, pagezero, start.segments.len() as int)->Some_0;
    assert(segment_ok(p, s));
    assert(p.segments[s].chunks == start.segments[s].chunks);
    assert(lies_in(p.chunks[p.segments[s].chunks[k] as int], p.segments[s]));
}

/// No two chunks overlap, neither in memory nor in the file.
pub proof fn lemma_chunks_apart(
    start: ImageView,
    t: TableSizes,
    page: u64,
    pagezero: u64,
    a: int,
    j: int,
    b: int,
    k: int,
)
    requires
        segments_once(start),
        0 < page,
        super::layout::image_to(start, t, page, pagezero, start.segments.len() as int) is Some,
        0 <= a <= b < start.segments.len(),
        holds_chunks(start.segments[a]),
        holds_chunks(start.segments[b]),
        0 <= j < start.segments[a].chunks.len(),
        0 <= k < start.segments[b].chunks.len(),
        a == b ==> j < k,
    ensures
        ({
            let p = super::layout::image_to(
                start,
                t,
                page,
                pagezero,
                start.segments.len() as int,
            )->Some_0;
            are_apart(
                p.chunks[start.segments[a].chunks[j] as int],
                p.chunks[start.segments[b].chunks[k] as int],
            )
        }),
{
    let n = start.segments.len() as int;
    lemma_image(start, t, page, pagezero, n);
    let p = super::layout::image_to(start, t, page, pagezero, n)->Some_0;
    assert(p.segments[a].chunks == start.segments[a].chunks);
    assert(p.segments[b].chunks == start.segments[b].chunks);
    if a == b {
        assert(segment_ok(p, a));
        assert(are_apart(
            p.chunks[p.segments[a].chunks[j] as int],
            p.chunks[p.segments[a].chunks[k] as int],
        ));
    } else {
        lemma_chunks_in_segments(start, t, page, pagezero, a, j);
        lemma_chunks_in_segments(start, t, page, pagezero, b, k);
    }
}

/// True when every chunk in a list of segments is one of the first `n` of
/// an order.
pub open spec fn listed_from(segs: Seq<SegmentView>, at: Seq<usize>, n: int) -> bool {
    forall|s: int, k: int|
        0 <= s < segs.len() && 0 <= k < segs[s].chunks.len() ==> is_listed(
            at,
            (#[trigger] segs[s].chunks[k]) as int,
            n,
        )
}

/// True when no chunk is in two segments, or twice in one.
pub open spec fn apart_in(segs: Seq<SegmentView>) -> bool {
    &&& forall|s: int, j: int, k: int|
        0 <= s < segs.len() && 0 <= j < k < segs[s].chunks.len()
            ==> #[trigger] segs[s].chunks[j] != #[trigger] segs[s].chunks[k]
    &&& forall|a: int, b: int, j: int, k: int|
        0 <= a < b < segs.len() && 0 <= j < segs[a].chunks.len() && 0 <= k < segs[b].chunks.len()
            ==> #[trigger] segs[a].chunks[j] != #[trigger] segs[b].chunks[k]
}

proof fn lemma_grouped(
    start: Seq<SegmentView>,
    chunks: Seq<ChunkView>,
    at: Seq<usize>,
    n: int,
)
    requires
        start.len() <= 1,
        forall|s: int| 0 <= s < start.len() ==> (#[trigger] start[s]).chunks.len() == 0,
        lists_once(at, chunks.len() as int),
        0 <= n <= at.len(),
        forall|i: int|
            0 <= i < chunks.len() ==> (#[trigger] chunks[i]).hdr.segname
                != "__PAGEZERO".spec_bytes(),
    ensures
        ({
            let segs = super::chunk_list::grouped_to(start, chunks, at, n);
            &&& listed_from(segs, at, n)
            &&& apart_in(segs)
            &&& start.len() <= segs.len()
            &&& forall|s: int| start.len() <= s < segs.len() ==> holds_chunks(#[trigger] segs[s])
            &&& forall|s: int|
                0 <= s < start.len() && !holds_chunks(start[s]) ==> !holds_chunks(
                    #[trigger] segs[s],
                )
        }),
    decreases n,
{
    if n > 0 {
        lemma_grouped(start, chunks, at, n - 1);
        let segs = super::chunk_list::grouped_to(start, chunks, at, n - 1);
        let next = super::chunk_list::grouped_to(start, chunks, at, n);
        let idx = at[n - 1];
        assert(idx < chunks.len());
        let name = chunks[idx as int].hdr.segname;
        let joins = segs.len() > 0 && segs.last().name == name;
        let last = next.len() - 1;
        assert(!is_listed(at, idx as int, n - 1)) by {
            if is_listed(at, idx as int, n - 1) {
                let k = choose|k: int| 0 <= k < n - 1 && #[trigger] at[k] == idx;
                assert(at[k] != at[n - 1]);
            }
        }
        assert forall|s: int, k: int| 0 <= s < next.len() && 0 <= k < next[s].chunks.len() implies {
            &&& is_listed(at, (#[trigger] next[s].chunks[k]) as int, n)
            &&& (s == last && k == next[s].chunks.len() - 1) || (s < segs.len() && k
                < segs[s].chunks.len() && next[s].chunks[k] == segs[s].chunks[k]
                && next[s].chunks[k] != idx)
        } by {
            if s == last && k == next[s].chunks.len() - 1 {
                assert(at[n - 1] == idx);
            } else {
                assert(s < segs.len());
                assert(next[s].chunks[k] == segs[s].chunks[k]);
                assert(is_listed(at, segs[s].chunks[k] as int, n - 1));
                let m = choose|m: int|
                    0 <= m < n - 1 && #[trigger] at[m] == segs[s].chunks[k] as int;
                assert(at[m] == next[s].chunks[k]);
            }
        }
        assert(next[last].chunks.last() == idx);
        assert forall|s: int, j: int, k: int|
            0 <= s < next.len() && 0 <= j < k < next[s].chunks.len() implies
            #[trigger] next[s].chunks[j] != #[trigger] next[s].chunks[k] by {
            assert(next[s].chunks[j] == segs[s].chunks[j]);
            if !(s == last && k == next[s].chunks.len() - 1) {
                assert(segs[s].chunks[j] != segs[s].chunks[k]);
            }
        }
        assert forall|a: int, b: int, j: int, k: int|
            0 <= a < b < next.len() && 0 <= j < next[a].chunks.len() && 0 <= k
                < next[b].chunks.len() implies #[trigger] next[a].chunks[j]
            != #[trigger] next[b].chunks[k] by {
            assert(next[a].chunks[j] == segs[a].chunks[j]);
            if !(b == last && k == next[b].chunks.len() - 1) {
                assert(segs[a].chunks[j] != segs[b].chunks[k]);
            }
        }
        assert forall|s: int| start.len() <= s < next.len() implies holds_chunks(
            #[trigger] next[s],
        ) by {
            if s < segs.len() {
                assert(holds_chunks(segs[s]));
            }
        }
        assert forall|s: int| 0 <= s < start.len() && !holds_chunks(start[s]) implies !holds_chunks(
            #[trigger] next[s],
        ) by {
            assert(!holds_chunks(segs[s]));
        }
    }
}

/// The segments that chunks are grouped into list each chunk once, and only
/// the first of them may be __PAGEZERO.
pub proof fn lemma_segments_once(chunks: Seq<ChunkView>, pagezero: bool)
    requires
        chunks.len() <= usize::MAX,
        forall|i: int|
            0 <= i < chunks.len() ==> (#[trigger] chunks[i]).hdr.segname
                != "__PAGEZERO".spec_bytes(),
    ensures
        segments_once(
            (ImageView {
                chunks,
                segments: super::chunk_list::segments_of(chunks, pagezero),
                addr: 0,
                fileoff: 0,
            }),
        ),
{
    let keys = super::chunk_list::chunk_keys(chunks);
    let at = order::stable_order_of(keys);
    order::lemma_stable_order_exists(keys);
    assert(order::is_stable_order(keys, at));
    assert forall|j: int, k: int| 0 <= j < k < at.len() implies #[trigger] at[j]
        != #[trigger] at[k] by {
        assert(order::item_before(keys, at[j] as int, at[k] as int));
        if at[j] == at[k] {
            order::lemma_item_before_asymmetric(keys, at[j] as int, at[k] as int);
        }
    }
    let start = if pagezero {
        seq![
            SegmentView {
                name: "__PAGEZERO".spec_bytes(),
                chunks: Seq::empty(),
                cmd: crate::output_chunks::header::no_place(),
            },
        ]
    } else {
        Seq::empty()
    };
    lemma_grouped(start, chunks, at, chunks.len() as int);
    let segs = super::chunk_list::segments_of(chunks, pagezero);
    assert forall|s: int| 0 <= s < segs.len() implies lists_once(
        (#[trigger] segs[s]).chunks,
        chunks.len() as int,
    ) by {
        assert forall|k: int| 0 <= k < segs[s].chunks.len() implies (#[trigger] segs[s].chunks[k])
            < chunks.len() by {
            assert(is_listed(at, segs[s].chunks[k] as int, chunks.len() as int));
        }
    }
}

/// True when two chunks differ in place and size at most.
pub open spec fn alike(a: ChunkView, b: ChunkView) -> bool {
    b == (ChunkView {
        hdr: HeaderView {
            addr: b.hdr.addr,
            fileoff: b.hdr.fileoff,
            size: b.hdr.size,
            ..a.hdr
        },
        ..a
    })
}

/// True when chunks differ in place and size at most.
pub open spec fn all_alike(a: Seq<ChunkView>, b: Seq<ChunkView>) -> bool {
    &&& a.len() == b.len()
    &&& forall|i: int| 0 <= i < a.len() ==> alike(a[i], #[trigger] b[i])
}

/// True when the listed chunks take as much room with either tables.
pub open spec fn same_sizes(
    a: Seq<ChunkView>,
    t: TableSizes,
    b: Seq<ChunkView>,
    u: TableSizes,
    idxs: Seq<usize>,
) -> bool {
    forall|k: int|
        0 <= k < idxs.len() ==> {
            let (x, y) = (a[(#[trigger] idxs[k]) as int], b[idxs[k] as int]);
            &&& !x.hdr.zerofill() ==> super::layout::size_of(x, t) == super::layout::size_of(y, u)
            &&& x.hdr.zerofill() ==> x.hdr.size == y.hdr.size
        }
}

proof fn lemma_regular_same(
    a: Seq<ChunkView>,
    t: TableSizes,
    b: Seq<ChunkView>,
    u: TableSizes,
    idxs: Seq<usize>,
    vmaddr: u64,
    fileoff: u64,
    n: int,
)
    requires
        lists_once(idxs, a.len() as int),
        all_alike(a, b),
        same_sizes(a, t, b, u, idxs),
        0 <= n <= idxs.len(),
    ensures
        ({
            let p = super::layout::regular_to(a, idxs, vmaddr, fileoff, t, n);
            let q = super::layout::regular_to(b, idxs, vmaddr, fileoff, u, n);
            &&& p is Some <==> q is Some
            &&& p is Some ==> {
                &&& p->Some_0.at == q->Some_0.at
                &&& all_alike(p->Some_0.chunks, q->Some_0.chunks)
                &&& p->Some_0.chunks.len() == a.len()
                &&& forall|k: int|
                    0 <= k < n && !a[(#[trigger] idxs[k]) as int].hdr.zerofill()
                        ==> p->Some_0.chunks[idxs[k] as int] == q->Some_0.chunks[idxs[k] as int]
                &&& forall|i: int|
                    0 <= i < a.len() && (a[i].hdr.zerofill() || !is_listed(idxs, i, n))
                        ==> #[trigger] p->Some_0.chunks[i] == a[i] && q->Some_0.chunks[i] == b[i]
            }
        }),
    decreases n,
{
    if n > 0 {
        lemma_regular_same(a, t, b, u, idxs, vmaddr, fileoff, n - 1);
        let i = idxs[n - 1] as int;
        assert(idxs[n - 1] < a.len());
        assert(!is_listed(idxs, i, n - 1)) by {
            if is_listed(idxs, i, n - 1) {
                let k = choose|k: int| 0 <= k < n - 1 && #[trigger] idxs[k] == i;
                assert(idxs[k] != idxs[n - 1]);
            }
        }
        let p = super::layout::regular_to(a, idxs, vmaddr, fileoff, t, n - 1);
        let q = super::layout::regular_to(b, idxs, vmaddr, fileoff, u, n - 1);
        if p is Some {
            assert(alike(a[i], b[i]));
            assert(p->Some_0.chunks[i] == a[i] && q->Some_0.chunks[i] == b[i]);
            let p2 = super::layout::regular_to(a, idxs, vmaddr, fileoff, t, n);
            let q2 = super::layout::regular_to(b, idxs, vmaddr, fileoff, u, n);
            if p2 is Some {
                assert forall|x: int|
                    0 <= x < a.len() && (a[x].hdr.zerofill() || !is_listed(idxs, x, n)) implies
                    #[trigger] p2->Some_0.chunks[x] == a[x] && q2->Some_0.chunks[x] == b[x] by {
                    if is_listed(idxs, x, n - 1) {
                        let k = choose|k: int| 0 <= k < n - 1 && #[trigger] idxs[k] == x;
                        assert(idxs[k] == x);
                        assert(is_listed(idxs, x, n));
                    }
                    assert(p->Some_0.chunks[x] == a[x]);
                    assert(idxs[n - 1] == i);
                }
                assert forall|x: int| 0 <= x < p2->Some_0.chunks.len() implies alike(
                    p2->Some_0.chunks[x],
                    #[trigger] q2->Some_0.chunks[x],
                ) by {
                    assert(alike(p->Some_0.chunks[x], q->Some_0.chunks[x]));
                }
                assert forall|k: int|
                    0 <= k < n && !a[(#[trigger] idxs[k]) as int].hdr.zerofill() implies
                    p2->Some_0.chunks[idxs[k] as int] == q2->Some_0.chunks[idxs[k] as int] by {
                    if k < n - 1 {
                        assert(idxs[k] != idxs[n - 1]);
                    }
                }
            }
        }
    }
}

proof fn lemma_zerofill_same(
    a: Seq<ChunkView>,
    b: Seq<ChunkView>,
    idxs: Seq<usize>,
    start: u64,
    n: int,
)
    requires
        lists_once(idxs, a.len() as int),
        all_alike(a, b),
        forall|k: int|
            0 <= k < idxs.len() && a[(#[trigger] idxs[k]) as int].hdr.zerofill()
                ==> a[idxs[k] as int].hdr.size == b[idxs[k] as int].hdr.size,
        0 <= n <= idxs.len(),
    ensures
        ({
            let p = super::layout::zerofill_to(a, idxs, start, n);
            let q = super::layout::zerofill_to(b, idxs, start, n);
            &&& p is Some <==> q is Some
            &&& p is Some ==> {
                &&& p->Some_0.at == q->Some_0.at
                &&& all_alike(p->Some_0.chunks, q->Some_0.chunks)
                &&& p->Some_0.chunks.len() == a.len()
                &&& forall|k: int|
                    0 <= k < n && a[(#[trigger] idxs[k]) as int].hdr.zerofill()
                        ==> p->Some_0.chunks[idxs[k] as int] == q->Some_0.chunks[idxs[k] as int]
                &&& forall|i: int|
                    0 <= i < a.len() && (!a[i].hdr.zerofill() || !is_listed(idxs, i, n))
                        ==> #[trigger] p->Some_0.chunks[i] == a[i] && q->Some_0.chunks[i] == b[i]
            }
        }),
    decreases n,
{
    if n > 0 {
        lemma_zerofill_same(a, b, idxs, start, n - 1);
        let i = idxs[n - 1] as int;
        assert(idxs[n - 1] < a.len());
        assert(!is_listed(idxs, i, n - 1)) by {
            if is_listed(idxs, i, n - 1) {
                let k = choose|k: int| 0 <= k < n - 1 && #[trigger] idxs[k] == i;
                assert(idxs[k] != idxs[n - 1]);
            }
        }
        let p = super::layout::zerofill_to(a, idxs, start, n - 1);
        let q = super::layout::zerofill_to(b, idxs, start, n - 1);
        if p is Some {
            assert(alike(a[i], b[i]));
            assert(p->Some_0.chunks[i] == a[i] && q->Some_0.chunks[i] == b[i]);
            let p2 = super::layout::zerofill_to(a, idxs, start, n);
            let q2 = super::layout::zerofill_to(b, idxs, start, n);
            if p2 is Some {
                assert forall|x: int|
                    0 <= x < a.len() && (!a[x].hdr.zerofill() || !is_listed(idxs, x, n)) implies
                    #[trigger] p2->Some_0.chunks[x] == a[x] && q2->Some_0.chunks[x] == b[x] by {
                    if is_listed(idxs, x, n - 1) {
                        let k = choose|k: int| 0 <= k < n - 1 && #[trigger] idxs[k] == x;
                        assert(idxs[k] == x);
                        assert(is_listed(idxs, x, n));
                    }
                    assert(p->Some_0.chunks[x] == a[x]);
                    assert(idxs[n - 1] == i);
                }
                assert forall|x: int| 0 <= x < p2->Some_0.chunks.len() implies alike(
                    p2->Some_0.chunks[x],
                    #[trigger] q2->Some_0.chunks[x],
                ) by {
                    assert(alike(p->Some_0.chunks[x], q->Some_0.chunks[x]));
                }
                assert forall|k: int|
                    0 <= k < n && a[(#[trigger] idxs[k]) as int].hdr.zerofill() implies
                    p2->Some_0.chunks[idxs[k] as int] == q2->Some_0.chunks[idxs[k] as int] by {
                    if k < n - 1 {
                        assert(idxs[k] != idxs[n - 1]);
                    }
                }
            }
        }
    }
}

/// True when two images have the same segments but for their places.
pub open spec fn same_segments(p: ImageView, q: ImageView) -> bool {
    &&& p.segments.len() == q.segments.len()
    &&& forall|s: int|
        0 <= s < p.segments.len() ==> (#[trigger] q.segments[s]).name == p.segments[s].name
            && q.segments[s].chunks == p.segments[s].chunks
}

/// True when the first `n` segments and their chunks have the same places.
pub open spec fn same_places(p: ImageView, q: ImageView, n: int) -> bool {
    forall|s: int|
        0 <= s < n && holds_chunks(#[trigger] p.segments[s]) ==> q.segments[s].cmd
            == p.segments[s].cmd && forall|k: int|
            0 <= k < p.segments[s].chunks.len() ==> q.chunks[(
            #[trigger] p.segments[s].chunks[k]) as int]
                == p.chunks[p.segments[s].chunks[k] as int]
}

proof fn lemma_segment_same(
    p: ImageView,
    t: TableSizes,
    q: ImageView,
    u: TableSizes,
    i: int,
    page: u64,
    pagezero: u64,
)
    requires
        segments_once(p),
        same_segments(p, q),
        all_alike(p.chunks, q.chunks),
        p.addr == q.addr,
        p.fileoff == q.fileoff,
        0 <= i < p.segments.len(),
        holds_chunks(p.segments[i]),
        same_sizes(p.chunks, t, q.chunks, u, p.segments[i].chunks),
    ensures
        ({
            let x = super::layout::segment_placed(p, i, t, page, pagezero);
            let y = super::layout::segment_placed(q, i, u, page, pagezero);
            &&& x is Some <==> y is Some
            &&& x is Some ==> {
                let (a, b) = (x->Some_0, y->Some_0);
                &&& a.addr == b.addr
                &&& a.fileoff == b.fileoff
                &&& all_alike(a.chunks, b.chunks)
                &&& a.chunks.len() == p.chunks.len()
                &&& same_segments(a, b)
                &&& b.segments[i].cmd == a.segments[i].cmd
                &&& forall|k: int|
                    0 <= k < p.segments[i].chunks.len() ==> b.chunks[(
                    #[trigger] p.segments[i].chunks[k]) as int]
                        == a.chunks[p.segments[i].chunks[k] as int]
                &&& forall|z: int|
                    0 <= z < p.chunks.len() && !is_listed(
                        p.segments[i].chunks,
                        z,
                        p.segments[i].chunks.len() as int,
                    ) ==> #[trigger] a.chunks[z] == p.chunks[z] && b.chunks[z] == q.chunks[z]
            }
        }),
{
    let s = p.segments[i];
    let n = s.chunks.len() as int;
    assert(q.segments[i].chunks == s.chunks && q.segments[i].name == s.name);
    assert(lists_once(s.chunks, p.chunks.len() as int));
    lemma_regular_same(p.chunks, t, q.chunks, u, s.chunks, p.addr, p.fileoff, n);
    let a = super::layout::regular_to(p.chunks, s.chunks, p.addr, p.fileoff, t, n);
    let b = super::layout::regular_to(q.chunks, s.chunks, p.addr, p.fileoff, u, n);
    if a is Some {
        let (ac, bc) = (a->Some_0.chunks, b->Some_0.chunks);
        assert forall|k: int| 0 <= k < n && ac[(#[trigger] s.chunks[k]) as int].hdr.zerofill() implies
            ac[s.chunks[k] as int].hdr.size == bc[s.chunks[k] as int].hdr.size by {
            lemma_regular(p.chunks, s.chunks, p.addr, p.fileoff, t, n);
            assert(p.chunks[s.chunks[k] as int].hdr.zerofill());
            assert(ac[s.chunks[k] as int] == p.chunks[s.chunks[k] as int]);
        }
        let mid = (p.addr + (a->Some_0.at - p.fileoff) as u64) as u64;
        lemma_zerofill_same(ac, bc, s.chunks, mid, n);
        lemma_regular(p.chunks, s.chunks, p.addr, p.fileoff, t, n);
        let x = super::layout::segment_placed(p, i, t, page, pagezero);
        let y = super::layout::segment_placed(q, i, u, page, pagezero);
        if x is Some {
            let (xa, yb) = (x->Some_0, y->Some_0);
            assert forall|k: int| 0 <= k < n implies yb.chunks[(#[trigger] s.chunks[k]) as int]
                == xa.chunks[s.chunks[k] as int] by {
                let z = s.chunks[k] as int;
                if p.chunks[z].hdr.zerofill() {
                    assert(ac[z].hdr.zerofill());
                } else {
                    assert(xa.chunks[z] == ac[z] && yb.chunks[z] == bc[z]);
                }
            }
            assert forall|z: int|
                0 <= z < p.chunks.len() && !is_listed(s.chunks, z, n) implies
                #[trigger] xa.chunks[z] == p.chunks[z] && yb.chunks[z] == q.chunks[z] by {
                assert(ac[z] == p.chunks[z] && bc[z] == q.chunks[z]);
            }
        }
    }
}

/// The tables of __LINKEDIT do not move the image: while only chunks behind
/// the first `n` segments take more or less room, those segments and their
/// chunks keep their places, also when the image was placed before.
#[verifier::rlimit(40)]
pub proof fn lemma_tables_move_nothing(
    p: ImageView,
    t: TableSizes,
    q: ImageView,
    u: TableSizes,
    page: u64,
    pagezero: u64,
    n: int,
)
    requires
        segments_once(p),
        0 < page,
        same_segments(p, q),
        all_alike(p.chunks, q.chunks),
        p.addr == q.addr,
        p.fileoff == q.fileoff,
        0 <= n <= p.segments.len(),
        forall|s: int|
            0 <= s < n ==> same_sizes(p.chunks, t, q.chunks, u, (#[trigger] p.segments[s]).chunks),
    ensures
        ({
            let x = super::layout::image_to(p, t, page, pagezero, n);
            let y = super::layout::image_to(q, u, page, pagezero, n);
            &&& x is Some <==> y is Some
            &&& x is Some ==> {
                let (a, b) = (x->Some_0, y->Some_0);
                &&& a.addr == b.addr
                &&& a.fileoff == b.fileoff
                &&& same_places(a, b, n)
                &&& all_alike(a.chunks, b.chunks)
                &&& same_segments(a, b)
                &&& same_segments(p, a)
                &&& a.chunks.len() == p.chunks.len()
                &&& forall|z: int|
                    0 <= z < p.chunks.len() && (forall|s: int|
                        0 <= s < n ==> !is_listed(
                            (#[trigger] p.segments[s]).chunks,
                            z,
                            p.segments[s].chunks.len() as int,
                        )) ==> #[trigger] a.chunks[z] == p.chunks[z] && b.chunks[z] == q.chunks[z]
            }
        }),
    decreases n,
{
    if n > 0 {
        lemma_tables_move_nothing(p, t, q, u, page, pagezero, n - 1);
        let x = super::layout::image_to(p, t, page, pagezero, n - 1);
        let y = super::layout::image_to(q, u, page, pagezero, n - 1);
        if x is Some {
            let (a, b) = (x->Some_0, y->Some_0);
            let i = n - 1;
            let list = p.segments[i].chunks;
            assert(a.segments[i].chunks == list);
            if holds_chunks(a.segments[i]) {
                lemma_image(p, t, page, pagezero, n - 1);
                assert(segments_once(a)) by {
                    assert forall|s: int| 0 <= s < a.segments.len() implies lists_once(
                        (#[trigger] a.segments[s]).chunks,
                        a.chunks.len() as int,
                    ) by {
                        assert(lists_once(p.segments[s].chunks, p.chunks.len() as int));
                    }
                    assert forall|c: int, d: int, j: int, k: int|
                        0 <= c < d < a.segments.len() && 0 <= j < a.segments[c].chunks.len() && 0
                            <= k < a.segments[d].chunks.len() implies
                        #[trigger] a.segments[c].chunks[j] != #[trigger] a.segments[d].chunks[k] by {
                        assert(p.segments[c].chunks[j] != p.segments[d].chunks[k]);
                    }
                    assert forall|s: int| 0 < s < a.segments.len() implies holds_chunks(
                        #[trigger] a.segments[s],
                    ) by {
                        assert(holds_chunks(p.segments[s]));
                    }
                }
                assert forall|k: int| 0 <= k < list.len() implies {
                    &&& a.chunks[(#[trigger] list[k]) as int] == p.chunks[list[k] as int]
                    &&& b.chunks[list[k] as int] == q.chunks[list[k] as int]
                } by {
                    let z = list[k] as int;
                    assert(lists_once(list, p.chunks.len() as int));
                    assert forall|s: int| 0 <= s < n - 1 implies !is_listed(
                        (#[trigger] p.segments[s]).chunks,
                        z,
                        p.segments[s].chunks.len() as int,
                    ) by {
                        let l = p.segments[s].chunks;
                        if is_listed(l, z, l.len() as int) {
                            let m = choose|m: int| 0 <= m < l.len() && #[trigger] l[m] == z;
                            assert(p.segments[s].chunks[m] != p.segments[i].chunks[k]);
                        }
                    }
                    assert(a.chunks[z] == p.chunks[z]);
                }
                assert(same_sizes(p.chunks, t, q.chunks, u, p.segments[i].chunks));
                assert(same_sizes(a.chunks, t, b.chunks, u, list));
                lemma_segment_same(a, t, b, u, i, page, pagezero);
                let x2 = super::layout::image_to(p, t, page, pagezero, n);
                let y2 = super::layout::image_to(q, u, page, pagezero, n);
                if x2 is Some {
                    let (a2, b2) = (x2->Some_0, y2->Some_0);
                    assert forall|s: int|
                        0 <= s < n && holds_chunks(#[trigger] a2.segments[s]) implies
                        b2.segments[s].cmd == a2.segments[s].cmd && forall|k: int|
                        0 <= k < a2.segments[s].chunks.len() ==> b2.chunks[(
                        #[trigger] a2.segments[s].chunks[k]) as int]
                            == a2.chunks[a2.segments[s].chunks[k] as int] by {
                        if s < i {
                            let l = a.segments[s].chunks;
                            assert(a2.segments[s] == a.segments[s]);
                            assert(b2.segments[s] == b.segments[s]);
                            assert forall|k: int| 0 <= k < l.len() implies b2.chunks[(
                            #[trigger] l[k]) as int] == a2.chunks[l[k] as int] by {
                                let z = l[k] as int;
                                assert(lists_once(a.segments[s].chunks, a.chunks.len() as int));
                                if is_listed(list, z, list.len() as int) {
                                    let m = choose|m: int|
                                        0 <= m < list.len() && #[trigger] list[m] == z;
                                    assert(a.segments[s].chunks[k] != a.segments[i].chunks[m]);
                                }
                                assert(a2.chunks[z] == a.chunks[z]);
                            }
                        }
                    }
                    assert forall|z: int|
                        0 <= z < p.chunks.len() && (forall|s: int|
                            0 <= s < n ==> !is_listed(
                                (#[trigger] p.segments[s]).chunks,
                                z,
                                p.segments[s].chunks.len() as int,
                            )) implies #[trigger] a2.chunks[z] == p.chunks[z] && b2.chunks[z]
                        == q.chunks[z] by {
                        assert(!is_listed(
                            p.segments[i].chunks,
                            z,
                            p.segments[i].chunks.len() as int,
                        ));
                        assert forall|s: int| 0 <= s < n - 1 implies !is_listed(
                            (#[trigger] p.segments[s]).chunks,
                            z,
                            p.segments[s].chunks.len() as int,
                        ) by {}
                        assert(a.chunks[z] == p.chunks[z] && b.chunks[z] == q.chunks[z]);
                        assert(!is_listed(
                            a.segments[i].chunks,
                            z,
                            a.segments[i].chunks.len() as int,
                        ));
                        assert(a2.chunks[z] == a.chunks[z]);
                    }
                    assert(same_places(a2, b2, n));
                    assert(same_segments(a2, b2));
                    assert(same_segments(p, a2)) by {
                        assert forall|s: int| 0 <= s < p.segments.len() implies
                            (#[trigger] a2.segments[s]).name == p.segments[s].name
                            && a2.segments[s].chunks == p.segments[s].chunks by {
                            assert(a.segments[s].name == p.segments[s].name);
                        }
                    }
                }
            } else {
                assert(i == 0) by {
                    if i > 0 {
                        assert(holds_chunks(p.segments[i]));
                    }
                }
                assert(a == p && b == q);
                assert(q.segments[0].name == p.segments[0].name);
                let x2 = super::layout::image_to(p, t, page, pagezero, n);
                let y2 = super::layout::image_to(q, u, page, pagezero, n);
                assert(x2 == super::layout::segment_placed(a, 0, t, page, pagezero));
                assert(y2 == super::layout::segment_placed(b, 0, u, page, pagezero));
                let (a2, b2) = (x2->Some_0, y2->Some_0);
                assert(!holds_chunks(a2.segments[0]));
                assert(same_segments(a2, b2));
                assert(same_segments(p, a2));
                assert(a2.chunks == p.chunks && b2.chunks == q.chunks);
            }
        }
    }
}

} // verus!
