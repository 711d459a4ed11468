//! Output sections: which subsections they collect, in which order and at
//! which offsets, and how chunks are grouped into segments.
use crate::input_sections::{InputSection, NO_REPLACEMENT};
use crate::inputs::Inputs;
use crate::macho::consts::{SECTION_TYPE, S_ATTR_DEBUG, S_THREAD_LOCAL_VARIABLES};
use crate::macho::{MachSection, SectionView};
use crate::output_chunks::header::{Chunk, ChunkHeader, ChunkKind, ChunkView, HeaderView};
use crate::name_map::{self, NameMap};
use crate::util::{bytes, order};
use vstd::prelude::*;
use vstd::string::*;

verus! {

/// The section flags that reach the output: all of them in a relocatable
/// output, and all but the debug attribute in an image.
pub open spec fn flag_mask(relocatable: bool) -> u32 {
    if relocatable {
        0xffff_ffff
    } else {
        !S_ATTR_DEBUG
    }
}

/// The greater of two numbers.
pub open spec fn larger(a: u32, b: u32) -> u32 {
    if a < b {
        b
    } else {
        a
    }
}

/// An output section with another subsection. Thread-local variable
/// descriptors hold pointers, whatever alignment the input declares.
pub open spec fn with_subsection(
    c: ChunkView,
    hdr: SectionView,
    p2align: u8,
    mask: u32,
    id: int,
) -> ChunkView {
    let p2 = larger(c.hdr.p2align, p2align as u32);
    ChunkView {
        hdr: HeaderView {
            p2align: if c.hdr.flags & SECTION_TYPE == S_THREAD_LOCAL_VARIABLES {
                larger(p2, 3)
            } else {
                p2
            },
            flags: c.hdr.flags | (hdr.flags & !SECTION_TYPE & mask),
            ..c.hdr
        },
        isecs: c.isecs.push(id as u32),
        ..c
    }
}

fn add_subsection(c: &mut Chunk, flags: u32, p2align: u8, mask: u32, id: u32, Ghost(
    hdr,
): Ghost<SectionView>)
    requires
        flags == hdr.flags,
    ensures
        final(c)@ == with_subsection(old(c)@, hdr, p2align, mask, id as int),
{
    let ghost before = c@;
    if c.hdr.p2align < p2align as u32 {
        c.hdr.p2align = p2align as u32;
    }
    if c.hdr.flags & SECTION_TYPE == S_THREAD_LOCAL_VARIABLES && c.hdr.p2align < 3 {
        c.hdr.p2align = 3;
    }
    c.hdr.flags = c.hdr.flags | (flags & !SECTION_TYPE & mask);
    c.isecs.push(id);
    assert(c@ =~= with_subsection(before, hdr, p2align, mask, id as int));
}

/// A new output section for a subsection with the given header.
pub open spec fn new_section(hdr: SectionView, mask: u32) -> ChunkView {
    crate::output_chunks::header::new_chunk(
        HeaderView {
            flags: hdr.flags & mask,
            ..crate::output_chunks::header::new_header(hdr.segname, hdr.sectname)
        },
        ChunkKind::Output,
    )
}

/// The chunks, and the output section of each of the first subsections.
#[verifier::ext_equal]
pub struct Assigned {
    pub chunks: Seq<ChunkView>,
    /// The chunk of each subsection, or the length of no list if it is in
    /// none.
    pub osecs: Seq<Option<u32>>,
    /// The output section that was made for the names of a record, by the
    /// fields that hold them.
    pub named: Map<Seq<u8>, u32>,
}

/// True for a subsection that has a place of its own in the output.
pub open spec fn is_kept(s: InputSection) -> bool {
    s.is_alive && s.replacement == NO_REPLACEMENT
}

/// One more subsection assigned: to the output section of its names, which
/// is made if there is none.
pub open spec fn assign_one(x: Inputs, mask: u32, a: Assigned, i: int) -> Assigned {
    let s = x.isecs[i];
    if !is_kept(s) {
        Assigned { osecs: a.osecs.push(None), ..a }
    } else {
        let hdr = x.header(s);
        let (chunks, at) = if a.named.contains_key(hdr.raw) {
            (a.chunks, a.named[hdr.raw])
        } else {
            (a.chunks.push(new_section(hdr, mask)), a.chunks.len() as u32)
        };
        Assigned {
            chunks: chunks.update(
                at as int,
                with_subsection(chunks[at as int], hdr, s.p2align, mask, i),
            ),
            osecs: a.osecs.push(Some(at)),
            named: a.named.insert(hdr.raw, at),
        }
    }
}

/// The first `n` subsections assigned to output sections, in order of first
/// encounter.
pub open spec fn assigned_to(
    x: Inputs,
    mask: u32,
    start: Seq<ChunkView>,
    n: int,
) -> Assigned
    decreases n,
{
    if n <= 0 {
        Assigned { chunks: start, osecs: Seq::empty(), named: Map::empty() }
    } else {
        assign_one(x, mask, assigned_to(x, mask, start, n - 1), n - 1)
    }
}

/// Assigns each subsection to an output section.
pub fn assign_sections(x: &Inputs, mask: u32, chunks: &mut Vec<Chunk>) -> (osecs: Vec<
    Option<u32>,
>)
    requires
        x.wf(),
        old(chunks).len() + x.isecs.len() <= u32::MAX,
    ensures
        ({
            let a = assigned_to(
                *x,
                mask,
                crate::output_chunks::header::chunk_views(old(chunks)@),
                x.isecs.len() as int,
            );
            &&& crate::output_chunks::header::chunk_views(final(chunks)@) == a.chunks
            &&& osecs@ == a.osecs
        }),
        forall|i: int|
            0 <= i < osecs.len() ==> (#[trigger] osecs[i] matches Some(c) ==> c < final(chunks).len()),
        osecs.len() == x.isecs.len(),
        final(chunks).len() <= old(chunks).len() + x.isecs.len(),
        lists_ok(old(chunks)@, x.isecs.len() as int) ==> lists_ok(
            final(chunks)@,
            x.isecs.len() as int,
        ),
{
    let ghost first_chunks = chunks@;
    let ghost start = crate::output_chunks::header::chunk_views(chunks@);
    let first: usize = chunks.len();
    let mut osecs: Vec<Option<u32>> = Vec::new();
    let mut named: NameMap = NameMap::new();
    let mut i: usize = 0;
    assert(osecs@ =~= Seq::empty());
    assert(name_map::entries(named) =~= Map::empty());
    while i < x.isecs.len()
        invariant
            x.wf(),
            i <= x.isecs.len(),
            first + x.isecs.len() <= u32::MAX,
            first <= chunks.len() <= first + i,
            osecs.len() == i,
            crate::output_chunks::header::chunk_views(chunks@) == assigned_to(
                *x,
                mask,
                start,
                i as int,
            ).chunks,
            osecs@ == assigned_to(*x, mask, start, i as int).osecs,
            name_map::entries(named) == assigned_to(*x, mask, start, i as int).named,
            forall|raw: Seq<u8>| #[trigger]
                name_map::entries(named).contains_key(raw) ==> name_map::entries(named)[raw]
                    < chunks.len(),
            forall|i: int|
                0 <= i < osecs.len() ==> (#[trigger] osecs[i] matches Some(c) ==> c
                    < chunks.len()),
            lists_ok(first_chunks, x.isecs.len() as int) ==> lists_ok(
                chunks@,
                x.isecs.len() as int,
            ),
        decreases x.isecs.len() - i,
    {
        let ghost loop_chunks = chunks@;
        let ghost a = assigned_to(*x, mask, start, i as int);
        if !x.isecs[i].is_alive || x.isecs[i].replacement != NO_REPLACEMENT {
            osecs.push(None);
        } else {
            let hdr: &MachSection = x.hdr_of(i);
            let at: usize = match named.get(hdr.raw.as_slice()) {
                Some(at) => at as usize,
                None => {
                    let mut h = ChunkHeader::new(
                        hdr.segname.as_slice(),
                        hdr.sectname.as_slice(),
                    );
                    h.flags = hdr.flags & mask;
                    let c = Chunk::new(h, ChunkKind::Output);
                    assert(c@ == new_section(hdr@, mask));
                    chunks.push(c);
                    assert(crate::output_chunks::header::chunk_views(chunks@)
                        =~= a.chunks.push(new_section(hdr@, mask)));
                    chunks.len() - 1
                },
            };
            named.insert(bytes::to_vec(hdr.raw.as_slice()), at as u32);
            let ghost now = crate::output_chunks::header::chunk_views(chunks@);
            assert(now[at as int] == chunks[at as int]@);
            let p2: u8 = x.isecs[i].p2align;
            let ghost mid_chunks = chunks@;
            add_subsection(&mut chunks[at], hdr.flags, p2, mask, i as u32, Ghost(hdr@));
            proof {
                assert(crate::output_chunks::header::chunk_views(chunks@) =~= now.update(
                    at as int,
                    with_subsection(now[at as int], hdr@, p2, mask, i as int),
                ));
                if lists_ok(first_chunks, x.isecs.len() as int) {
                    assert forall|c: int, k: int|
                        0 <= c < chunks.len() && 0 <= k < chunks[c].isecs.len() implies (
                    #[trigger] chunks[c].isecs[k]) < x.isecs.len() by {
                        if c == at {
                            assert(chunks[c].isecs@ == chunks[c]@.isecs);
                            assert(chunks[c].isecs@ == now[c].isecs.push(i as u32));
                            assert(now[c].isecs == mid_chunks[c].isecs@);
                        }
                        if c < loop_chunks.len() && k < loop_chunks[c].isecs.len() {
                            assert(loop_chunks[c].isecs[k] < x.isecs.len());
                        }
                    }
                }
            }
            osecs.push(Some(at as u32));
        }
        i += 1;
    }
    osecs
}

/// A chunk whose alignment is raised if it has the given names.
pub open spec fn realigned(
    c: ChunkView,
    segname: Seq<u8>,
    sectname: Seq<u8>,
    p2align: u8,
) -> ChunkView {
    if c.hdr.is_named(segname, sectname) {
        ChunkView {
            hdr: HeaderView { p2align: larger(c.hdr.p2align, p2align as u32), ..c.hdr },
            ..c
        }
    } else {
        c
    }
}

/// The chunks after the first `n` requests for a stronger alignment.
pub open spec fn sectaligned(
    chunks: Seq<ChunkView>,
    requests: Seq<(Seq<u8>, Seq<u8>, u8)>,
    n: int,
) -> Seq<ChunkView>
    decreases n,
{
    if n <= 0 {
        chunks
    } else {
        let r = requests[n - 1];
        sectaligned(chunks, requests, n - 1).map_values(
            |c: ChunkView| realigned(c, r.0, r.1, r.2),
        )
    }
}

/// What requests for an alignment say.
pub open spec fn align_views(v: Seq<(Vec<u8>, Vec<u8>, u8)>) -> Seq<(Seq<u8>, Seq<u8>, u8)> {
    v.map_values(|r: (Vec<u8>, Vec<u8>, u8)| (r.0@, r.1@, r.2))
}

fn raise_alignment(c: &mut Chunk, segname: &[u8], sectname: &[u8], p2align: u8)
    ensures
        final(c)@ == realigned(old(c)@, segname@, sectname@, p2align),
        final(c).isecs == old(c).isecs,
{
    if c.hdr.has_names(segname, sectname) && c.hdr.p2align < p2align as u32 {
        c.hdr.p2align = p2align as u32;
    }
}

/// -sectalign: raises the alignment of output sections.
pub fn apply_sectalign(chunks: &mut Vec<Chunk>, requests: &Vec<(Vec<u8>, Vec<u8>, u8)>)
    ensures
        crate::output_chunks::header::chunk_views(final(chunks)@) == sectaligned(
            crate::output_chunks::header::chunk_views(old(chunks)@),
            align_views(requests@),
            requests.len() as int,
        ),
        final(chunks).len() == old(chunks).len(),
        forall|n: int| lists_ok(old(chunks)@, n) ==> lists_ok(final(chunks)@, n),
{
    let ghost first_chunks = chunks@;
    let ghost start = crate::output_chunks::header::chunk_views(chunks@);
    let ghost rv = align_views(requests@);
    let ghost len = chunks.len();
    let mut n: usize = 0;
    while n < requests.len()
        invariant
            n <= requests.len(),
            chunks.len() == len,
            rv == align_views(requests@),
            first_chunks.len() == len,
            forall|k: int| 0 <= k < len ==> (#[trigger] chunks[k]).isecs == first_chunks[k].isecs,
            crate::output_chunks::header::chunk_views(chunks@) == sectaligned(
                start,
                rv,
                n as int,
            ),
        decreases requests.len() - n,
    {
        let r: &(Vec<u8>, Vec<u8>, u8) = &requests[n];
        assert(rv[n as int] == (r.0@, r.1@, r.2));
        let ghost before = crate::output_chunks::header::chunk_views(chunks@);
        let mut i: usize = 0;
        while i < chunks.len()
            invariant
                i <= chunks.len(),
                chunks.len() == len,
                before.len() == len,
                forall|k: int|
                    0 <= k < i ==> (#[trigger] chunks[k])@ == realigned(
                        before[k],
                        r.0@,
                        r.1@,
                        r.2,
                    ),
                forall|k: int| i <= k < len ==> (#[trigger] chunks[k])@ == before[k],
                first_chunks.len() == len,
                forall|k: int|
                    0 <= k < len ==> (#[trigger] chunks[k]).isecs == first_chunks[k].isecs,
            decreases chunks.len() - i,
        {
            raise_alignment(&mut chunks[i], r.0.as_slice(), r.1.as_slice(), r.2);
            i += 1;
        }
        n += 1;
        assert(crate::output_chunks::header::chunk_views(chunks@) =~= sectaligned(
            start,
            rv,
            n as int,
        ));
    }
    proof {
        assert forall|n: int| lists_ok(first_chunks, n) implies lists_ok(chunks@, n) by {
            assert forall|c: int, k: int|
                0 <= c < chunks@.len() && 0 <= k < chunks@[c].isecs.len() implies (
            #[trigger] chunks@[c].isecs[k]) < n by {
                assert(first_chunks[c].isecs[k] < n);
            }
        }
    }
}

/// The subsections of a list in stable order of their ranks.
pub open spec fn by_rank(ids: Seq<u32>, ranks: Seq<u64>) -> Seq<u32> {
    let keys = ids.map_values(|id: u32| ranks[id as int]);
    order::stable_order_of(keys).map_values(|k: usize| ids[k as int])
}

fn sort_by_rank(ids: &Vec<u32>, ranks: &Vec<u64>) -> (r: Vec<u32>)
    requires
        forall|i: int| 0 <= i < ids.len() ==> (#[trigger] ids[i]) < ranks.len(),
    ensures
        r@ == by_rank(ids@, ranks@),
        r.len() == ids.len(),
        forall|i: int| 0 <= i < r.len() ==> (#[trigger] r[i]) < ranks.len(),
{
    let ghost kv = ids@.map_values(|id: u32| ranks@[id as int]);
    let mut keys: Vec<u64> = Vec::new();
    while keys.len() < ids.len()
        invariant
            keys.len() <= ids.len(),
            forall|i: int| 0 <= i < ids.len() ==> (#[trigger] ids[i]) < ranks.len(),
            kv == ids@.map_values(|id: u32| ranks@[id as int]),
            keys@ =~= kv.take(keys.len() as int),
        decreases ids.len() - keys.len(),
    {
        let id: u32 = ids[keys.len()];
        keys.push(ranks[id as usize]);
    }
    assert(keys@ =~= kv);
    let at: Vec<usize> = order::stable_order(keys.as_slice());
    let mut r: Vec<u32> = Vec::new();
    while r.len() < at.len()
        invariant
            r.len() <= at.len(),
            at.len() == ids.len(),
            at@ == order::stable_order_of(kv),
            kv == ids@.map_values(|id: u32| ranks@[id as int]),
            forall|i: int| 0 <= i < at.len() ==> (#[trigger] at[i]) < ids.len(),
            forall|i: int| 0 <= i < ids.len() ==> (#[trigger] ids[i]) < ranks.len(),
            r@ =~= by_rank(ids@, ranks@).take(r.len() as int),
            forall|i: int| 0 <= i < r.len() ==> (#[trigger] r[i]) < ranks.len(),
        decreases at.len() - r.len(),
    {
        let k: usize = at[r.len()];
        r.push(ids[k]);
    }
    assert(r@ =~= by_rank(ids@, ranks@));
    r
}

/// Chunks with the subsections of each output section in order of their
/// ranks.
pub open spec fn ranked(chunks: Seq<ChunkView>, ranks: Seq<u64>) -> Seq<ChunkView> {
    chunks.map_values(
        |c: ChunkView|
            if c.kind == ChunkKind::Output {
                ChunkView { isecs: by_rank(c.isecs, ranks), ..c }
            } else {
                c
            },
    )
}

/// True when chunks list existing subsections.
pub open spec fn lists_ok(chunks: Seq<Chunk>, n: int) -> bool {
    forall|c: int, k: int|
        0 <= c < chunks.len() && 0 <= k < chunks[c].isecs.len() ==> (
        #[trigger] chunks[c].isecs[k]) < n
}

/// -order_file: moves the subsections that it names to the front of their
/// output sections; the others keep their order behind them.
pub fn apply_ranks(chunks: &mut Vec<Chunk>, ranks: &Vec<u64>)
    requires
        lists_ok(old(chunks)@, ranks.len() as int),
    ensures
        crate::output_chunks::header::chunk_views(final(chunks)@) == ranked(
            crate::output_chunks::header::chunk_views(old(chunks)@),
            ranks@,
        ),
        lists_ok(final(chunks)@, ranks.len() as int),
        final(chunks).len() == old(chunks).len(),
{
    let ghost start = chunks@;
    let ghost sv = crate::output_chunks::header::chunk_views(start);
    let ghost goal = ranked(sv, ranks@);
    let mut i: usize = 0;
    while i < chunks.len()
        invariant
            i <= chunks.len(),
            chunks.len() == start.len(),
            sv == crate::output_chunks::header::chunk_views(start),
            goal == ranked(sv, ranks@),
            lists_ok(start, ranks.len() as int),
            lists_ok(chunks@, ranks.len() as int),
            forall|k: int| 0 <= k < i ==> (#[trigger] chunks[k])@ == goal[k],
            forall|k: int| i <= k < chunks.len() ==> #[trigger] chunks[k] == start[k],
        decreases chunks.len() - i,
    {
        if chunks[i].kind == ChunkKind::Output {
            proof {
                assert forall|k: int| 0 <= k < chunks[i as int].isecs.len() implies (
                #[trigger] chunks[i as int].isecs[k]) < ranks.len() by {}
            }
            let sorted: Vec<u32> = sort_by_rank(&chunks[i].isecs, ranks);
            let ghost before = chunks@;
            chunks[i].isecs = sorted;
            proof {
                assert forall|c: int, k: int|
                    0 <= c < chunks.len() && 0 <= k < chunks[c].isecs.len() implies (
                #[trigger] chunks[c].isecs[k]) < ranks.len() by {
                    if c == i {
                        assert(sorted[k] < ranks.len());
                    } else {
                        assert(before[c].isecs[k] < ranks.len());
                    }
                }
            }
        }
        assert(sv[i as int] == start[i as int]@);
        i += 1;
    }
    assert(crate::output_chunks::header::chunk_views(chunks@) =~= goal);
}

/// True when the `k`th subsection of an output section is one of the first
/// `n`, has a place of its own in the output, and is assigned to that
/// section, which was made for the fields of its section's names and has the
/// names of its first subsection.
pub open spec fn member_ok(x: Inputs, a: Assigned, n: int, c: int, k: int) -> bool {
    let id = a.chunks[c].isecs[k] as int;
    &&& id < n
    &&& is_kept(x.isecs[id])
    &&& a.osecs[id] == Some(c as u32)
    &&& a.named.contains_key(x.header(x.isecs[id]).raw)
    &&& a.named[x.header(x.isecs[id]).raw] == c
    &&& a.chunks[c].hdr.segname == x.header(x.isecs[a.chunks[c].isecs[0] as int]).segname
    &&& a.chunks[c].hdr.sectname == x.header(x.isecs[a.chunks[c].isecs[0] as int]).sectname
}

/// True when different fields of names lead to different output sections
/// behind the first ones, none of which is empty.
pub open spec fn named_ok(a: Assigned, first: int) -> bool {
    &&& forall|raw: Seq<u8>| #[trigger]
        a.named.contains_key(raw) ==> first <= a.named[raw] < a.chunks.len()
            && a.chunks[a.named[raw] as int].isecs.len() > 0
    &&& forall|r: Seq<u8>, t: Seq<u8>|
        #![trigger a.named.contains_key(r), a.named.contains_key(t)]
        a.named.contains_key(r) && a.named.contains_key(t) && a.named[r] == a.named[t] ==> r == t
}

/// Only live subsections reach the output, each in the output section of
/// its names, and in input order. One that was merged with another has no
/// place of its own.
pub proof fn lemma_assigned(x: Inputs, mask: u32, start: Seq<ChunkView>, n: int)
    requires
        0 <= n <= x.isecs.len(),
        start.len() + n < u32::MAX,
        forall|c: int| 0 <= c < start.len() ==> (#[trigger] start[c]).isecs.len() == 0,
    ensures
        ({
            let a = assigned_to(x, mask, start, n);
            &&& start.len() <= a.chunks.len() <= start.len() + n
            &&& a.osecs.len() == n
            &&& forall|c: int, k: int|
                0 <= c < a.chunks.len() && 0 <= k < a.chunks[c].isecs.len() ==> {
                    &&& (#[trigger] a.chunks[c].isecs[k]) < n
                    &&& member_ok(x, a, n, c, k)
                }
            &&& forall|c: int, j: int, k: int|
                0 <= c < a.chunks.len() && 0 <= j < k < a.chunks[c].isecs.len()
                    ==> #[trigger] a.chunks[c].isecs[j] < #[trigger] a.chunks[c].isecs[k]
            &&& forall|i: int|
                0 <= i < n ==> {
                    &&& (#[trigger] a.osecs[i]) is Some <==> is_kept(x.isecs[i])
                    &&& a.osecs[i] matches Some(c) ==> c < a.chunks.len()
                        && a.chunks[c as int].isecs.contains(i as u32)
                }
            &&& named_ok(a, start.len() as int)
        }),
    decreases n,
{
    if n > 0 {
        lemma_assigned(x, mask, start, n - 1);
        let p = assigned_to(x, mask, start, n - 1);
        let a = assigned_to(x, mask, start, n);
        let i = n - 1;
        let s = x.isecs[i];
        if is_kept(s) {
            let hdr = x.header(s);
            let (chunks, at) = if p.named.contains_key(hdr.raw) {
                (p.chunks, p.named[hdr.raw] as int)
            } else {
                (p.chunks.push(new_section(hdr, mask)), p.chunks.len() as int)
            };
            assert(a.chunks == chunks.update(
                at,
                with_subsection(chunks[at], hdr, s.p2align, mask, i),
            ));
            assert(a.chunks[at].isecs == chunks[at].isecs.push(i as u32));
            assert forall|c: int, k: int|
                0 <= c < a.chunks.len() && 0 <= k < a.chunks[c].isecs.len() implies {
                &&& (#[trigger] a.chunks[c].isecs[k]) < n
                &&& member_ok(x, a, n, c, k)
            } by {
                if !(c == at && k == a.chunks[c].isecs.len() - 1) {
                    assert(c < p.chunks.len());
                    assert(a.chunks[c].isecs[k] == p.chunks[c].isecs[k]);
                    assert(a.chunks[c].isecs[0] == p.chunks[c].isecs[0]);
                    assert(member_ok(x, p, n - 1, c, k));
                } else if p.named.contains_key(hdr.raw) {
                    assert(p.chunks[at].isecs.len() > 0);
                    assert(a.chunks[at].isecs[0] == p.chunks[at].isecs[0]);
                    assert(member_ok(x, p, n - 1, at, 0));
                }
            }
            assert forall|c: int, j: int, k: int|
                0 <= c < a.chunks.len() && 0 <= j < k < a.chunks[c].isecs.len() implies
                #[trigger] a.chunks[c].isecs[j] < #[trigger] a.chunks[c].isecs[k] by {
                assert(c < p.chunks.len());
                assert(a.chunks[c].isecs[j] == p.chunks[c].isecs[j]);
                assert(member_ok(x, p, n - 1, c, j));
                if !(c == at && k == a.chunks[c].isecs.len() - 1) {
                    assert(p.chunks[c].isecs[j] < p.chunks[c].isecs[k]);
                }
            }
            assert forall|m: int| 0 <= m < n implies {
                &&& (#[trigger] a.osecs[m]) is Some <==> is_kept(x.isecs[m])
                &&& a.osecs[m] matches Some(c) ==> c < a.chunks.len()
                    && a.chunks[c as int].isecs.contains(m as u32)
            } by {
                if m < i {
                    assert(a.osecs[m] == p.osecs[m]);
                    if let Some(c) = p.osecs[m] {
                        let l = p.chunks[c as int].isecs;
                        let k = choose|k: int| 0 <= k < l.len() && l[k] == m as u32;
                        assert(a.chunks[c as int].isecs[k] == m as u32);
                    }
                } else {
                    assert(a.chunks[at].isecs[chunks[at].isecs.len() as int] == i as u32);
                }
            }
        } else {
            assert forall|c: int, k: int|
                0 <= c < a.chunks.len() && 0 <= k < a.chunks[c].isecs.len() implies {
                &&& (#[trigger] a.chunks[c].isecs[k]) < n
                &&& member_ok(x, a, n, c, k)
            } by {
                assert(member_ok(x, p, n - 1, c, k));
            }
            assert forall|m: int| 0 <= m < n implies {
                &&& (#[trigger] a.osecs[m]) is Some <==> is_kept(x.isecs[m])
                &&& a.osecs[m] matches Some(c) ==> c < a.chunks.len()
                    && a.chunks[c as int].isecs.contains(m as u32)
            } by {
                if m < i {
                    assert(a.osecs[m] == p.osecs[m]);
                }
            }
        }
    }
}

} // verus!
