//! The offsets of subsections within their output sections.
use crate::arch::Arch;
use crate::input_sections::InputSection;
use crate::inputs::Inputs;
use crate::macho::consts::{S_ATTR_PURE_INSTRUCTIONS, S_ATTR_SOME_INSTRUCTIONS};
use crate::output_chunks::header::{Chunk, ChunkKind, ChunkView, HeaderView, Thunk};
use crate::thunks::{self, plan_thunks, Plan};
use crate::util::{self, find_place};
use vstd::prelude::*;

verus! {

/// The places of subsections, and the end of what is placed.
#[verifier::ext_equal]
pub struct Run {
    pub offs: Seq<u64>,
    pub end: u64,
}

/// The first `n` listed subsections placed one behind the other. `None` if
/// they do not fit in the address space.
pub open spec fn run_to(x: Inputs, ids: Seq<u32>, offs: Seq<u64>, n: int) -> Option<Run>
    decreases n,
{
    if n <= 0 {
        Some(Run { offs, end: 0 })
    } else {
        match run_to(x, ids, offs, n - 1) {
            None => None,
            Some(r) => {
                let id = ids[n - 1] as int;
                match util::place_at(r.end, x.isecs[id].p2align) {
                    None => None,
                    Some(at) => if at + x.isecs[id].size > u64::MAX {
                        None
                    } else {
                        Some(
                            Run {
                                offs: r.offs.update(id, at % 0x1_0000_0000),
                                end: (at + x.isecs[id].size) as u64,
                            },
                        )
                    },
                }
            },
        }
    }
}

proof fn lemma_run_none(x: Inputs, ids: Seq<u32>, offs: Seq<u64>, a: int, b: int)
    requires
        a <= b,
        run_to(x, ids, offs, a) is None,
    ensures
        run_to(x, ids, offs, b) is None,
    decreases b - a,
{
    if a < b && b > 0 {
        lemma_run_none(x, ids, offs, a, b - 1);
    }
}

/// Places subsections one behind the other. Returns the end.
fn place_run(x: &Inputs, ids: &Vec<u32>, offs: &mut Vec<u64>) -> (r: Option<u64>)
    requires
        old(offs).len() == x.isecs.len(),
        forall|i: int| 0 <= i < ids.len() ==> (#[trigger] ids[i]) < x.isecs.len(),
    ensures
        match r {
            Some(end) => run_to(*x, ids@, old(offs)@, ids.len() as int) == Some(
                (Run { offs: final(offs)@, end }),
            ),
            None => run_to(*x, ids@, old(offs)@, ids.len() as int) is None,
        },
        final(offs).len() == old(offs).len(),
{
    let ghost start = offs@;
    let mut end: u64 = 0;
    let mut n: usize = 0;
    while n < ids.len()
        invariant
            n <= ids.len(),
            offs.len() == x.isecs.len(),
            start == old(offs)@,
            start.len() == x.isecs.len(),
            forall|i: int| 0 <= i < ids.len() ==> (#[trigger] ids[i]) < x.isecs.len(),
            run_to(*x, ids@, start, n as int) == Some((Run { offs: offs@, end })),
        decreases ids.len() - n,
    {
        let id: usize = ids[n] as usize;
        let s: &InputSection = &x.isecs[id];
        match find_place(end, s.p2align) {
            Some(at) => {
                if s.size > u64::MAX - at {
                    proof {
                        lemma_run_none(*x, ids@, start, n + 1, ids.len() as int);
                    }
                    return None;
                }
                offs.set(id, at % 0x1_0000_0000);
                end = at + s.size;
            },
            None => {
                proof {
                    lemma_run_none(*x, ids@, start, n + 1, ids.len() as int);
                }
                return None;
            },
        }
        n += 1;
    }
    Some(end)
}

/// True for an output section that holds code.
pub open spec fn is_exec(c: ChunkView) -> bool {
    c.kind == ChunkKind::Output && c.hdr.flags & (S_ATTR_PURE_INSTRUCTIONS
        | S_ATTR_SOME_INSTRUCTIONS) != 0
}

fn holds_code(c: &Chunk) -> (r: bool)
    ensures
        r == is_exec(c@),
{
    c.kind == ChunkKind::Output && c.hdr.flags & (S_ATTR_PURE_INSTRUCTIONS
        | S_ATTR_SOME_INSTRUCTIONS) != 0
}

/// The sizes of all code in the first `n` chunks, with padding.
pub open spec fn code_size(x: Inputs, chunks: Seq<ChunkView>, n: int) -> int
    decreases n,
{
    if n <= 0 {
        0
    } else {
        code_size(x, chunks, n - 1) + if is_exec(chunks[n - 1]) {
            thunks::padded_sizes(x, chunks[n - 1].isecs, chunks[n - 1].isecs.len() as int)
        } else {
            0
        }
    }
}

/// True when a branch between executable sections can be out of range: all
/// of them share one address space, so their combined size decides.
pub open spec fn needs_thunks<E: Arch>(x: Inputs, chunks: Seq<ChunkView>) -> bool {
    code_size(x, chunks, chunks.len() as int) > E::info().branch_range / 2 - 67_108_864
}

/// Decides whether the sizes of listed subsections, added to `base`, exceed
/// a limit.
fn sum_sizes(x: &Inputs, ids: &Vec<u32>, base: u64, limit: u64) -> (r: Option<u64>)
    requires
        base <= limit < 0x1_0000_0000,
        forall|i: int| 0 <= i < ids.len() ==> (#[trigger] ids[i]) < x.isecs.len(),
    ensures
        match r {
            Some(v) => v == base + thunks::padded_sizes(*x, ids@, ids.len() as int) && v <= limit,
            None => base + thunks::padded_sizes(*x, ids@, ids.len() as int) > limit,
        },
{
    let mut sum: u64 = base;
    let mut i: usize = 0;
    while i < ids.len()
        invariant
            i <= ids.len(),
            sum <= limit,
            limit < 0x1_0000_0000,
            forall|i: int| 0 <= i < ids.len() ==> (#[trigger] ids[i]) < x.isecs.len(),
            sum == base + thunks::padded_sizes(*x, ids@, i as int),
        decreases ids.len() - i,
    {
        let size: u64 = x.isecs[ids[i] as usize].size;
        if size > limit || sum + size + 16 > limit {
            proof {
                thunks::lemma_sizes_grow(*x, ids@, i + 1, ids.len() as int);
            }
            return None;
        }
        sum = sum + size + 16;
        i += 1;
    }
    Some(sum)
}

proof fn lemma_code_size(x: Inputs, chunks: Seq<ChunkView>, a: int, b: int)
    requires
        0 <= a <= b,
    ensures
        code_size(x, chunks, a) <= code_size(x, chunks, b),
    decreases b,
{
    if a < b {
        lemma_code_size(x, chunks, a, b - 1);
        thunks::lemma_sizes_grow(
            x,
            chunks[b - 1].isecs,
            0,
            chunks[b - 1].isecs.len() as int,
        );
    }
}

fn want_thunks<E: Arch>(x: &Inputs, chunks: &Vec<Chunk>) -> (r: bool)
    requires
        super::sections::lists_ok(chunks@, x.isecs.len() as int),
    ensures
        r == needs_thunks::<E>(*x, crate::output_chunks::header::chunk_views(chunks@)),
{
    let ghost cv = crate::output_chunks::header::chunk_views(chunks@);
    let info = E::get_info();
    let limit: u64 = info.branch_range / 2 - 67_108_864;
    let mut sum: u64 = 0;
    let mut i: usize = 0;
    while i < chunks.len()
        invariant
            i <= chunks.len(),
            cv == crate::output_chunks::header::chunk_views(chunks@),
            super::sections::lists_ok(chunks@, x.isecs.len() as int),
            limit == E::info().branch_range / 2 - 67_108_864,
            limit < 0x1_0000_0000,
            sum <= limit,
            sum == code_size(*x, cv, i as int),
        decreases chunks.len() - i,
    {
        let c: &Chunk = &chunks[i];
        assert(cv[i as int] == c@);
        if holds_code(c) {
            proof {
                assert forall|k: int| 0 <= k < c.isecs.len() implies (#[trigger] c.isecs[k])
                    < x.isecs.len() by {
                    assert(chunks[i as int].isecs[k] < x.isecs.len());
                }
            }
            match sum_sizes(x, &c.isecs, sum, limit) {
                Some(v) => {
                    sum = v;
                },
                None => {
                    proof {
                        lemma_code_size(*x, cv, i + 1, chunks.len() as int);
                    }
                    return true;
                },
            }
        }
        i += 1;
    }
    false
}

/// Chunks, places of subsections and thunk entries.
#[verifier::ext_equal]
pub struct Placing {
    pub chunks: Seq<ChunkView>,
    pub offs: Seq<u64>,
    pub entries: Seq<(u32, usize, u32)>,
}

/// A chunk with its size set.
pub open spec fn sized(c: ChunkView, size: u64) -> ChunkView {
    ChunkView { hdr: HeaderView { size, ..c.hdr }, ..c }
}

/// One output section placed as a plain run.
pub open spec fn place_plain(x: Inputs, p: Placing, c: int) -> Option<Placing> {
    let ids = p.chunks[c].isecs;
    match run_to(x, ids, p.offs, ids.len() as int) {
        None => None,
        Some(r) => Some(
            Placing {
                chunks: p.chunks.update(c, sized(p.chunks[c], r.end)),
                offs: r.offs,
                entries: p.entries,
            },
        ),
    }
}

/// The end of the last thunk.
pub open spec fn last_thunk_end<E: Arch>(p: thunks::PlanView) -> int {
    if p.thunks.len() == 0 {
        0
    } else {
        p.thunks.last().offset + p.thunks.last().syms.len() * E::info().thunk_size
    }
}

/// The end of the last subsection.
pub open spec fn last_isec_end(x: Inputs, ids: Seq<u32>, offs: Seq<u64>) -> int {
    if ids.len() == 0 {
        0
    } else {
        offs[ids.last() as int] + x.isecs[ids.last() as int].size
    }
}

/// One output section placed with thunks.
pub open spec fn place_thunked<E: Arch>(
    x: Inputs,
    osecs: Seq<u32>,
    p: Placing,
    c: int,
) -> Option<Placing> {
    let ids = p.chunks[c].isecs;
    match thunks::thunk_plan::<E>(x, osecs, p.offs, ids) {
        None => None,
        Some(t) => {
            let a = last_thunk_end::<E>(t);
            let b = last_isec_end(x, ids, t.offs);
            let size = if a < b {
                b
            } else {
                a
            };
            if size > u64::MAX {
                None
            } else {
                Some(
                    Placing {
                        chunks: p.chunks.update(
                            c,
                            ChunkView {
                                thunks: t.thunks,
                                ..sized(p.chunks[c], size as u64)
                            },
                        ),
                        offs: t.offs,
                        entries: p.entries + t.entries,
                    },
                )
            }
        },
    }
}

/// The first `n` chunks placed: the plain output sections, or those with
/// thunks.
pub open spec fn placed_to<E: Arch>(
    x: Inputs,
    osecs: Seq<u32>,
    need: bool,
    thunked: bool,
    start: Placing,
    n: int,
) -> Option<Placing>
    decreases n,
{
    if n <= 0 {
        Some(start)
    } else {
        match placed_to::<E>(x, osecs, need, thunked, start, n - 1) {
            None => None,
            Some(p) => {
                let c = p.chunks[n - 1];
                if c.kind != ChunkKind::Output || (is_exec(c) && need) != thunked {
                    Some(p)
                } else if thunked {
                    place_thunked::<E>(x, osecs, p, n - 1)
                } else {
                    place_plain(x, p, n - 1)
                }
            },
        }
    }
}

/// The places of all subsections: plain sections first, then those that need
/// thunks. `None` if they do not fit in the address space.
pub open spec fn all_placed<E: Arch>(
    x: Inputs,
    osecs: Seq<u32>,
    chunks: Seq<ChunkView>,
    offs: Seq<u64>,
) -> Option<Placing> {
    let need = needs_thunks::<E>(x, chunks);
    let n = chunks.len() as int;
    match placed_to::<E>(
        x,
        osecs,
        need,
        false,
        Placing { chunks, offs, entries: Seq::empty() },
        n,
    ) {
        None => None,
        Some(p) => placed_to::<E>(x, osecs, need, true, p, n),
    }
}

proof fn lemma_placed_none<E: Arch>(
    x: Inputs,
    osecs: Seq<u32>,
    need: bool,
    thunked: bool,
    start: Placing,
    a: int,
    b: int,
)
    requires
        a <= b,
        placed_to::<E>(x, osecs, need, thunked, start, a) is None,
    ensures
        placed_to::<E>(x, osecs, need, thunked, start, b) is None,
    decreases b - a,
{
    if a < b && b > 0 {
        lemma_placed_none::<E>(x, osecs, need, thunked, start, a, b - 1);
    }
}

/// Places of subsections and thunk entries under construction.
pub struct Places {
    pub offs: Vec<u64>,
    pub entries: Vec<(u32, usize, u32)>,
}

/// True when thunk entries are about existing relocations.
pub open spec fn entries_exist(x: Inputs, entries: Seq<(u32, usize, u32)>) -> bool {
    forall|i: int|
        0 <= i < entries.len() ==> (#[trigger] entries[i]).0 < x.isecs.len() && entries[i].1
            < x.isecs[entries[i].0 as int].relocs.len()
}

fn set_size(c: &mut Chunk, size: u64)
    ensures
        final(c)@ == sized(old(c)@, size),
        final(c).isecs == old(c).isecs,
{
    c.hdr.size = size;
}

fn set_thunks(c: &mut Chunk, thunks: Vec<Thunk>, size: u64)
    ensures
        final(c)@ == (ChunkView {
            thunks: thunks@.map_values(|t: Thunk| t@),
            ..sized(old(c)@, size)
        }),
        final(c).isecs == old(c).isecs,
{
    c.hdr.size = size;
    c.thunks = thunks;
}

fn append_entries(a: &mut Vec<(u32, usize, u32)>, b: &Vec<(u32, usize, u32)>)
    ensures
        final(a)@ == old(a)@ + b@,
{
    let ghost start = a@;
    let mut i: usize = 0;
    assert(start + b@.take(0) =~= start);
    while i < b.len()
        invariant
            i <= b.len(),
            a@ == start + b@.take(i as int),
        decreases b.len() - i,
    {
        a.push(b[i]);
        i += 1;
        assert(a@ =~= start + b@.take(i as int));
    }
    assert(b@.take(b.len() as int) =~= b@);
}

fn place_with_thunks<E: Arch>(
    x: &Inputs,
    osecs: &Vec<u32>,
    chunks: &mut Vec<Chunk>,
    p: &mut Places,
    c: usize,
) -> (ok: bool)
    requires
        x.wf(),
        osecs.len() == x.isecs.len(),
        old(p).offs.len() == x.isecs.len(),
        entries_exist(*x, old(p).entries@),
        c < old(chunks).len(),
        super::sections::lists_ok(old(chunks)@, x.isecs.len() as int),
    ensures
        ({
            let start = Placing {
                chunks: crate::output_chunks::header::chunk_views(old(chunks)@),
                offs: old(p).offs@,
                entries: old(p).entries@,
            };
            if ok {
                place_thunked::<E>(*x, osecs@, start, c as int) == Some(
                    (Placing {
                        chunks: crate::output_chunks::header::chunk_views(final(chunks)@),
                        offs: final(p).offs@,
                        entries: final(p).entries@,
                    }),
                )
            } else {
                place_thunked::<E>(*x, osecs@, start, c as int) is None
            }
        }),
        ok ==> final(p).offs.len() == x.isecs.len() && entries_exist(*x, final(p).entries@),
        final(chunks).len() == old(chunks).len(),
        super::sections::lists_ok(final(chunks)@, x.isecs.len() as int),
{
    let ghost cv = crate::output_chunks::header::chunk_views(chunks@);
    let ghost before = chunks@;
    assert(cv[c as int] == chunks[c as int]@);
    proof {
        assert forall|k: int| 0 <= k < chunks[c as int].isecs.len() implies (
        #[trigger] chunks[c as int].isecs[k]) < x.isecs.len() by {}
    }
    let plan: Plan = match plan_thunks::<E>(x, osecs, &p.offs, &chunks[c].isecs) {
        Some(plan) => plan,
        None => {
            return false;
        },
    };
    let size: u64 = E::get_info().thunk_size;
    let nt: usize = plan.thunks.len();
    let ghost tv = plan.thunks@.map_values(|t: Thunk| t@);
    let mut a: u128 = 0;
    if nt > 0 {
        let t: &Thunk = &plan.thunks[nt - 1];
        assert(tv.last() == t@);
        let n: u128 = t.syms.len() as u128;
        assert(n * size <= 0xffff_ffff_ffff_ffff * 64) by (nonlinear_arith)
            requires
                n <= 0xffff_ffff_ffff_ffff,
                size <= 64,
        ;
        a = t.offset as u128 + n * size as u128;
    }
    let ni: usize = chunks[c].isecs.len();
    let mut b: u128 = 0;
    if ni > 0 {
        let last: usize = chunks[c].isecs[ni - 1] as usize;
        b = plan.offs[last] as u128 + x.isecs[last].size as u128;
    }
    let end: u128 = if a < b {
        b
    } else {
        a
    };
    if end > 0xffff_ffff_ffff_ffff {
        return false;
    }
    let ghost old_entries = p.entries@;
    append_entries(&mut p.entries, &plan.entries);
    proof {
        assert forall|i: int| 0 <= i < p.entries@.len() implies (#[trigger] p.entries@[i]).0
            < x.isecs.len() && p.entries@[i].1 < x.isecs[p.entries@[i].0 as int].relocs.len() by {
            if i < old_entries.len() {
                assert(p.entries@[i] == old_entries[i]);
            } else {
                assert(p.entries@[i] == plan@.entries[i - old_entries.len()]);
            }
        }
    }
    p.offs = plan.offs;
    set_thunks(&mut chunks[c], plan.thunks, end as u64);
    proof {
        assert(crate::output_chunks::header::chunk_views(chunks@) =~= cv.update(
            c as int,
            ChunkView { thunks: tv, ..sized(cv[c as int], end as u64) },
        ));
        assert forall|d: int, k: int|
            0 <= d < chunks.len() && 0 <= k < chunks[d].isecs.len() implies (
        #[trigger] chunks[d].isecs[k]) < x.isecs.len() by {
            assert(before[d].isecs[k] < x.isecs.len());
        }
    }
    true
}

fn place_chunks<E: Arch>(
    x: &Inputs,
    osecs: &Vec<u32>,
    need: bool,
    thunked: bool,
    chunks: &mut Vec<Chunk>,
    p: &mut Places,
) -> (ok: bool)
    requires
        x.wf(),
        osecs.len() == x.isecs.len(),
        old(p).offs.len() == x.isecs.len(),
        entries_exist(*x, old(p).entries@),
        super::sections::lists_ok(old(chunks)@, x.isecs.len() as int),
    ensures
        ({
            let start = Placing {
                chunks: crate::output_chunks::header::chunk_views(old(chunks)@),
                offs: old(p).offs@,
                entries: old(p).entries@,
            };
            let end = placed_to::<E>(
                *x,
                osecs@,
                need,
                thunked,
                start,
                old(chunks).len() as int,
            );
            if ok {
                end == Some(
                    (Placing {
                        chunks: crate::output_chunks::header::chunk_views(final(chunks)@),
                        offs: final(p).offs@,
                        entries: final(p).entries@,
                    }),
                )
            } else {
                end is None
            }
        }),
        ok ==> final(p).offs.len() == x.isecs.len() && entries_exist(*x, final(p).entries@),
        final(chunks).len() == old(chunks).len(),
        super::sections::lists_ok(final(chunks)@, x.isecs.len() as int),
{
    let ghost start = Placing {
        chunks: crate::output_chunks::header::chunk_views(chunks@),
        offs: p.offs@,
        entries: p.entries@,
    };
    let ghost len = chunks.len() as int;
    let mut c: usize = 0;
    while c < chunks.len()
        invariant
            x.wf(),
            osecs.len() == x.isecs.len(),
            c <= chunks.len(),
            chunks.len() == len,
            len == old(chunks).len(),
            start == (Placing {
                chunks: crate::output_chunks::header::chunk_views(old(chunks)@),
                offs: old(p).offs@,
                entries: old(p).entries@,
            }),
            p.offs.len() == x.isecs.len(),
            entries_exist(*x, p.entries@),
            super::sections::lists_ok(chunks@, x.isecs.len() as int),
            placed_to::<E>(*x, osecs@, need, thunked, start, c as int) == Some(
                (Placing {
                    chunks: crate::output_chunks::header::chunk_views(chunks@),
                    offs: p.offs@,
                    entries: p.entries@,
                }),
            ),
        decreases chunks.len() - c,
    {
        let ghost cv = crate::output_chunks::header::chunk_views(chunks@);
        let ghost before = chunks@;
        assert(cv[c as int] == chunks[c as int]@);
        if chunks[c].kind == ChunkKind::Output && (holds_code(&chunks[c]) && need) == thunked {
            if thunked {
                if !place_with_thunks::<E>(x, osecs, chunks, p, c) {
                    proof {
                        lemma_placed_none::<E>(*x, osecs@, need, thunked, start, c + 1, len);
                    }
                    return false;
                }
            } else {
                proof {
                    assert forall|k: int| 0 <= k < chunks[c as int].isecs.len() implies (
                    #[trigger] chunks[c as int].isecs[k]) < x.isecs.len() by {}
                }
                match place_run(x, &chunks[c].isecs, &mut p.offs) {
                    Some(end) => {
                        set_size(&mut chunks[c], end);
                        proof {
                            assert(crate::output_chunks::header::chunk_views(chunks@)
                                =~= cv.update(c as int, sized(cv[c as int], end)));
                            assert forall|d: int, k: int|
                                0 <= d < chunks.len() && 0 <= k
                                    < chunks[d].isecs.len() implies (
                            #[trigger] chunks[d].isecs[k]) < x.isecs.len() by {
                                assert(before[d].isecs[k] < x.isecs.len());
                            }
                        }
                    },
                    None => {
                        proof {
                            lemma_placed_none::<E>(*x, osecs@, need, thunked, start, c + 1, len);
                        }
                        return false;
                    },
                }
            }
        }
        c += 1;
    }
    true
}

/// Computes each subsection's offset within its output section.
pub fn place_sections<E: Arch>(
    x: &Inputs,
    osecs: &Vec<u32>,
    chunks: &mut Vec<Chunk>,
    offs: Vec<u64>,
) -> (r: Option<Places>)
    requires
        x.wf(),
        osecs.len() == x.isecs.len(),
        offs.len() == x.isecs.len(),
        super::sections::lists_ok(old(chunks)@, x.isecs.len() as int),
    ensures
        match r {
            Some(p) => all_placed::<E>(
                *x,
                osecs@,
                crate::output_chunks::header::chunk_views(old(chunks)@),
                offs@,
            ) == Some(
                (Placing {
                    chunks: crate::output_chunks::header::chunk_views(final(chunks)@),
                    offs: p.offs@,
                    entries: p.entries@,
                }),
            ) && p.offs.len() == x.isecs.len() && entries_exist(*x, p.entries@),
            None => all_placed::<E>(
                *x,
                osecs@,
                crate::output_chunks::header::chunk_views(old(chunks)@),
                offs@,
            ) is None,
        },
        final(chunks).len() == old(chunks).len(),
        super::sections::lists_ok(final(chunks)@, x.isecs.len() as int),
{
    let need: bool = want_thunks::<E>(x, chunks);
    let mut p = Places { offs, entries: Vec::new() };
    assert(p.entries@ =~= Seq::empty());
    if !place_chunks::<E>(x, osecs, need, false, chunks, &mut p) {
        return None;
    }
    if !place_chunks::<E>(x, osecs, need, true, chunks, &mut p) {
        return None;
    }
    Some(p)
}

proof fn lemma_run(x: Inputs, ids: Seq<u32>, offs: Seq<u64>, n: int)
    requires
        0 <= n <= ids.len(),
        forall|k: int| 0 <= k < ids.len() ==> (#[trigger] ids[k]) < offs.len(),
        forall|j: int, k: int|
            0 <= j < k < ids.len() ==> #[trigger] ids[j] != #[trigger] ids[k],
        run_to(x, ids, offs, n) is Some,
        run_to(x, ids, offs, n)->Some_0.end <= 0x1_0000_0000,
    ensures
        ({
            let r = run_to(x, ids, offs, n)->Some_0;
            &&& r.offs.len() == offs.len()
            &&& forall|k: int|
                0 <= k < n ==> {
                    let at = r.offs[(#[trigger] ids[k]) as int];
                    let s = x.isecs[ids[k] as int];
                    &&& at + s.size <= r.end
                    &&& s.size > 0 ==> at as int % vstd::arithmetic::power2::pow2(
                        s.p2align as nat,
                    ) as int == 0
                }
            &&& forall|j: int, k: int|
                0 <= j < k < n && x.isecs[ids[k] as int].size > 0 ==> r.offs[(
                #[trigger] ids[j]) as int] + x.isecs[ids[j] as int].size <= r.offs[(
                #[trigger] ids[k]) as int]
        }),
    decreases n,
{
    if n > 0 {
        let p = run_to(x, ids, offs, n - 1)->Some_0;
        let r = run_to(x, ids, offs, n)->Some_0;
        let id = ids[n - 1] as int;
        let s = x.isecs[id];
        let align = vstd::arithmetic::power2::pow2(s.p2align as nat) as int;
        vstd::arithmetic::power2::lemma_pow2_pos(s.p2align as nat);
        util::lemma_aligned(p.end as int, align);
        let at = util::place_at(p.end, s.p2align)->Some_0;
        assert(p.end <= at && at as int % align == 0);
        assert(at + s.size == r.end);
        lemma_run(x, ids, offs, n - 1);
        assert(ids[n - 1] < offs.len());
        assert(s.size > 0 ==> at % 0x1_0000_0000 == at);
        assert forall|k: int| 0 <= k < n implies {
            let at = r.offs[(#[trigger] ids[k]) as int];
            let s = x.isecs[ids[k] as int];
            &&& at + s.size <= r.end
            &&& s.size > 0 ==> at as int % vstd::arithmetic::power2::pow2(
                s.p2align as nat,
            ) as int == 0
        } by {
            if k < n - 1 {
                assert(ids[k] != ids[n - 1]);
                assert(r.offs[ids[k] as int] == p.offs[ids[k] as int]);
            }
        }
        assert forall|j: int, k: int|
            0 <= j < k < n && x.isecs[ids[k] as int].size > 0 implies r.offs[(
        #[trigger] ids[j]) as int] + x.isecs[ids[j] as int].size <= r.offs[(
        #[trigger] ids[k]) as int] by {
            assert(ids[j] != ids[n - 1]);
            assert(r.offs[ids[j] as int] == p.offs[ids[j] as int]);
            if k < n - 1 {
                assert(ids[k] != ids[n - 1]);
                assert(r.offs[ids[k] as int] == p.offs[ids[k] as int]);
            }
        }
    }
}

/// Subsections that are placed one behind the other in less than four
/// gigabytes are aligned and do not overlap.
pub proof fn lemma_run_apart(x: Inputs, ids: Seq<u32>, offs: Seq<u64>, j: int, k: int)
    requires
        0 <= j < k < ids.len(),
        forall|i: int| 0 <= i < ids.len() ==> (#[trigger] ids[i]) < offs.len(),
        forall|a: int, b: int|
            0 <= a < b < ids.len() ==> #[trigger] ids[a] != #[trigger] ids[b],
        run_to(x, ids, offs, ids.len() as int) is Some,
        run_to(x, ids, offs, ids.len() as int)->Some_0.end <= 0x1_0000_0000,
        x.isecs[ids[j] as int].size > 0,
        x.isecs[ids[k] as int].size > 0,
    ensures
        ({
            let r = run_to(x, ids, offs, ids.len() as int)->Some_0;
            let (a, b) = (ids[j] as int, ids[k] as int);
            &&& r.offs[a] + x.isecs[a].size <= r.offs[b]
            &&& r.offs[b] + x.isecs[b].size <= r.end
            &&& r.offs[a] as int % vstd::arithmetic::power2::pow2(
                x.isecs[a].p2align as nat,
            ) as int == 0
            &&& r.offs[b] as int % vstd::arithmetic::power2::pow2(
                x.isecs[b].p2align as nat,
            ) as int == 0
        }),
{
    lemma_run(x, ids, offs, ids.len() as int);
    assert(ids[j] < offs.len() && ids[k] < offs.len());
}

} // verus!
